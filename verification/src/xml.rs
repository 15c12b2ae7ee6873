//! The tokens of a feed document, and the reader that yields them.
//!
//! A document is read as a sequence of tokens: tags, text, comments and the
//! like, closed by an end-of-input token. The reader is `quick_xml`'s; what it
//! yields is modelled here as a sequence of [`Lexeme`]s, and everything that
//! the scanner and the rewriter decide is stated over that sequence.

use quick_xml::events::Event;
use quick_xml::name::QName;
use quick_xml::Reader;
use vstd::prelude::*;
use vstd::slice::*;
use vstd::string::*;
use vstd::utf8::*;

verus! {

/// `quick_xml::Reader`, carried through as it is.
#[verifier::external_type_specification]
#[verifier::external_body]
#[verifier::reject_recursive_types(R)]
pub struct ExReader<R>(quick_xml::Reader<R>);

/// `quick_xml::Error`, carried through as it is.
#[verifier::external_type_specification]
#[verifier::external_body]
pub struct ExXmlError(quick_xml::Error);

/// Why a feed could not be read or written back.
#[derive(Clone, Copy, Debug, PartialEq, Eq, Structural)]
pub enum FeedError {
    /// The document is not well-formed, or a link element is never closed.
    Malformed,
    /// The rewritten document is not valid UTF-8.
    Encoding,
}

impl FeedError {
    /// A sentence that describes the error.
    pub fn message(&self) -> (res: String)
        ensures
            res@ == match *self {
                FeedError::Malformed => "The feed is not well-formed XML"@,
                FeedError::Encoding => "The rewritten feed is not valid UTF-8"@,
            },
    {
        match self {
            FeedError::Malformed => String::from_str("The feed is not well-formed XML"),
            FeedError::Encoding => String::from_str("The rewritten feed is not valid UTF-8"),
        }
    }
}

/// What sort of markup a token is.
#[derive(Clone, Copy, Debug, PartialEq, Eq, Structural)]
pub enum TokenKind {
    /// An opening tag, `<name ...>`.
    Start,
    /// A closing tag, `</name>`.
    End,
    /// A self-closing tag, `<name ... />`.
    Empty,
    /// Character data between tags, still escaped.
    Text,
    /// A `<![CDATA[...]]>` section.
    CData,
    /// A `<!-- ... -->` comment.
    Comment,
    /// The `<?xml ...?>` declaration.
    Decl,
    /// A `<?...?>` processing instruction.
    PI,
    /// A `<!DOCTYPE ...>` declaration.
    DocType,
    /// The end of the document.
    Eof,
}

/// One token of a document: its kind, and the bytes between its delimiters.
#[derive(Debug)]
pub struct XmlToken {
    pub kind: TokenKind,
    pub content: Vec<u8>,
}

/// The mathematical value of an [`XmlToken`].
pub ghost struct Token {
    pub kind: TokenKind,
    pub content: Seq<u8>,
}

impl View for XmlToken {
    type V = Token;

    open spec fn view(&self) -> Token {
        Token { kind: self.kind, content: self.content@ }
    }
}

/// The value of a text that may be absent.
pub open spec fn text_view(text: Option<String>) -> Option<Seq<char>> {
    match text {
        Some(text) => Some(text@),
        None => None,
    }
}

/// The value of a byte string that may be absent.
pub open spec fn bytes_view(bytes: Option<Vec<u8>>) -> Option<Seq<u8>> {
    match bytes {
        Some(bytes) => Some(bytes@),
        None => None,
    }
}

/// A token as the reader met it: the token, the stretch of the document that
/// the reader went over to produce it, and where that stretch begins and
/// ends, counted in bytes from the start of the document's body.
pub ghost struct Lexeme {
    pub token: Token,
    pub raw: Seq<u8>,
    pub start: nat,
    pub end: nat,
}

/// The length of the byte order mark at the start of `bytes`: three bytes
/// where it is there, none where it is not.
pub open spec fn bom_len(bytes: Seq<u8>) -> nat {
    if bytes.len() >= 3 && bytes[0] == 0xef && bytes[1] == 0xbb && bytes[2] == 0xbf {
        3
    } else {
        0
    }
}

/// The body of a document: its bytes after the byte order mark.
pub open spec fn document_body(bytes: Seq<u8>) -> Seq<u8> {
    bytes.skip(bom_len(bytes) as int)
}

/// Whether `lexemes` runs through to an end-of-input token.
pub open spec fn is_complete(lexemes: Seq<Lexeme>) -> bool {
    lexemes.len() > 0 && lexemes.last().token.kind == TokenKind::Eof
}

/// Whether the stretch of `lexeme` is the bytes of `body` between its two
/// ends.
pub open spec fn lies_in(lexeme: Lexeme, body: Seq<u8>) -> bool {
    &&& lexeme.start <= lexeme.end <= body.len()
    &&& lexeme.raw == body.subrange(lexeme.start as int, lexeme.end as int)
}

/// Whether the lexeme after the one at `i` begins where that one ends.
pub open spec fn adjoins(lexemes: Seq<Lexeme>, i: int) -> bool {
    lexemes[i].end == lexemes[i + 1].start
}

/// Whether the stretches of `lexemes` lie in `body` one after the other: the
/// first begins where the body begins, each begins where the one before it
/// ends, each is the bytes of the body between its two ends, and the
/// end-of-input token comes last and ends where the body ends.
pub open spec fn well_laid(lexemes: Seq<Lexeme>, body: Seq<u8>) -> bool {
    &&& lexemes.len() > 0 ==> lexemes[0].start == 0
    &&& forall|i: int| 0 <= i < lexemes.len() ==> lies_in(#[trigger] lexemes[i], body)
    &&& forall|i: int| 0 <= i && i + 1 < lexemes.len() ==> #[trigger] adjoins(lexemes, i)
    &&& forall|i: int|
        0 <= i < lexemes.len() && (#[trigger] lexemes[i]).token.kind == TokenKind::Eof ==> i
            == lexemes.len() - 1 && lexemes[i].end == body.len()
}

/// The white space that ends a tag's name.
pub open spec fn is_space(b: u8) -> bool {
    b == 0x20 || b == 0x0d || b == 0x0a || b == 0x09
}

/// The number of bytes before the first white space of `content`.
pub open spec fn name_len(content: Seq<u8>) -> nat
    decreases content.len(),
{
    if content.len() == 0 || is_space(content[0]) {
        0
    } else {
        1 + name_len(content.drop_first())
    }
}

/// The name of the element that a tag token opens or closes; empty for the
/// tokens that are no tags.
pub open spec fn token_name(token: Token) -> Seq<u8> {
    match token.kind {
        TokenKind::Start | TokenKind::Empty => token.content.subrange(
            0,
            name_len(token.content) as int,
        ),
        TokenKind::End => token.content,
        _ => Seq::empty(),
    }
}

/// Past `n` bytes that are no white space, the name goes on.
proof fn lemma_name_len_skip(content: Seq<u8>, n: int)
    requires
        0 <= n <= content.len(),
        forall|i: int| 0 <= i < n ==> !is_space(content[i]),
    ensures
        name_len(content) == n + name_len(content.skip(n)),
    decreases n,
{
    if n > 0 {
        assert(content.drop_first().skip(n - 1) =~= content.skip(n));
        lemma_name_len_skip(content.drop_first(), n - 1);
    } else {
        assert(content.skip(0) =~= content);
    }
}

/// Whether two byte strings are the same.
pub fn bytes_eq(a: &[u8], b: &[u8]) -> (res: bool)
    ensures
        res == (a@ == b@),
{
    if a.len() != b.len() {
        return false;
    }
    let mut i: usize = 0;
    while i < a.len()
        invariant
            i <= a.len(),
            a.len() == b.len(),
            forall|j: int| 0 <= j < i ==> a@[j] == b@[j],
        decreases a.len() - i,
    {
        if a[i] != b[i] {
            return false;
        }
        i += 1;
    }
    assert(a@ =~= b@);
    true
}

/// Appends `bytes` to `out`.
pub fn append_bytes(out: &mut Vec<u8>, bytes: &[u8])
    ensures
        final(out)@ == old(out)@ + bytes@,
{
    let mut i: usize = 0;
    while i < bytes.len()
        invariant
            i <= bytes.len(),
            out@ == old(out)@ + bytes@.subrange(0, i as int),
        decreases bytes.len() - i,
    {
        out.push(bytes[i]);
        i += 1;
        assert(out@ =~= old(out)@ + bytes@.subrange(0, i as int));
    }
    assert(bytes@.subrange(0, i as int) =~= bytes@);
}

impl XmlToken {
    /// The name of the element that this tag opens or closes; empty for the
    /// tokens that are no tags.
    pub fn name(&self) -> (res: &[u8])
        ensures
            res@ == token_name(self@),
    {
        let content = self.content.as_slice();
        match self.kind {
            TokenKind::Start | TokenKind::Empty => {
                let mut n: usize = 0;
                while n < content.len() && !(content[n] == 0x20 || content[n] == 0x0d
                    || content[n] == 0x0a || content[n] == 0x09)
                    invariant
                        n <= content.len(),
                        forall|i: int| 0 <= i < n ==> !is_space(content@[i]),
                    decreases content.len() - n,
                {
                    n += 1;
                }
                proof {
                    lemma_name_len_skip(content@, n as int);
                }
                slice_subrange(content, 0, n)
            },
            TokenKind::End => content,
            _ => {
                let none = slice_subrange(content, 0, 0);
                assert(none@ =~= Seq::<u8>::empty());
                none
            },
        }
    }
}

/// The lexemes of the document `content`: what a reader opened on it yields,
/// one after the other, through the end-of-input token; or, where the
/// document is not well-formed, up to the place at which the reader fails.
pub uninterp spec fn feed_lexemes(content: Seq<char>) -> Seq<Lexeme>;

/// The lexemes of the document that `reader` was opened on.
pub uninterp spec fn reader_lexemes(reader: &Reader<&[u8]>) -> Seq<Lexeme>;

/// How many of its lexemes `reader` has gone past.
pub uninterp spec fn reader_cursor(reader: &Reader<&[u8]>) -> nat;

/// The index of the closing tag that ends the element `name` entered just
/// before `from`: the first closing tag of that name that is not matched by
/// an opening tag of the same name between `from` and it. `depth` counts such
/// opening tags that are still open.
pub open spec fn find_close(lexemes: Seq<Lexeme>, from: int, name: Seq<u8>, depth: nat) -> Option<
    int,
>
    decreases lexemes.len() - from,
{
    if from < 0 || from >= lexemes.len() {
        None
    } else {
        let token = lexemes[from].token;
        if token.kind == TokenKind::Eof {
            None
        } else if token.kind == TokenKind::Start && token_name(token) == name {
            find_close(lexemes, from + 1, name, depth + 1)
        } else if token.kind == TokenKind::End && token_name(token) == name {
            if depth == 0 {
                Some(from)
            } else {
                find_close(lexemes, from + 1, name, (depth - 1) as nat)
            }
        } else {
            find_close(lexemes, from + 1, name, depth)
        }
    }
}

/// The stretch of the document that the lexemes from `from` up to `to` were
/// read from.
pub open spec fn span_bytes(lexemes: Seq<Lexeme>, from: int, to: int) -> Seq<u8>
    decreases to - from,
{
    if from < 0 || from >= to || to > lexemes.len() {
        Seq::empty()
    } else {
        lexemes[from].raw + span_bytes(lexemes, from + 1, to)
    }
}

/// The text of the element `name` whose opening tag stands just before
/// `from`, as the document has it, and the index of the lexeme after its
/// closing tag. `None` where the element is never closed or the text between
/// is not valid UTF-8.
pub open spec fn enclosed_text(lexemes: Seq<Lexeme>, from: int, name: Seq<u8>) -> Option<
    (Seq<char>, int),
> {
    match find_close(lexemes, from, name, 0) {
        Some(close) => {
            let bytes = span_bytes(lexemes, from, close);
            if valid_utf8(bytes) {
                Some((decode_utf8(bytes), close + 1))
            } else {
                None
            }
        },
        None => None,
    }
}

/// A closing tag that `find_close` finds lies at or after `from`, is a
/// lexeme of the sequence, and is a closing tag.
pub proof fn lemma_find_close_bounds(lexemes: Seq<Lexeme>, from: int, name: Seq<u8>, depth: nat)
    ensures
        find_close(lexemes, from, name, depth) matches Some(close) ==> from <= close
            < lexemes.len() && lexemes[close].token.kind == TokenKind::End,
    decreases lexemes.len() - from,
{
    if 0 <= from < lexemes.len() {
        let token = lexemes[from].token;
        if token.kind == TokenKind::Eof {
        } else if token.kind == TokenKind::Start && token_name(token) == name {
            lemma_find_close_bounds(lexemes, from + 1, name, depth + 1);
        } else if token.kind == TokenKind::End && token_name(token) == name {
            if depth > 0 {
                lemma_find_close_bounds(lexemes, from + 1, name, (depth - 1) as nat);
            }
        } else {
            lemma_find_close_bounds(lexemes, from + 1, name, depth);
        }
    }
}

/// Stretches that lie one after the other make up the stretch of the body
/// from the start of the first to the end of the last.
pub proof fn lemma_span_is_stretch(lexemes: Seq<Lexeme>, body: Seq<u8>, from: int, to: int)
    requires
        well_laid(lexemes, body),
        0 <= from < to <= lexemes.len(),
    ensures
        lexemes[from].start <= lexemes[to - 1].end <= body.len(),
        span_bytes(lexemes, from, to) == body.subrange(
            lexemes[from].start as int,
            lexemes[to - 1].end as int,
        ),
    decreases to - from,
{
    if from + 1 < to {
        lemma_span_is_stretch(lexemes, body, from + 1, to);
        assert(adjoins(lexemes, from));
        assert(lies_in(lexemes[from], body));
        assert(span_bytes(lexemes, from, to) =~= body.subrange(
            lexemes[from].start as int,
            lexemes[to - 1].end as int,
        ));
    } else {
        assert(lies_in(lexemes[from], body));
        assert(span_bytes(lexemes, from + 1, to) =~= Seq::<u8>::empty());
        assert(span_bytes(lexemes, from, to) =~= body.subrange(
            lexemes[from].start as int,
            lexemes[to - 1].end as int,
        ));
    }
}

/// Opens `quick_xml::Reader::from_str` on `content`. The reader stands before
/// the first lexeme of the document; which lexemes those are is left to the
/// reader and only given a name. Their stretches lie one after the other in
/// the document's body, which is the document without its byte order mark.
#[verifier::external_body]
pub(crate) fn open_reader<'a>(content: &'a str) -> (reader: Reader<&'a [u8]>)
    ensures
        reader_lexemes(&reader) == feed_lexemes(content@),
        reader_cursor(&reader) == 0,
        well_laid(reader_lexemes(&reader), document_body(content.spec_bytes())),
{
    Reader::from_str(content)
}

/// Calls `quick_xml::Reader::buffer_position`: before a lexeme is read, the
/// place at which its stretch begins.
#[verifier::external_body]
pub(crate) fn reader_position<'a>(reader: &Reader<&'a [u8]>) -> (res: usize)
    ensures
        reader_cursor(reader) < reader_lexemes(reader).len() ==> res == reader_lexemes(
            reader,
        )[reader_cursor(reader) as int].start,
{
    reader.buffer_position()
}

/// Calls `quick_xml::Reader::read_event`. A token that comes back is the one
/// at the cursor, and the cursor moves past it; once it is past the
/// end-of-input token, the reader yields that token again and again. The
/// reader fails exactly where its lexemes end without that token.
#[verifier::external_body]
pub(crate) fn next_token<'a>(reader: &mut Reader<&'a [u8]>) -> (res: Result<
    XmlToken,
    quick_xml::Error,
>)
    ensures
        match res {
            Ok(token) => {
                &&& reader_lexemes(final(reader)) == reader_lexemes(old(reader))
                &&& if reader_cursor(old(reader)) < reader_lexemes(old(reader)).len() {
                    &&& token@ == reader_lexemes(old(reader))[reader_cursor(
                        old(reader),
                    ) as int].token
                    &&& reader_cursor(final(reader)) == reader_cursor(old(reader)) + 1
                } else {
                    &&& is_complete(reader_lexemes(old(reader)))
                    &&& token.kind == TokenKind::Eof
                    &&& reader_cursor(final(reader)) == reader_cursor(old(reader))
                }
            },
            Err(_) => reader_cursor(old(reader)) >= reader_lexemes(old(reader)).len()
                && !is_complete(reader_lexemes(old(reader))),
        },
{
    let event = reader.read_event()?;
    let kind = match &event {
        Event::Start(_) => TokenKind::Start,
        Event::End(_) => TokenKind::End,
        Event::Empty(_) => TokenKind::Empty,
        Event::Text(_) => TokenKind::Text,
        Event::CData(_) => TokenKind::CData,
        Event::Comment(_) => TokenKind::Comment,
        Event::Decl(_) => TokenKind::Decl,
        Event::PI(_) => TokenKind::PI,
        Event::DocType(_) => TokenKind::DocType,
        Event::Eof => TokenKind::Eof,
    };
    Ok(XmlToken { kind, content: event.to_vec() })
}

/// Calls `quick_xml::Reader::read_text` right after an opening tag was read.
/// It succeeds exactly when the element `name` is closed further on and the
/// document's text up to that closing tag is valid UTF-8; it then returns
/// that text as it stands in the document, and the cursor is past the closing
/// tag.
#[verifier::external_body]
pub(crate) fn read_text<'a>(reader: &mut Reader<&'a [u8]>, name: &[u8]) -> (res: Result<
    String,
    quick_xml::Error,
>)
    requires
        0 < reader_cursor(old(reader)) <= reader_lexemes(old(reader)).len(),
        reader_lexemes(old(reader))[reader_cursor(old(reader)) - 1].token.kind == TokenKind::Start,
    ensures
        match res {
            Ok(text) => {
                &&& reader_lexemes(final(reader)) == reader_lexemes(old(reader))
                &&& enclosed_text(
                    reader_lexemes(old(reader)),
                    reader_cursor(old(reader)) as int,
                    name@,
                ) == Some((text@, reader_cursor(final(reader)) as int))
            },
            Err(_) => enclosed_text(
                reader_lexemes(old(reader)),
                reader_cursor(old(reader)) as int,
                name@,
            ) is None,
        },
{
    reader.read_text(QName(name)).map(|text| text.into_owned())
}

/// Calls `clone` on a `quick_xml::Reader`: the copy stands on the same
/// document at the same place.
#[verifier::external_body]
pub(crate) fn fork_reader<'a>(reader: &Reader<&'a [u8]>) -> (copy: Reader<&'a [u8]>)
    ensures
        reader_lexemes(&copy) == reader_lexemes(reader),
        reader_cursor(&copy) == reader_cursor(reader),
{
    reader.clone()
}

/// Calls `String::from_utf8`: the text that `bytes` encode, if they are valid
/// UTF-8.
#[verifier::external_body]
pub(crate) fn text_from_utf8(bytes: Vec<u8>) -> (res: Option<String>)
    ensures
        res is Some <==> valid_utf8(bytes@),
        res matches Some(text) ==> text@ == decode_utf8(bytes@),
{
    String::from_utf8(bytes).ok()
}

} // verus!
