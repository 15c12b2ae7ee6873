//! The rewriter: the feed written back stretch by stretch, each item either
//! carrying the content of its article or left out.
//!
//! What the rewriter keeps, it copies from the document byte for byte; what
//! it adds is one element before the closing tag of each item that it keeps.

use crate::cache::ArticleCache;
use crate::scan::{
    feed_links, has_no_items, is_item_name, is_link_name, lemma_no_items_no_links, names_item,
    names_link,
};
use crate::xml::{
    adjoins, append_bytes, bom_len, document_body, enclosed_text, feed_lexemes, fork_reader,
    is_complete, lies_in,
    lemma_span_is_stretch, next_token, open_reader, read_text, reader_cursor, reader_lexemes,
    reader_position, span_bytes, text_from_utf8, text_view, token_name, well_laid, FeedError,
    Lexeme, Token, TokenKind, XmlToken,
};
use vstd::prelude::*;
use vstd::slice::*;
use vstd::string::*;
use vstd::utf8::*;

verus! {

/// What stands for `c` in escaped text.
pub open spec fn escape_char(c: char) -> Seq<char> {
    if c == '<' {
        "&lt;"@
    } else if c == '>' {
        "&gt;"@
    } else if c == '&' {
        "&amp;"@
    } else if c == '\'' {
        "&apos;"@
    } else if c == '"' {
        "&quot;"@
    } else {
        seq![c]
    }
}

/// `text` with each of the five special characters of XML replaced by its
/// entity.
pub open spec fn escaped(text: Seq<char>) -> Seq<char>
    decreases text.len(),
{
    if text.len() == 0 {
        Seq::empty()
    } else {
        escape_char(text[0]) + escaped(text.drop_first())
    }
}

/// The element that carries the article `content` into an item: an
/// `ns0:encoded` element around the escaped content.
pub open spec fn content_element(content: Seq<char>) -> Seq<u8> {
    "<ns0:encoded>".spec_bytes() + encode_utf8(escaped(content)) + "</ns0:encoded>".spec_bytes()
}

/// What a token means to the rewriter.
#[derive(Clone, Copy, Debug, PartialEq, Eq, Structural)]
pub enum RewriteAction {
    /// An item opens.
    Open,
    /// A link opens.
    Link,
    /// An item closes.
    Close,
    /// Any other token.
    Plain,
    /// The document is at its end.
    Finish,
}

/// What `token` means to the rewriter.
pub open spec fn rewrite_action(token: Token) -> RewriteAction {
    match token.kind {
        TokenKind::Eof => RewriteAction::Finish,
        TokenKind::Start => if is_item_name(token_name(token)) {
            RewriteAction::Open
        } else if is_link_name(token_name(token)) {
            RewriteAction::Link
        } else {
            RewriteAction::Plain
        },
        TokenKind::End => if is_item_name(token_name(token)) {
            RewriteAction::Close
        } else {
            RewriteAction::Plain
        },
        _ => RewriteAction::Plain,
    }
}

/// The state of the rewriter. It passes the document through while it is not
/// buffering, and holds it back while it is.
pub ghost struct RewriteState {
    /// Whether an item is being read.
    pub buffering: bool,
    /// The stretch of the document that is held back: the item that is being
    /// read, from its opening tag on.
    pub held: Seq<u8>,
    /// The address that the item's last link gave; empty where none did.
    pub url: Seq<char>,
    /// What has been written.
    pub out: Seq<u8>,
}

/// The state before the first token.
pub open spec fn initial_state() -> RewriteState {
    RewriteState { buffering: false, held: Seq::empty(), url: Seq::empty(), out: Seq::empty() }
}

/// Writes the stretch `raw` if no item is being read, and holds it back
/// otherwise.
pub open spec fn pass_or_hold(state: RewriteState, raw: Seq<u8>) -> RewriteState {
    if state.buffering {
        RewriteState { held: state.held + raw, ..state }
    } else {
        RewriteState { out: state.out + raw, ..state }
    }
}

/// Whether the rewriter needs the text of the link that `token` opens.
pub open spec fn needs_link_text(state: RewriteState, token: Token) -> bool {
    rewrite_action(token) == RewriteAction::Link && state.buffering
}

/// The state after `token`, which was read from the stretch `raw` of the
/// document. `link` is the text of the link that the token opens, where the
/// rewriter needs it. At the end of an item whose address has content in
/// `cache`, the item is written as the document has it, with that content
/// before its closing tag; any other item is dropped.
pub open spec fn rewrite_step(
    state: RewriteState,
    token: Token,
    raw: Seq<u8>,
    link: Option<Seq<char>>,
    cache: Map<Seq<char>, Seq<char>>,
) -> RewriteState {
    match rewrite_action(token) {
        RewriteAction::Open => RewriteState {
            buffering: true,
            held: state.held + raw,
            ..state
        },
        RewriteAction::Link => if state.buffering {
            RewriteState {
                held: state.held + raw,
                url: match link {
                    Some(text) => text,
                    None => Seq::empty(),
                },
                ..state
            }
        } else {
            pass_or_hold(state, raw)
        },
        RewriteAction::Close => RewriteState {
            buffering: false,
            held: Seq::empty(),
            url: Seq::empty(),
            out: if state.url.len() > 0 && cache.contains_key(state.url) {
                state.out + state.held + content_element(cache[state.url]) + raw
            } else {
                state.out
            },
        },
        RewriteAction::Plain | RewriteAction::Finish => pass_or_hold(state, raw),
    }
}

/// What the rewriter has written at the end of the document, going on from
/// the lexeme at `at` in `state`. `None` where the lexemes end without an
/// end-of-input token, or a link inside an item has no text to give.
pub open spec fn rewrite_from(
    lexemes: Seq<Lexeme>,
    at: int,
    state: RewriteState,
    cache: Map<Seq<char>, Seq<char>>,
) -> Option<Seq<u8>>
    decreases lexemes.len() - at,
{
    if at < 0 || at >= lexemes.len() {
        None
    } else {
        let token = lexemes[at].token;
        let raw = lexemes[at].raw;
        if rewrite_action(token) == RewriteAction::Finish {
            Some(rewrite_step(state, token, raw, None, cache).out)
        } else if needs_link_text(state, token) {
            match enclosed_text(lexemes, at + 1, token_name(token)) {
                Some((text, _)) => rewrite_from(
                    lexemes,
                    at + 1,
                    rewrite_step(state, token, raw, Some(text), cache),
                    cache,
                ),
                None => None,
            }
        } else {
            rewrite_from(lexemes, at + 1, rewrite_step(state, token, raw, None, cache), cache)
        }
    }
}

/// The body of a whole document after rewriting.
pub open spec fn rewritten(lexemes: Seq<Lexeme>, cache: Map<Seq<char>, Seq<char>>) -> Option<
    Seq<u8>,
> {
    rewrite_from(lexemes, 0, initial_state(), cache)
}

/// The bytes of the document `content` after rewriting: its byte order mark,
/// where it has one, and its body rewritten.
pub open spec fn feed_output(content: Seq<char>, cache: Map<Seq<char>, Seq<char>>) -> Option<
    Seq<u8>,
> {
    match rewritten(feed_lexemes(content), cache) {
        Some(body) => Some(
            encode_utf8(content).take(bom_len(encode_utf8(content)) as int) + body,
        ),
        None => None,
    }
}

/// Whether no lexeme opens or closes an item.
pub open spec fn has_no_item_tags(lexemes: Seq<Lexeme>) -> bool {
    forall|i: int|
        0 <= i < lexemes.len() ==> {
            let action = rewrite_action(#[trigger] lexemes[i].token);
            action != RewriteAction::Open && action != RewriteAction::Close
        }
}

/// Calls `quick_xml::escape::escape`, which replaces `<`, `>`, `&`, `'` and
/// `"` by their entities and leaves every other character as it is.
#[verifier::external_body]
pub(crate) fn escape_text(text: &str) -> (res: String)
    ensures
        res@ == escaped(text@),
{
    quick_xml::escape::escape(text).into_owned()
}

/// The length of the byte order mark at the start of `bytes`.
pub fn bom_length(bytes: &[u8]) -> (res: usize)
    ensures
        res == bom_len(bytes@),
{
    if bytes.len() >= 3 && bytes[0] == 0xef && bytes[1] == 0xbb && bytes[2] == 0xbf {
        3
    } else {
        0
    }
}

/// Writes the element that carries the article `content` at the end of `out`.
pub fn write_content_element(out: &mut Vec<u8>, content: &str)
    ensures
        final(out)@ == old(out)@ + content_element(content@),
{
    let text = escape_text(content);
    append_bytes(out, "<ns0:encoded>".as_bytes());
    append_bytes(out, text.as_str().as_bytes());
    append_bytes(out, "</ns0:encoded>".as_bytes());
    assert(out@ =~= old(out)@ + content_element(content@));
}

/// What `token` means to the rewriter.
pub fn classify(token: &XmlToken) -> (res: RewriteAction)
    ensures
        res == rewrite_action(token@),
{
    match token.kind {
        TokenKind::Eof => RewriteAction::Finish,
        TokenKind::Start => {
            let name = token.name();
            if names_item(name) {
                RewriteAction::Open
            } else if names_link(name) {
                RewriteAction::Link
            } else {
                RewriteAction::Plain
            }
        },
        TokenKind::End => {
            if names_item(token.name()) {
                RewriteAction::Close
            } else {
                RewriteAction::Plain
            }
        },
        _ => RewriteAction::Plain,
    }
}

/// The rewriter: it takes the tokens of a feed one by one, each with the
/// stretch of the document that it was read from, and writes the enriched
/// feed.
pub struct Rewriter {
    buffering: bool,
    held: Vec<u8>,
    url: String,
    out: Vec<u8>,
}

impl View for Rewriter {
    type V = RewriteState;

    closed spec fn view(&self) -> RewriteState {
        RewriteState {
            buffering: self.buffering,
            held: self.held@,
            url: self.url@,
            out: self.out@,
        }
    }
}

impl Rewriter {
    /// A rewriter that has seen no token.
    pub fn new() -> (res: Self)
        ensures
            res@ == initial_state(),
    {
        Rewriter { buffering: false, held: Vec::new(), url: String::new(), out: Vec::new() }
    }

    /// Whether the rewriter is holding an item back.
    pub fn is_buffering(&self) -> (res: bool)
        ensures
            res == self@.buffering,
    {
        self.buffering
    }

    /// Whether the rewriter needs the text of the link that `token` opens.
    pub fn wants_link(&self, token: &XmlToken) -> (res: bool)
        ensures
            res == needs_link_text(self@, token@),
    {
        self.buffering && classify(token) == RewriteAction::Link
    }

    /// Writes the stretch `raw` if no item is being read, and holds it back
    /// otherwise.
    fn pass(&mut self, raw: &[u8])
        ensures
            final(self)@ == pass_or_hold(old(self)@, raw@),
    {
        if self.buffering {
            append_bytes(&mut self.held, raw);
        } else {
            append_bytes(&mut self.out, raw);
        }
    }

    /// Takes the next token of the feed and the stretch `raw` of the document
    /// that it was read from. `link` is the text of the link that the token
    /// opens, where `wants_link` asked for it.
    pub fn feed(&mut self, token: &XmlToken, raw: &[u8], link: Option<String>, cache: &ArticleCache)
        ensures
            final(self)@ == rewrite_step(old(self)@, token@, raw@, text_view(link), cache@),
    {
        match classify(token) {
            RewriteAction::Open => {
                self.buffering = true;
                append_bytes(&mut self.held, raw);
            },
            RewriteAction::Link => {
                if self.buffering {
                    append_bytes(&mut self.held, raw);
                    self.url = match link {
                        Some(text) => text,
                        None => String::new(),
                    };
                } else {
                    self.pass(raw);
                }
            },
            RewriteAction::Close => {
                if !self.url.as_str().is_empty() {
                    if let Some(content) = cache.lookup(self.url.as_str()) {
                        append_bytes(&mut self.out, self.held.as_slice());
                        write_content_element(&mut self.out, content.as_str());
                        append_bytes(&mut self.out, raw);
                    }
                }
                self.buffering = false;
                self.held = Vec::new();
                self.url = String::new();
            },
            RewriteAction::Plain | RewriteAction::Finish => {
                self.pass(raw);
            },
        }
    }

    /// What has been written.
    pub fn finish(self) -> (res: Vec<u8>)
        ensures
            res@ == self@.out,
    {
        self.out
    }
}

/// While no item is being read and none opens or closes, the rewriter writes
/// every stretch of the document as it is.
pub proof fn lemma_passes_through(
    lexemes: Seq<Lexeme>,
    body: Seq<u8>,
    at: int,
    state: RewriteState,
    cache: Map<Seq<char>, Seq<char>>,
)
    requires
        has_no_item_tags(lexemes),
        is_complete(lexemes),
        well_laid(lexemes, body),
        0 <= at < lexemes.len(),
        !state.buffering,
    ensures
        rewrite_from(lexemes, at, state, cache) == Some(
            state.out + span_bytes(lexemes, at, lexemes.len() as int),
        ),
    decreases lexemes.len() - at,
{
    let token = lexemes[at].token;
    let raw = lexemes[at].raw;
    let len = lexemes.len() as int;
    if token.kind == TokenKind::Eof {
        assert(span_bytes(lexemes, at + 1, len) =~= Seq::<u8>::empty());
        assert(state.out + raw =~= state.out + span_bytes(lexemes, at, len));
    } else {
        assert(lexemes[len - 1] == lexemes.last());
        let next = rewrite_step(state, token, raw, None, cache);
        lemma_passes_through(lexemes, body, at + 1, next, cache);
        assert(state.out + raw + span_bytes(lexemes, at + 1, len) =~= state.out + span_bytes(
            lexemes,
            at,
            len,
        ));
    }
}

/// A feed without items: the scanner finds no address in it, and the
/// rewriter writes its body back byte for byte, whatever the cache holds.
pub proof fn lemma_feed_without_items(
    lexemes: Seq<Lexeme>,
    body: Seq<u8>,
    cache: Map<Seq<char>, Seq<char>>,
)
    requires
        has_no_item_tags(lexemes),
        is_complete(lexemes),
        well_laid(lexemes, body),
    ensures
        feed_links(lexemes) == Some(Seq::<Seq<char>>::empty()),
        rewritten(lexemes, cache) == Some(body),
{
    let len = lexemes.len() as int;
    assert(has_no_items(lexemes)) by {
        assert forall|i: int| 0 <= i < lexemes.len() implies !(#[trigger] lexemes[i].token.kind
            == TokenKind::Start && is_item_name(token_name(lexemes[i].token))) by {
            let action = rewrite_action(lexemes[i].token);
            assert(action != RewriteAction::Open);
        }
    }
    assert(lexemes[len - 1] == lexemes.last());
    lemma_no_items_no_links(lexemes, 0);
    lemma_passes_through(lexemes, body, 0, initial_state(), cache);
    lemma_span_is_stretch(lexemes, body, 0, len);
    assert(body.subrange(0, body.len() as int) =~= body);
    assert(Seq::<u8>::empty() + body =~= body);
}

/// Whether what the rewriter holds back is the stretch of `body` from the
/// opening tag of the item that is being read, the lexeme at `open`, up to
/// the lexeme at `at`; and whether it holds nothing while no item is read.
pub open spec fn holds_item(
    state: RewriteState,
    lexemes: Seq<Lexeme>,
    body: Seq<u8>,
    open: int,
    upto: int,
) -> bool {
    if state.buffering {
        &&& 0 <= open < lexemes.len()
        &&& lexemes[open].start <= upto <= body.len()
        &&& state.held == body.subrange(lexemes[open].start as int, upto)
    } else {
        state.held.len() == 0 && state.url.len() == 0
    }
}

/// Whatever the rewriter writes on a lexeme is a stretch of the document,
/// byte for byte, or the one element that it adds. Outside an item it writes
/// the stretch of the lexeme, or nothing for a closing tag of an item. Inside
/// an item it writes nothing until the item closes; then it writes nothing,
/// or the whole item as the document has it, from its opening tag at `open`
/// to its closing tag, with the content element before the closing tag.
pub proof fn lemma_writes_stretches(
    lexemes: Seq<Lexeme>,
    body: Seq<u8>,
    at: int,
    open: int,
    state: RewriteState,
    link: Option<Seq<char>>,
    cache: Map<Seq<char>, Seq<char>>,
)
    requires
        well_laid(lexemes, body),
        0 <= at < lexemes.len(),
        holds_item(state, lexemes, body, open, lexemes[at].start as int),
    ensures
        ({
            let lexeme = lexemes[at];
            let next = rewrite_step(state, lexeme.token, lexeme.raw, link, cache);
            let stretch = body.subrange(lexeme.start as int, lexeme.end as int);
            let from = if state.buffering {
                open
            } else {
                at
            };
            &&& holds_item(next, lexemes, body, from, lexeme.end as int)
            &&& if !state.buffering {
                next.out == state.out + stretch || next.out == state.out
            } else if next.buffering {
                next.out == state.out
            } else {
                next.out == state.out || next.out == state.out + body.subrange(
                    lexemes[open].start as int,
                    lexeme.start as int,
                ) + content_element(cache[state.url]) + stretch
            }
        }),
{
    let lexeme = lexemes[at];
    assert(lies_in(lexeme, body));
    let next = rewrite_step(state, lexeme.token, lexeme.raw, link, cache);
    if state.buffering {
        assert(body.subrange(lexemes[open].start as int, lexeme.start as int) + lexeme.raw
            =~= body.subrange(lexemes[open].start as int, lexeme.end as int));
    } else {
        assert(state.held + lexeme.raw =~= body.subrange(
            lexeme.start as int,
            lexeme.end as int,
        ));
    }
}

/// The feed `content` with the cached article content put into its items.
///
/// Everything outside the items is written back byte for byte. An item is
/// written back as the document has it, with an `ns0:encoded` element before
/// its closing tag that holds the content that `cache` has for the address of
/// the item's last link; an item for which `cache` has nothing is left out.
/// A feed without items comes back as it is. The stretches that the feed's
/// lexemes were read from, of which the result is made, lie one after the
/// other in the feed's body.
pub fn add_content_to_item(content: &str, cache: &ArticleCache) -> (res: Result<String, FeedError>)
    ensures
        match res {
            Ok(text) => feed_output(content@, cache@) matches Some(bytes) && valid_utf8(bytes)
                && text@ == decode_utf8(bytes),
            Err(FeedError::Malformed) => feed_output(content@, cache@) is None,
            Err(FeedError::Encoding) => feed_output(content@, cache@) matches Some(bytes)
                && !valid_utf8(bytes),
        },
        has_no_item_tags(feed_lexemes(content@)) && is_complete(feed_lexemes(content@))
            ==> text_view(res.ok()) == Some(content@),
        well_laid(feed_lexemes(content@), document_body(encode_utf8(content@))),
{
    let bytes = content.as_bytes();
    let lead = bom_length(bytes);
    let body = slice_subrange(bytes, lead, bytes.len());
    let mut reader = open_reader(content);
    let mut rewriter = Rewriter::new();
    let ghost lexemes = feed_lexemes(content@);
    loop
        invariant
            bytes@ == encode_utf8(content@),
            lead == bom_len(bytes@),
            body@ == document_body(bytes@),
            lexemes == feed_lexemes(content@),
            reader_lexemes(&reader) == lexemes,
            well_laid(lexemes, body@),
            reader_cursor(&reader) <= lexemes.len(),
            reader_cursor(&reader) == lexemes.len() ==> !is_complete(lexemes),
            rewriter@.buffering ==> !has_no_item_tags(lexemes),
            rewritten(lexemes, cache@) == rewrite_from(
                lexemes,
                reader_cursor(&reader) as int,
                rewriter@,
                cache@,
            ),
        decreases lexemes.len() - reader_cursor(&reader),
    {
        let ghost at = reader_cursor(&reader) as int;
        let ghost before = rewriter@;
        let start = reader_position(&reader);
        let token = match next_token(&mut reader) {
            Ok(token) => token,
            Err(_) => {
                return Err(FeedError::Malformed);
            },
        };
        let end = if token.kind == TokenKind::Eof {
            body.len()
        } else {
            let next = reader_position(&reader);
            if start <= next && next <= body.len() {
                next
            } else {
                start
            }
        };
        proof {
            assert(lies_in(lexemes[at], body@));
            if at + 1 < lexemes.len() {
                assert(adjoins(lexemes, at));
            }
        }
        let raw = slice_subrange(body, start, end);
        assert(at + 1 < lexemes.len() || token.kind == TokenKind::Eof ==> raw@ == lexemes[at].raw);
        let link = if rewriter.wants_link(&token) {
            let mut ahead = fork_reader(&reader);
            match read_text(&mut ahead, token.name()) {
                Ok(text) => Some(text),
                Err(_) => {
                    return Err(FeedError::Malformed);
                },
            }
        } else {
            None
        };
        let ghost given = text_view(link);
        rewriter.feed(&token, raw, link, cache);
        proof {
            if rewriter@.buffering && !before.buffering {
                assert(rewrite_action(lexemes[at].token) == RewriteAction::Open);
            }
            assert(lexemes[lexemes.len() - 1] == lexemes.last());
            if at + 1 >= lexemes.len() && token.kind != TokenKind::Eof {
                let exact = rewrite_step(before, token@, lexemes[at].raw, given, cache@);
                assert(rewrite_from(lexemes, at + 1, exact, cache@) is None);
                assert(rewrite_from(lexemes, at + 1, rewriter@, cache@) is None);
            }
        }
        if token.kind == TokenKind::Eof {
            let mut all = slice_to_vec(slice_subrange(bytes, 0, lead));
            append_bytes(&mut all, rewriter.finish().as_slice());
            proof {
                if has_no_item_tags(lexemes) && is_complete(lexemes) {
                    lemma_feed_without_items(lexemes, body@, cache@);
                    assert(all@ =~= bytes@);
                    encode_utf8_valid_utf8(content@);
                    encode_utf8_decode_utf8(content@);
                }
            }
            return match text_from_utf8(all) {
                Some(text) => Ok(text),
                None => Err(FeedError::Encoding),
            };
        }
    }
}

} // verus!
