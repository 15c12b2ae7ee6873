//! The scanner: the article addresses that a feed's items name, in the order
//! in which the document has them.

use crate::xml::{
    bytes_eq, enclosed_text, feed_lexemes, is_complete, lemma_find_close_bounds, next_token,
    open_reader, read_text, reader_cursor, reader_lexemes, token_name, FeedError, Lexeme, Token,
    TokenKind, XmlToken,
};
use vstd::prelude::*;
use vstd::string::*;

verus! {

/// Whether `name` is the name of an element that holds one unit of a feed.
pub open spec fn is_item_name(name: Seq<u8>) -> bool {
    name == "item".spec_bytes() || name == "entry".spec_bytes()
}

/// Whether `name` is the name of an element that holds a unit's address.
pub open spec fn is_link_name(name: Seq<u8>) -> bool {
    name == "link".spec_bytes() || name == "id".spec_bytes()
}

/// Whether `name` is the name of an element that holds one unit of a feed.
pub fn names_item(name: &[u8]) -> (res: bool)
    ensures
        res == is_item_name(name@),
{
    bytes_eq(name, "item".as_bytes()) || bytes_eq(name, "entry".as_bytes())
}

/// Whether `name` is the name of an element that holds a unit's address.
pub fn names_link(name: &[u8]) -> (res: bool)
    ensures
        res == is_link_name(name@),
{
    bytes_eq(name, "link".as_bytes()) || bytes_eq(name, "id".as_bytes())
}

/// What the scanner does on a token.
#[derive(Clone, Copy, Debug, PartialEq, Eq, Structural)]
pub enum ScanAction {
    /// An item opens.
    Enter,
    /// An item closes.
    Leave,
    /// A link opens inside an item: its text is the next address.
    ReadLink,
    /// The token does not matter to the scanner.
    Skip,
    /// The document is at its end.
    Finish,
}

/// What the scanner does on `token`, inside an item or outside.
pub open spec fn scan_action(in_item: bool, token: Token) -> ScanAction {
    match token.kind {
        TokenKind::Eof => ScanAction::Finish,
        TokenKind::Start => if is_item_name(token_name(token)) {
            ScanAction::Enter
        } else if in_item && is_link_name(token_name(token)) {
            ScanAction::ReadLink
        } else {
            ScanAction::Skip
        },
        TokenKind::End => if is_item_name(token_name(token)) {
            ScanAction::Leave
        } else {
            ScanAction::Skip
        },
        _ => ScanAction::Skip,
    }
}

/// `first` put in front of `rest`, where there is a rest.
pub open spec fn followed_by(first: Seq<Seq<char>>, rest: Option<Seq<Seq<char>>>) -> Option<
    Seq<Seq<char>>,
> {
    match rest {
        Some(rest) => Some(first + rest),
        None => None,
    }
}

/// The addresses that the scanner collects from the lexeme at `at` on, having
/// got there inside an item or outside. `None` where the lexemes end without
/// an end-of-input token, or a link inside an item has no text to give.
pub open spec fn links_from(lexemes: Seq<Lexeme>, at: int, in_item: bool) -> Option<
    Seq<Seq<char>>,
>
    decreases lexemes.len() - at,
{
    if at < 0 || at >= lexemes.len() {
        None
    } else {
        let token = lexemes[at].token;
        match scan_action(in_item, token) {
            ScanAction::Finish => Some(Seq::empty()),
            ScanAction::Enter => links_from(lexemes, at + 1, true),
            ScanAction::Leave => links_from(lexemes, at + 1, false),
            ScanAction::Skip => links_from(lexemes, at + 1, in_item),
            ScanAction::ReadLink => match enclosed_text(lexemes, at + 1, token_name(token)) {
                Some((text, next)) => {
                    proof {
                        lemma_find_close_bounds(lexemes, at + 1, token_name(token), 0);
                    }
                    followed_by(seq![text], links_from(lexemes, next, in_item))
                },
                None => None,
            },
        }
    }
}

/// The addresses that the scanner collects from a whole document.
pub open spec fn feed_links(lexemes: Seq<Lexeme>) -> Option<Seq<Seq<char>>> {
    links_from(lexemes, 0, false)
}

/// Whether no lexeme opens an item.
pub open spec fn has_no_items(lexemes: Seq<Lexeme>) -> bool {
    forall|i: int|
        0 <= i < lexemes.len() ==> !(#[trigger] lexemes[i].token.kind == TokenKind::Start
            && is_item_name(token_name(lexemes[i].token)))
}

/// What the scanner does on `token`.
pub fn scan_step(in_item: bool, token: &XmlToken) -> (res: ScanAction)
    ensures
        res == scan_action(in_item, token@),
{
    match token.kind {
        TokenKind::Eof => ScanAction::Finish,
        TokenKind::Start => {
            let name = token.name();
            if names_item(name) {
                ScanAction::Enter
            } else if in_item && names_link(name) {
                ScanAction::ReadLink
            } else {
                ScanAction::Skip
            }
        },
        TokenKind::End => {
            if names_item(token.name()) {
                ScanAction::Leave
            } else {
                ScanAction::Skip
            }
        },
        _ => ScanAction::Skip,
    }
}

/// The article addresses of the feed `content`: the text of every link or id
/// element that stands inside an item or entry, in document order, as the
/// document has it. A feed that is not well-formed gives no addresses at all.
pub fn parse_rss_feed(content: &str) -> (res: Result<Vec<String>, FeedError>)
    ensures
        match res {
            Ok(urls) => feed_links(feed_lexemes(content@)) == Some(urls.deep_view()),
            Err(e) => e == FeedError::Malformed && feed_links(feed_lexemes(content@)) is None,
        },
{
    let mut reader = open_reader(content);
    let mut urls: Vec<String> = Vec::new();
    let mut in_item = false;
    let ghost lexemes = feed_lexemes(content@);
    assert(urls.deep_view() =~= Seq::<Seq<char>>::empty());
    assert(followed_by(Seq::empty(), links_from(lexemes, 0, false)) == links_from(lexemes, 0, false)) by {
        if let Some(rest) = links_from(lexemes, 0, false) {
            assert(Seq::<Seq<char>>::empty() + rest =~= rest);
        }
    }
    loop
        invariant
            lexemes == feed_lexemes(content@),
            reader_lexemes(&reader) == lexemes,
            reader_cursor(&reader) <= lexemes.len(),
            reader_cursor(&reader) == lexemes.len() ==> !is_complete(lexemes),
            feed_links(lexemes) == followed_by(
                urls.deep_view(),
                links_from(lexemes, reader_cursor(&reader) as int, in_item),
            ),
        decreases lexemes.len() - reader_cursor(&reader),
    {
        let ghost at = reader_cursor(&reader) as int;
        let token = match next_token(&mut reader) {
            Ok(token) => token,
            Err(_) => {
                return Err(FeedError::Malformed);
            },
        };
        match scan_step(in_item, &token) {
            ScanAction::Finish => {
                assert(urls.deep_view() + Seq::<Seq<char>>::empty() =~= urls.deep_view());
                return Ok(urls);
            },
            ScanAction::Enter => {
                in_item = true;
            },
            ScanAction::Leave => {
                in_item = false;
            },
            ScanAction::Skip => {},
            ScanAction::ReadLink => {
                let ghost before = urls.deep_view();
                proof {
                    lemma_find_close_bounds(lexemes, at + 1, token_name(token@), 0);
                }
                match read_text(&mut reader, token.name()) {
                    Ok(text) => {
                        urls.push(text);
                        proof {
                            assert(urls.deep_view() =~= before + seq![text@]);
                            let rest = links_from(lexemes, reader_cursor(&reader) as int, in_item);
                            if let Some(rest) = rest {
                                assert(before + (seq![text@] + rest) =~= (before + seq![text@])
                                    + rest);
                            }
                        }
                    },
                    Err(_) => {
                        return Err(FeedError::Malformed);
                    },
                }
            },
        }
    }
}

/// A feed without items names no article: the scanner's result is empty,
/// whenever the document can be read to its end.
pub proof fn lemma_no_items_no_links(lexemes: Seq<Lexeme>, at: int)
    requires
        has_no_items(lexemes),
        0 <= at,
        exists|end: int| at <= end < lexemes.len() && lexemes[end].token.kind == TokenKind::Eof,
    ensures
        links_from(lexemes, at, false) == Some(Seq::<Seq<char>>::empty()),
    decreases lexemes.len() - at,
{
    let token = lexemes[at].token;
    if token.kind != TokenKind::Eof {
        lemma_no_items_no_links(lexemes, at + 1);
    }
}

} // verus!
