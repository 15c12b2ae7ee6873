//! The extractor: the content block of an article page.
//!
//! The page is parsed by `tl`; the block is the first element named
//! `article`, with everything inside it, as the page has it.

use crate::xml::{bytes_eq, text_from_utf8};
use vstd::prelude::*;
use vstd::string::*;
use vstd::utf8::*;

verus! {

/// `tl::VDom`, carried through as it is.
#[verifier::external_type_specification]
#[verifier::external_body]
pub struct ExVDom<'a>(tl::VDom<'a>);

/// Why a page gave no content block.
#[derive(Clone, Copy, Debug, PartialEq, Eq, Structural)]
pub enum ExtractError {
    /// The page is longer than the parser takes.
    TooLong,
    /// The page has no `article` element.
    NoArticle,
    /// The `article` element is not valid UTF-8.
    InvalidText,
}

impl ExtractError {
    /// A sentence that describes the error.
    pub fn message(&self) -> (res: String)
        ensures
            res@ == match *self {
                ExtractError::TooLong => "The page is too long to be parsed"@,
                ExtractError::NoArticle => "No article tag found"@,
                ExtractError::InvalidText => "The article is not valid UTF-8"@,
            },
    {
        match self {
            ExtractError::TooLong => String::from_str("The page is too long to be parsed"),
            ExtractError::NoArticle => String::from_str("No article tag found"),
            ExtractError::InvalidText => String::from_str("The article is not valid UTF-8"),
        }
    }
}

/// One node of a parsed page: the name of the element, or nothing where the
/// node is no element, and the stretch of the page that the node spans.
pub ghost struct HtmlNode {
    pub name: Option<Seq<u8>>,
    pub raw: Seq<u8>,
}

/// The nodes of the page `content`, in the order in which the parser lists
/// them.
pub uninterp spec fn html_nodes(content: Seq<char>) -> Seq<HtmlNode>;

/// The nodes that a parsed page holds.
pub uninterp spec fn dom_nodes(dom: &tl::VDom) -> Seq<HtmlNode>;

/// The longest page, in bytes, that the parser takes.
pub open spec fn max_page_len() -> nat {
    0xffff_ffff
}

/// The names of a list of nodes.
pub open spec fn node_names(nodes: Seq<HtmlNode>) -> Seq<Option<Seq<u8>>> {
    nodes.map_values(|node: HtmlNode| node.name)
}

/// The values of a list of names.
pub open spec fn name_views(names: Seq<Option<Vec<u8>>>) -> Seq<Option<Seq<u8>>> {
    names.map_values(
        |name: Option<Vec<u8>>|
            match name {
                Some(name) => Some(name@),
                None => None,
            },
    )
}

/// Whether a node of this name may be the content block: every node but a
/// `script` element may.
pub open spec fn is_candidate(name: Option<Seq<u8>>) -> bool {
    name != Some("script".spec_bytes())
}

/// Whether a node of this name is an `article` element.
pub open spec fn is_article(name: Option<Seq<u8>>) -> bool {
    name == Some("article".spec_bytes())
}

/// The place of the first `article` element among the candidates at or after
/// `at`.
pub open spec fn article_from(names: Seq<Option<Seq<u8>>>, at: int) -> Option<int>
    decreases names.len() - at,
{
    if at < 0 || at >= names.len() {
        None
    } else if is_candidate(names[at]) && is_article(names[at]) {
        Some(at)
    } else {
        article_from(names, at + 1)
    }
}

/// The content block among `nodes`: the first `article` element, as text.
pub open spec fn article_of(nodes: Seq<HtmlNode>) -> Result<Seq<char>, ExtractError> {
    match article_from(node_names(nodes), 0) {
        None => Err(ExtractError::NoArticle),
        Some(i) => if valid_utf8(nodes[i].raw) {
            Ok(decode_utf8(nodes[i].raw))
        } else {
            Err(ExtractError::InvalidText)
        },
    }
}

/// The content block of the page `content`.
pub open spec fn extracted(content: Seq<char>) -> Result<Seq<char>, ExtractError> {
    if encode_utf8(content).len() > max_page_len() {
        Err(ExtractError::TooLong)
    } else {
        article_of(html_nodes(content))
    }
}

/// An `article` element that `article_from` finds lies at or after `at`.
pub proof fn lemma_article_from_bounds(names: Seq<Option<Seq<u8>>>, at: int)
    ensures
        article_from(names, at) matches Some(i) ==> at <= i < names.len() && is_article(names[i]),
    decreases names.len() - at,
{
    if 0 <= at < names.len() && !(is_candidate(names[at]) && is_article(names[at])) {
        lemma_article_from_bounds(names, at + 1);
    }
}

/// Where no name is `article`, no place is found.
pub proof fn lemma_no_article_from(names: Seq<Option<Seq<u8>>>, at: int)
    requires
        forall|i: int| 0 <= i < names.len() ==> !is_article(#[trigger] names[i]),
    ensures
        article_from(names, at) is None,
    decreases names.len() - at,
{
    if 0 <= at < names.len() {
        lemma_no_article_from(names, at + 1);
    }
}

/// A page without an `article` element has no content block.
pub proof fn lemma_page_without_article(nodes: Seq<HtmlNode>)
    requires
        forall|i: int| 0 <= i < nodes.len() ==> !is_article(#[trigger] nodes[i].name),
    ensures
        article_of(nodes) == Err::<Seq<char>, ExtractError>(ExtractError::NoArticle),
{
    lemma_no_article_from(node_names(nodes), 0);
}

/// Calls `tl::parse` with the default options. It fails exactly on a page of
/// more than `u32::MAX` bytes; which nodes the page has is left to the parser
/// and only given a name.
#[verifier::external_body]
pub(crate) fn parse_html<'a>(content: &'a str) -> (res: Option<tl::VDom<'a>>)
    ensures
        res is Some <==> content.spec_bytes().len() <= max_page_len(),
        res matches Some(dom) ==> dom_nodes(&dom) == html_nodes(content@),
{
    tl::parse(content, tl::ParserOptions::default()).ok()
}

/// Calls `tl::VDom::nodes` and hands out, for each node in order, the name of
/// the element (`tl::HTMLTag::name`), or nothing where the node is no element.
#[verifier::external_body]
pub(crate) fn tag_names(dom: &tl::VDom) -> (res: Vec<Option<Vec<u8>>>)
    ensures
        name_views(res@) == node_names(dom_nodes(dom)),
{
    dom.nodes().iter().map(|node| node.as_tag().map(|tag| tag.name().as_bytes().to_vec())).collect()
}

/// Calls `tl::HTMLTag::raw` on the node at `index` of `tl::VDom::nodes`: the
/// stretch of the page that the element spans, where the node is an element.
#[verifier::external_body]
pub(crate) fn tag_raw(dom: &tl::VDom, index: usize) -> (res: Option<Vec<u8>>)
    ensures
        match res {
            Some(raw) => index < dom_nodes(dom).len() && dom_nodes(dom)[index as int].name is Some
                && raw@ == dom_nodes(dom)[index as int].raw,
            None => index >= dom_nodes(dom).len() || dom_nodes(dom)[index as int].name is None,
        },
{
    dom.nodes().get(index).and_then(|node| node.as_tag()).map(|tag| tag.raw().as_bytes().to_vec())
}

/// The place of the content block in a list of element names, one for each
/// node of a page and `None` for a node that is no element: the place of the
/// first name that is `article`, `script` elements passed over.
pub fn find_article(names: &Vec<Option<Vec<u8>>>) -> (res: Option<usize>)
    ensures
        match res {
            Some(i) => article_from(name_views(names@), 0) == Some(i as int),
            None => article_from(name_views(names@), 0) is None,
        },
{
    let mut i: usize = 0;
    while i < names.len()
        invariant
            i <= names.len(),
            article_from(name_views(names@), 0) == article_from(name_views(names@), i as int),
        decreases names.len() - i,
    {
        let found = match &names[i] {
            Some(name) => !bytes_eq(name.as_slice(), "script".as_bytes()) && bytes_eq(
                name.as_slice(),
                "article".as_bytes(),
            ),
            None => false,
        };
        if found {
            return Some(i);
        }
        i += 1;
    }
    None
}

/// The content block of the page `content`: its first `article` element with
/// everything inside it, as the page has it.
pub fn extract_content(content: &str) -> (res: Result<String, ExtractError>)
    ensures
        match res {
            Ok(text) => extracted(content@) == Ok::<Seq<char>, ExtractError>(text@),
            Err(e) => extracted(content@) == Err::<Seq<char>, ExtractError>(e),
        },
{
    let dom = match parse_html(content) {
        Some(dom) => dom,
        None => {
            return Err(ExtractError::TooLong);
        },
    };
    let names = tag_names(&dom);
    proof {
        lemma_article_from_bounds(name_views(names@), 0);
    }
    let index = match find_article(&names) {
        Some(index) => index,
        None => {
            return Err(ExtractError::NoArticle);
        },
    };
    match tag_raw(&dom, index) {
        Some(raw) => match text_from_utf8(raw) {
            Some(text) => Ok(text),
            None => Err(ExtractError::InvalidText),
        },
        None => Err(ExtractError::NoArticle),
    }
}

} // verus!
