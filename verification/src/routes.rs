//! The front door: which requests reach the pipeline, and what is answered.

use crate::fetch::PipelineError;
use crate::parse::{add_http_prefix, with_http_prefix};
use crate::xml::{bytes_eq, text_view};
use vstd::prelude::*;
use vstd::string::*;

verus! {

/// The content type that a request declares to ask for a feed, and that the
/// answer carries.
pub open spec fn feed_content_type() -> Seq<char> {
    "application/xml"@
}

/// Whether a request that declares `content_type` asks for a feed.
pub open spec fn asks_for_feed(content_type: Option<Seq<u8>>) -> bool {
    content_type == Some("application/xml".spec_bytes())
}

/// Where a request goes.
#[derive(Debug)]
pub enum Route {
    /// To the pipeline, for the feed at `url`.
    Feed { url: String },
    /// Nowhere: it is answered with a greeting.
    Greeting,
}

/// An answer: its status, its content type where it has one, and its body.
#[derive(Debug)]
pub struct Reply {
    pub status: u16,
    pub content_type: Option<String>,
    pub body: String,
}

/// The value of a byte string that may be absent.
pub open spec fn slice_view(bytes: Option<&[u8]>) -> Option<Seq<u8>> {
    match bytes {
        Some(bytes) => Some(bytes@),
        None => None,
    }
}

/// Where a request goes, by the content type that it declares. The path of a
/// request for a feed is the feed's address, which is given its scheme.
pub fn dispatch(content_type: Option<&[u8]>, path: &str) -> (res: Route)
    ensures
        match res {
            Route::Feed { url } => asks_for_feed(slice_view(content_type)) && url@
                == with_http_prefix(path@),
            Route::Greeting => !asks_for_feed(slice_view(content_type)),
        },
{
    match content_type {
        Some(declared) => {
            if bytes_eq(declared, "application/xml".as_bytes()) {
                Route::Feed { url: add_http_prefix(path) }
            } else {
                Route::Greeting
            }
        },
        None => Route::Greeting,
    }
}

/// The answer to a request for a feed: the rewritten feed, or an error that
/// says no more than that the feed could not be had.
pub fn feed_reply(outcome: Result<String, PipelineError>) -> (res: Reply)
    ensures
        match outcome {
            Ok(text) => res.status == 200 && text_view(res.content_type) == Some(
                feed_content_type(),
            ) && res.body@ == text@,
            Err(_) => res.status == 500 && res.content_type is None && res.body@
                == "Error fetching RSS feed"@,
        },
{
    match outcome {
        Ok(text) => Reply {
            status: 200,
            content_type: Some(String::from_str("application/xml")),
            body: text,
        },
        Err(_) => Reply {
            status: 500,
            content_type: None,
            body: String::from_str("Error fetching RSS feed"),
        },
    }
}

/// The answer to any other request.
pub fn greeting_reply() -> (res: Reply)
    ensures
        res.status == 200,
        res.content_type is None,
        res.body@ == "Hello, world!"@,
{
    Reply { status: 200, content_type: None, body: String::from_str("Hello, world!") }
}

} // verus!
