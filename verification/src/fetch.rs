//! How the feed and its articles are to be fetched.
//!
//! A page is fetched with a plain GET, or, where the request names a relay,
//! by asking the relay to fetch it. The library only says which; the caller
//! does the fetching.

use crate::options::FurssOptions;
use crate::parse::{add_http_prefix, with_http_prefix};
use crate::xml::text_view;
use vstd::prelude::*;
use vstd::string::*;

verus! {

/// Why a request for a feed failed.
#[derive(Clone, Copy, Debug, PartialEq, Eq, Structural)]
pub enum PipelineError {
    /// The address of the feed cannot be parsed.
    InvalidUrl,
    /// The feed could not be fetched.
    Unreachable,
    /// The feed is not well-formed.
    Malformed,
    /// The rewritten feed is not valid UTF-8.
    Encoding,
}

/// How a page is to be fetched.
#[derive(Debug)]
pub enum FetchRequest {
    /// With a GET of `url`.
    Get { url: String },
    /// With a POST to `relay`, whose payload names `command` as `cmd` and the
    /// page's address as `url`; the relay answers with the page.
    Relay { relay: String, command: String, url: String },
}

/// The mathematical value of a [`FetchRequest`].
pub ghost enum Request {
    Get { url: Seq<char> },
    Relay { relay: Seq<char>, command: Seq<char>, url: Seq<char> },
}

impl View for FetchRequest {
    type V = Request;

    open spec fn view(&self) -> Request {
        match *self {
            FetchRequest::Get { url } => Request::Get { url: url@ },
            FetchRequest::Relay { relay, command, url } => Request::Relay {
                relay: relay@,
                command: command@,
                url: url@,
            },
        }
    }
}

/// How the feed is to be fetched, and the address under which its cache is
/// kept.
#[derive(Debug)]
pub struct FeedPlan {
    pub key: String,
    pub request: FetchRequest,
}

/// The mathematical value of a [`FeedPlan`].
pub ghost struct Plan {
    pub key: Seq<char>,
    pub request: Request,
}

impl View for FeedPlan {
    type V = Plan;

    open spec fn view(&self) -> Plan {
        Plan { key: self.key@, request: self.request@ }
    }
}

/// The command that asks a relay to fetch a page.
pub open spec fn relay_command() -> Seq<char> {
    "request.get"@
}

/// How the page at `url` is fetched: through the relay, where there is one.
pub open spec fn request_for(relay: Option<Seq<char>>, url: Seq<char>) -> Request {
    match relay {
        Some(relay) => Request::Relay { relay, command: relay_command(), url },
        None => Request::Get { url },
    }
}

/// The address `url` as the URL parser writes it back once its query is
/// cleared; `None` where the parser does not take `url`.
pub uninterp spec fn query_stripped(url: Seq<char>) -> Option<Seq<char>>;

/// How the feed at `url` is fetched, given what the URL parser makes of the
/// address: the request, direct or through the relay, goes to the address
/// without its query. The cache of the feed is kept under `url`.
pub open spec fn feed_plan(
    relay: Option<Seq<char>>,
    url: Seq<char>,
    stripped: Option<Seq<char>>,
) -> Result<Plan, PipelineError> {
    match stripped {
        Some(stripped) => Ok(Plan { key: url, request: request_for(relay, stripped) }),
        None => Err(PipelineError::InvalidUrl),
    }
}

/// Calls `reqwest::Url::parse`, clears the query with
/// `query_pairs_mut().clear()` and writes the address back. What comes of an
/// address is left to the parser and only given a name.
#[verifier::external_body]
pub(crate) fn strip_query(url: &str) -> (res: Option<String>)
    ensures
        text_view(res) == query_stripped(url@),
{
    let mut parsed = reqwest::Url::parse(url).ok()?;
    parsed.query_pairs_mut().clear();
    Some(parsed.into())
}

/// How the article at `url` is to be fetched.
pub fn article_request(url: &str, options: &FurssOptions) -> (res: FetchRequest)
    ensures
        res@ == request_for(text_view(options.flaresolverr), url@),
{
    match &options.flaresolverr {
        Some(relay) => FetchRequest::Relay {
            relay: relay.clone(),
            command: String::from_str("request.get"),
            url: url.to_owned(),
        },
        None => FetchRequest::Get { url: url.to_owned() },
    }
}

/// How the feed at `url` is to be fetched, given the address without its
/// query as the URL parser wrote it; `None` stands for an address that the
/// parser did not take.
pub fn plan_feed(url: String, stripped: Option<String>, options: &FurssOptions) -> (res: Result<
    FeedPlan,
    PipelineError,
>)
    ensures
        match res {
            Ok(plan) => feed_plan(text_view(options.flaresolverr), url@, text_view(stripped))
                == Ok::<Plan, PipelineError>(plan@),
            Err(e) => feed_plan(text_view(options.flaresolverr), url@, text_view(stripped))
                == Err::<Plan, PipelineError>(e),
        },
{
    match stripped {
        Some(stripped) => {
            let request = article_request(stripped.as_str(), options);
            Ok(FeedPlan { key: url, request })
        },
        None => Err(PipelineError::InvalidUrl),
    }
}

/// How the feed that a request names is to be fetched. The address is given
/// its scheme first; an address that the URL parser does not take is an
/// error.
pub fn feed_request(url: &str, options: &FurssOptions) -> (res: Result<FeedPlan, PipelineError>)
    ensures
        match res {
            Ok(plan) => feed_plan(
                text_view(options.flaresolverr),
                with_http_prefix(url@),
                query_stripped(with_http_prefix(url@)),
            ) == Ok::<Plan, PipelineError>(plan@),
            Err(e) => feed_plan(
                text_view(options.flaresolverr),
                with_http_prefix(url@),
                query_stripped(with_http_prefix(url@)),
            ) == Err::<Plan, PipelineError>(e),
        },
{
    let address = add_http_prefix(url);
    let stripped = strip_query(address.as_str());
    plan_feed(address, stripped, options)
}

} // verus!
