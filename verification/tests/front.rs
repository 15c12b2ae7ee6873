use furss::fetch::{article_request, feed_request, plan_feed, FetchRequest, PipelineError};
use furss::options::FurssOptions;
use furss::routes::{dispatch, feed_reply, greeting_reply, Route};
use furss::xml::FeedError;
use furss::LogLevel;

fn relayed() -> FurssOptions {
    let mut options = FurssOptions::new();
    options.flaresolverr = Some("http://relay.example:8191/v1".to_string());
    options
}

#[test]
fn options_default_to_ten_items_and_no_relay() {
    let options = FurssOptions::new();
    assert!(!options.is_full());
    assert_eq!(options.item_limit(), 10);
    assert!(options.flaresolverr.is_none());
    assert!(options.proxy.is_none());
    assert!(options.disable_cache.is_none());
    let options = FurssOptions::default();
    assert!(!options.is_full());
    assert_eq!(options.item_limit(), 10);
}

#[test]
fn options_read_the_flags() {
    let mut options = FurssOptions::new();
    options.full = Some(false);
    options.number_items = Some(65535);
    assert!(!options.is_full());
    assert_eq!(options.item_limit(), 65535);
    options.full = Some(true);
    assert!(options.is_full());
}

#[test]
fn log_levels_are_told_apart() {
    assert_ne!(LogLevel::Trace, LogLevel::Debug);
    assert_eq!(LogLevel::Warn, LogLevel::Warn);
    assert_ne!(LogLevel::Info, LogLevel::Error);
}

#[test]
fn articles_are_fetched_directly_without_a_relay() {
    match article_request("https://a.example/1?x=1", &FurssOptions::new()) {
        FetchRequest::Get { url } => assert_eq!(url, "https://a.example/1?x=1"),
        other => panic!("unexpected request {other:?}"),
    }
}

#[test]
fn articles_are_fetched_through_the_relay() {
    match article_request("https://a.example/1", &relayed()) {
        FetchRequest::Relay { relay, command, url } => {
            assert_eq!(relay, "http://relay.example:8191/v1");
            assert_eq!(command, "request.get");
            assert_eq!(url, "https://a.example/1");
        }
        other => panic!("unexpected request {other:?}"),
    }
}

#[test]
fn the_feed_is_fetched_without_its_query() {
    let plan = feed_request("/example.com/feed.xml?page=2&x=y", &FurssOptions::new()).unwrap();
    assert_eq!(plan.key, "http://example.com/feed.xml?page=2&x=y");
    match plan.request {
        FetchRequest::Get { url } => assert_eq!(url, "http://example.com/feed.xml?"),
        other => panic!("unexpected request {other:?}"),
    }
    let plan = feed_request("https://example.com", &FurssOptions::new()).unwrap();
    assert_eq!(plan.key, "https://example.com");
    match plan.request {
        FetchRequest::Get { url } => assert_eq!(url, "https://example.com/?"),
        other => panic!("unexpected request {other:?}"),
    }
}

#[test]
fn the_relay_is_asked_for_the_feed_without_its_query() {
    let plan = feed_request("example.com/feed?page=2", &relayed()).unwrap();
    assert_eq!(plan.key, "http://example.com/feed?page=2");
    match plan.request {
        FetchRequest::Relay { relay, command, url } => {
            assert_eq!(relay, "http://relay.example:8191/v1");
            assert_eq!(command, "request.get");
            assert_eq!(url, "http://example.com/feed?");
        }
        other => panic!("unexpected request {other:?}"),
    }
}

#[test]
fn an_address_that_does_not_parse_is_an_error() {
    assert_eq!(
        feed_request("http://[not an address", &FurssOptions::new()).err(),
        Some(PipelineError::InvalidUrl)
    );
    assert_eq!(
        feed_request("", &relayed()).err(),
        Some(PipelineError::InvalidUrl)
    );
}

#[test]
fn plan_feed_follows_the_parser() {
    let options = FurssOptions::new();
    assert_eq!(
        plan_feed("u".to_string(), None, &options).err(),
        Some(PipelineError::InvalidUrl)
    );
    let plan = plan_feed("u?q".to_string(), Some("u?".to_string()), &options).unwrap();
    assert_eq!(plan.key, "u?q");
    match plan.request {
        FetchRequest::Get { url } => assert_eq!(url, "u?"),
        other => panic!("unexpected request {other:?}"),
    }
}

#[test]
fn plan_feed_hands_the_relay_the_stripped_address() {
    let plan = plan_feed("u?a=1&b=2".to_string(), Some("u?".to_string()), &relayed()).unwrap();
    assert_eq!(plan.key, "u?a=1&b=2");
    match plan.request {
        FetchRequest::Relay { relay, command, url } => {
            assert_eq!(relay, "http://relay.example:8191/v1");
            assert_eq!(command, "request.get");
            assert_eq!(url, "u?");
        }
        other => panic!("unexpected request {other:?}"),
    }
    assert_eq!(
        plan_feed("u".to_string(), None, &relayed()).err(),
        Some(PipelineError::InvalidUrl)
    );
}

#[test]
fn requests_for_xml_go_to_the_pipeline() {
    match dispatch(Some(b"application/xml"), "/example.com/feed") {
        Route::Feed { url } => assert_eq!(url, "http://example.com/feed"),
        Route::Greeting => panic!("expected a feed route"),
    }
    match dispatch(Some(b"application/xml"), "/https://example.com/feed") {
        Route::Feed { url } => assert_eq!(url, "https://example.com/feed"),
        Route::Greeting => panic!("expected a feed route"),
    }
}

#[test]
fn other_requests_are_greeted() {
    assert!(matches!(dispatch(None, "/example.com"), Route::Greeting));
    assert!(matches!(dispatch(Some(b"text/html"), "/example.com"), Route::Greeting));
    assert!(matches!(
        dispatch(Some(b"application/xml; charset=utf-8"), "/example.com"),
        Route::Greeting
    ));
    assert!(matches!(dispatch(Some(b""), "/example.com"), Route::Greeting));
    let reply = greeting_reply();
    assert_eq!(reply.status, 200);
    assert_eq!(reply.content_type, None);
    assert_eq!(reply.body, "Hello, world!");
}

#[test]
fn the_feed_is_answered_as_xml() {
    let reply = feed_reply(Ok("<rss/>".to_string()));
    assert_eq!(reply.status, 200);
    assert_eq!(reply.content_type.as_deref(), Some("application/xml"));
    assert_eq!(reply.body, "<rss/>");
}

#[test]
fn a_failed_feed_is_answered_with_an_error() {
    for error in [
        PipelineError::InvalidUrl,
        PipelineError::Unreachable,
        PipelineError::Malformed,
        PipelineError::Encoding,
    ] {
        let reply = feed_reply(Err(error));
        assert_eq!(reply.status, 500);
        assert_eq!(reply.content_type, None);
        assert_eq!(reply.body, "Error fetching RSS feed");
    }
}

#[test]
fn feed_errors_have_messages() {
    assert_eq!(FeedError::Malformed.message(), "The feed is not well-formed XML");
    assert_eq!(FeedError::Encoding.message(), "The rewritten feed is not valid UTF-8");
}
