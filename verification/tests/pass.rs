use furss::cache::ArticleCache;
use furss::options::FurssOptions;
use furss::pass::{
    article_of_body, begin_pass, end_pass, select_working_set, Pass, MAX_IN_FLIGHT,
};
use furss::xml::FeedError;

fn links(n: usize) -> Vec<String> {
    (0..n).map(|i| format!("https://a.example/{i}")).collect()
}

fn page(text: &str) -> Option<Vec<u8>> {
    Some(format!("<html><body><article>{text}</article></body></html>").into_bytes())
}

fn full() -> FurssOptions {
    let mut options = FurssOptions::new();
    options.full = Some(true);
    options
}

#[test]
fn working_set_is_the_first_ten_by_default() {
    let options = FurssOptions::new();
    assert_eq!(select_working_set(links(25), &options), links(10));
    assert_eq!(select_working_set(links(3), &options), links(3));
    assert_eq!(select_working_set(links(0), &options), links(0));
}

#[test]
fn working_set_follows_the_options() {
    let mut options = FurssOptions::new();
    options.number_items = Some(2);
    assert_eq!(select_working_set(links(5), &options), links(2));
    options.number_items = Some(0);
    assert_eq!(select_working_set(links(5), &options), links(0));
    options.full = Some(false);
    options.number_items = Some(4);
    assert_eq!(select_working_set(links(5), &options), links(4));
    options.full = Some(true);
    assert_eq!(select_working_set(links(25), &options), links(25));
}

#[test]
fn cache_hits_are_not_fetched() {
    let mut cache = ArticleCache::new();
    cache.insert("https://a.example/1".to_string(), "cached one".to_string());
    cache.insert("https://a.example/99".to_string(), "stale".to_string());
    let mut pass = Pass::begin(links(3), &full(), cache);
    let mut fetched = Vec::new();
    while let Some(fetch) = pass.next_fetch() {
        fetched.push(fetch.url.clone());
        assert!(pass.complete(fetch.slot, page(&fetch.url)));
    }
    assert_eq!(fetched, vec!["https://a.example/0", "https://a.example/2"]);
    assert!(pass.is_done());
    let outcome = pass.finish();
    assert_eq!(
        outcome.articles.lookup("https://a.example/1").unwrap(),
        "cached one"
    );
    assert_eq!(
        outcome.articles.lookup("https://a.example/0").unwrap(),
        "<article>https://a.example/0</article>"
    );
}

#[test]
fn cache_holds_the_working_set_after_a_pass() {
    let mut cache = ArticleCache::new();
    cache.insert("https://a.example/1".to_string(), "cached one".to_string());
    cache.insert("https://a.example/7".to_string(), "beyond the limit".to_string());
    cache.insert("https://gone.example/".to_string(), "stale".to_string());
    let mut options = FurssOptions::new();
    options.number_items = Some(3);
    let mut pass = Pass::begin(links(9), &options, cache);
    while let Some(fetch) = pass.next_fetch() {
        pass.complete(fetch.slot, page("fresh"));
    }
    let outcome = pass.finish();
    assert_eq!(outcome.cache.len(), 3);
    for url in links(3) {
        assert!(outcome.cache.contains(&url));
        assert_eq!(outcome.cache.lookup(&url), outcome.articles.lookup(&url));
    }
    assert!(!outcome.cache.contains("https://a.example/7"));
    assert!(!outcome.cache.contains("https://gone.example/"));
}

#[test]
fn failed_fetches_leave_no_entry() {
    let mut pass = Pass::begin(links(4), &full(), ArticleCache::new());
    let a = pass.next_fetch().unwrap();
    let b = pass.next_fetch().unwrap();
    let c = pass.next_fetch().unwrap();
    let d = pass.next_fetch().unwrap();
    assert!(pass.next_fetch().is_none());
    assert!(pass.complete(a.slot, None));
    assert!(pass.complete(b.slot, Some(b"<html><body>no block</body></html>".to_vec())));
    assert!(pass.complete(c.slot, Some(vec![0x3c, 0x61, 0xff, 0x3e])));
    assert!(pass.complete(d.slot, page("d")));
    assert!(pass.is_done());
    let outcome = pass.finish();
    assert_eq!(outcome.cache.len(), 1);
    assert_eq!(outcome.articles.lookup(&d.url).unwrap(), "<article>d</article>");
    assert!(outcome.articles.lookup(&a.url).is_none());
    assert!(outcome.articles.lookup(&b.url).is_none());
    assert!(outcome.articles.lookup(&c.url).is_none());
}

#[test]
fn never_more_than_eight_in_flight() {
    let mut pass = Pass::begin(links(20), &full(), ArticleCache::new());
    let mut under_way = Vec::new();
    let mut handed_out = 0;
    loop {
        while let Some(fetch) = pass.next_fetch() {
            handed_out += 1;
            under_way.push(fetch.slot);
            assert!(pass.in_flight() <= MAX_IN_FLIGHT);
            assert_eq!(pass.in_flight(), under_way.len());
        }
        if under_way.is_empty() {
            break;
        }
        if handed_out < 20 {
            assert_eq!(pass.in_flight(), 8);
        }
        let slot = under_way.remove(under_way.len() / 2);
        assert!(pass.complete(slot, page("x")));
    }
    assert_eq!(handed_out, 20);
    assert!(pass.is_done());
    assert_eq!(pass.finish().cache.len(), 20);
}

#[test]
fn a_slot_is_recorded_once() {
    let mut pass = Pass::begin(links(2), &full(), ArticleCache::new());
    assert!(!pass.record(0, Some("early".to_string())));
    let fetch = pass.next_fetch().unwrap();
    assert_eq!(fetch.slot, 0);
    assert!(!pass.record(1, Some("not handed out".to_string())));
    assert!(!pass.record(7, Some("no such slot".to_string())));
    assert!(pass.record(0, Some("first".to_string())));
    assert!(!pass.record(0, Some("second".to_string())));
    assert_eq!(pass.in_flight(), 0);
    assert!(!pass.is_done());
    let outcome = pass.finish();
    assert_eq!(outcome.articles.lookup(&fetch.url).unwrap(), "first");
    assert_eq!(outcome.articles.len(), 1);
}

#[test]
fn repeated_links_are_fetched_again_and_the_last_result_stays() {
    let twice = vec!["u".to_string(), "v".to_string(), "u".to_string()];
    let mut pass = Pass::begin(twice, &full(), ArticleCache::new());
    let a = pass.next_fetch().unwrap();
    let b = pass.next_fetch().unwrap();
    let c = pass.next_fetch().unwrap();
    assert_eq!((a.url.as_str(), b.url.as_str(), c.url.as_str()), ("u", "v", "u"));
    assert!(pass.record(c.slot, Some("late".to_string())));
    assert!(pass.record(a.slot, Some("early".to_string())));
    assert!(pass.record(b.slot, None));
    let outcome = pass.finish();
    assert_eq!(outcome.articles.lookup("u").unwrap(), "early");
    assert_eq!(outcome.cache.len(), 1);
}

#[test]
fn article_of_body_takes_the_content_block() {
    assert_eq!(article_of_body(page("x")).unwrap(), "<article>x</article>");
    assert_eq!(article_of_body(None), None);
    assert_eq!(article_of_body(Some(b"<p>none</p>".to_vec())), None);
    assert_eq!(article_of_body(Some(vec![0xc3, 0x28])), None);
}

fn run(content: &str, cache: ArticleCache, source: &dyn Fn(&str) -> Option<Vec<u8>>) -> (String, ArticleCache, usize) {
    let mut pass = begin_pass(content, &FurssOptions::new(), &cache).unwrap();
    let mut fetches = 0;
    while let Some(fetch) = pass.next_fetch() {
        fetches += 1;
        pass.complete(fetch.slot, source(&fetch.url));
    }
    let (text, cache) = end_pass(content, pass);
    (text.unwrap(), cache, fetches)
}

#[test]
fn a_second_run_gives_the_same_bytes() {
    let content = "<rss><channel><item><link>https://a.example/1</link></item><item><link>https://a.example/2</link></item><item><link>https://down.example/</link></item></channel></rss>";
    let source = |url: &str| {
        if url.starts_with("https://a.example/") {
            page(url)
        } else {
            None
        }
    };
    let (first, cache, fetches) = run(content, ArticleCache::new(), &source);
    assert_eq!(fetches, 3);
    assert_eq!(
        first,
        "<rss><channel><item><link>https://a.example/1</link><ns0:encoded>&lt;article&gt;https://a.example/1&lt;/article&gt;</ns0:encoded></item><item><link>https://a.example/2</link><ns0:encoded>&lt;article&gt;https://a.example/2&lt;/article&gt;</ns0:encoded></item></channel></rss>"
    );
    assert_eq!(cache.len(), 2);
    let (second, cache, fetches) = run(content, cache, &source);
    assert_eq!(fetches, 1);
    assert_eq!(second, first);
    assert_eq!(cache.len(), 2);
}

#[test]
fn a_pass_over_a_malformed_feed_does_not_begin() {
    let mut cache = ArticleCache::new();
    cache.insert("u".to_string(), "kept".to_string());
    let res = begin_pass("<rss><item></rss>", &FurssOptions::new(), &cache);
    assert_eq!(res.err(), Some(FeedError::Malformed));
    assert_eq!(cache.len(), 1);
    assert_eq!(cache.lookup("u").unwrap(), "kept");
}

#[test]
fn a_pass_over_a_feed_without_items_has_nothing_to_fetch() {
    let content = "<rss><channel><title>t</title><link>https://home.example/</link></channel></rss>";
    let mut pass = begin_pass(content, &FurssOptions::new(), &ArticleCache::new()).unwrap();
    assert!(pass.working_set().is_empty());
    assert!(pass.next_fetch().is_none());
    assert!(pass.is_done());
    let (text, cache) = end_pass(content, pass);
    assert_eq!(text.unwrap(), content);
    assert_eq!(cache.len(), 0);
}
