use furss::cache::{lists, text_eq, ArticleCache, FeedCache};

#[test]
fn a_new_cache_is_empty() {
    let cache = ArticleCache::new();
    assert_eq!(cache.len(), 0);
    assert!(!cache.contains("u"));
    assert!(cache.lookup("u").is_none());
}

#[test]
fn insert_puts_and_overwrites() {
    let mut cache = ArticleCache::new();
    cache.insert("u".to_string(), "one".to_string());
    cache.insert("v".to_string(), "two".to_string());
    assert_eq!(cache.len(), 2);
    assert_eq!(cache.lookup("u").unwrap(), "one");
    cache.insert("u".to_string(), "three".to_string());
    assert_eq!(cache.len(), 2);
    assert_eq!(cache.lookup("u").unwrap(), "three");
    assert_eq!(cache.lookup("v").unwrap(), "two");
    assert!(cache.lookup("w").is_none());
}

#[test]
fn merge_prefers_the_other_cache() {
    let mut cache = ArticleCache::new();
    cache.insert("u".to_string(), "old u".to_string());
    cache.insert("v".to_string(), "old v".to_string());
    let mut fresh = ArticleCache::new();
    fresh.insert("v".to_string(), "new v".to_string());
    fresh.insert("w".to_string(), "new w".to_string());
    cache.merge(&fresh);
    assert_eq!(cache.len(), 3);
    assert_eq!(cache.lookup("u").unwrap(), "old u");
    assert_eq!(cache.lookup("v").unwrap(), "new v");
    assert_eq!(cache.lookup("w").unwrap(), "new w");
    assert_eq!(fresh.len(), 2);
}

#[test]
fn prune_keeps_the_working_set_only() {
    let mut cache = ArticleCache::new();
    for url in ["a", "b", "c", "d"] {
        cache.insert(url.to_string(), format!("content of {url}"));
    }
    let working = vec!["d".to_string(), "x".to_string(), "b".to_string(), "d".to_string()];
    cache.prune(&working);
    assert_eq!(cache.len(), 2);
    assert_eq!(cache.lookup("b").unwrap(), "content of b");
    assert_eq!(cache.lookup("d").unwrap(), "content of d");
    assert!(!cache.contains("a"));
    assert!(!cache.contains("c"));
    assert!(!cache.contains("x"));
    cache.prune(&Vec::new());
    assert_eq!(cache.len(), 0);
}

#[test]
fn prune_before_merge_keeps_what_the_pass_fetched() {
    let mut cache = ArticleCache::new();
    cache.insert("stale".to_string(), "s".to_string());
    cache.insert("hit".to_string(), "h".to_string());
    let working = vec!["hit".to_string(), "new".to_string()];
    let mut fresh = ArticleCache::new();
    fresh.insert("new".to_string(), "n".to_string());
    cache.prune(&working);
    cache.merge(&fresh);
    assert_eq!(cache.len(), 2);
    assert_eq!(cache.lookup("hit").unwrap(), "h");
    assert_eq!(cache.lookup("new").unwrap(), "n");
}

#[test]
fn duplicate_copies_every_entry() {
    let mut cache = ArticleCache::new();
    cache.insert("u".to_string(), "one".to_string());
    let mut copy = cache.duplicate();
    copy.insert("v".to_string(), "two".to_string());
    assert_eq!(copy.len(), 2);
    assert_eq!(copy.lookup("u").unwrap(), "one");
    assert_eq!(cache.len(), 1);
}

#[test]
fn texts_compare_by_their_characters() {
    assert!(text_eq("", ""));
    assert!(text_eq("caf\u{e9}", "caf\u{e9}"));
    assert!(!text_eq("cafe", "caf\u{e9}"));
    assert!(!text_eq("a", "ab"));
    let urls = vec!["a".to_string(), "b".to_string()];
    assert!(lists(&urls, "b"));
    assert!(!lists(&urls, "c"));
    assert!(!lists(&Vec::new(), ""));
}

#[test]
fn a_feed_gets_its_cache_on_first_use() {
    let mut feeds = FeedCache::new();
    assert!(!feeds.contains("http://a.example/feed"));
    let cache = feeds.cache_of("http://a.example/feed");
    assert_eq!(cache.len(), 0);
    assert!(feeds.contains("http://a.example/feed"));
    assert!(!feeds.contains("http://b.example/feed"));
}

#[test]
fn a_stored_cache_is_kept_for_its_feed() {
    let mut feeds = FeedCache::new();
    let mut cache = feeds.cache_of("a");
    cache.insert("u".to_string(), "one".to_string());
    assert_eq!(feeds.cache_of("a").len(), 0);
    feeds.store("a".to_string(), cache);
    let mut other = ArticleCache::new();
    other.insert("v".to_string(), "two".to_string());
    feeds.store("b".to_string(), other);
    let a = feeds.cache_of("a");
    assert_eq!(a.len(), 1);
    assert_eq!(a.lookup("u").unwrap(), "one");
    let b = feeds.cache_of("b");
    assert_eq!(b.len(), 1);
    assert_eq!(b.lookup("v").unwrap(), "two");
    feeds.store("a".to_string(), ArticleCache::new());
    assert_eq!(feeds.cache_of("a").len(), 0);
    assert_eq!(feeds.cache_of("b").len(), 1);
}
