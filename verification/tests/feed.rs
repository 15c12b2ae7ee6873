use furss::cache::ArticleCache;
use furss::rewrite::{add_content_to_item, bom_length, write_content_element, Rewriter};
use furss::scan::{parse_rss_feed, scan_step, ScanAction};
use furss::xml::{FeedError, TokenKind, XmlToken};

fn token(kind: TokenKind, content: &str) -> XmlToken {
    XmlToken { kind, content: content.as_bytes().to_vec() }
}

#[test]
fn test_add_content_to_item() {
    let content = r#"<rss version="2.0"><channel><title>Test</title><link>https://test.com/</link><description>RSS to test</description><language>en-us</language><item><title>First article</title><link>https://example.org</link><description>This is the description of example.org</description><pubDate>Sun, 26 May 2024 10:00:00 -0400</pubDate><dc:creator>martabal</dc:creator></item><item><title>Second article</title><link>https://not.in.hashmap.com</link><description>This is the description of not.in.hashmap.com</description><pubDate>Sun, 26 May 2024 09:00:00 -0400</pubDate><dc:creator>martabal</dc:creator></item></channel></rss>"#;

    let expect = r#"<rss version="2.0"><channel><title>Test</title><link>https://test.com/</link><description>RSS to test</description><language>en-us</language><item><title>First article</title><link>https://example.org</link><description>This is the description of example.org</description><pubDate>Sun, 26 May 2024 10:00:00 -0400</pubDate><dc:creator>martabal</dc:creator><ns0:encoded>Content of example.org</ns0:encoded></item></channel></rss>"#;
    let mut cache = ArticleCache::new();

    cache.insert(
        "https://example.org".to_string(),
        "Content of example.org".to_string(),
    );
    assert_eq!(add_content_to_item(content, &cache).unwrap(), expect);
}

#[test]
fn scanner_lists_links_in_document_order() {
    let content = r#"<rss><channel><link>https://feed.example/</link><item><link>https://a.example/1</link></item><item><title>t</title><link>https://b.example/2</link><id>tag:2</id></item></channel></rss>"#;
    assert_eq!(
        parse_rss_feed(content).unwrap(),
        vec!["https://a.example/1", "https://b.example/2", "tag:2"]
    );
}

#[test]
fn scanner_reads_atom_entries() {
    let content = r#"<feed><id>feed-id</id><entry><id>https://a.example/x</id><link href="https://a.example/x"/></entry></feed>"#;
    assert_eq!(parse_rss_feed(content).unwrap(), vec!["https://a.example/x"]);
}

#[test]
fn scanner_keeps_duplicates_and_empty_links() {
    let content = "<rss><item><link>u</link></item><item><link></link></item><item><link>u</link></item></rss>";
    assert_eq!(parse_rss_feed(content).unwrap(), vec!["u", "", "u"]);
}

#[test]
fn scanner_takes_link_text_as_the_document_has_it() {
    let content = "<rss><item><link> <b>x</b > &amp; <![CDATA[y]]></link></item></rss>";
    assert_eq!(
        parse_rss_feed(content).unwrap(),
        vec![" <b>x</b > &amp; <![CDATA[y]]>"]
    );
}

#[test]
fn scanner_handles_nested_links_of_the_same_name() {
    let content = "<rss><item><link>a<link>b</link>c</link><id>d</id></item></rss>";
    assert_eq!(parse_rss_feed(content).unwrap(), vec!["a<link>b</link>c", "d"]);
}

#[test]
fn scanner_rejects_a_malformed_feed() {
    assert_eq!(
        parse_rss_feed("<rss><item><link>u</link></itm></rss>"),
        Err(FeedError::Malformed)
    );
    assert_eq!(parse_rss_feed("<rss><item><link>u"), Err(FeedError::Malformed));
    assert_eq!(parse_rss_feed("<rss><item"), Err(FeedError::Malformed));
}

#[test]
fn feed_without_items_is_left_as_it_is() {
    let content = "<?xml version=\"1.0\" encoding=\"UTF-8\"?>\n<!DOCTYPE rss>\n<rss version=\"2.0\">\n  <channel>\n    <!-- no items -->\n    <title>T &amp; t</title>\n    <link>https://test.com/</link>\n    <atom:link href=\"x\" rel='self' />\n    <description><![CDATA[<b>d</b>]]></description>\n    <?pi data?>\n  </channel>\n</rss>\n";
    assert_eq!(parse_rss_feed(content).unwrap(), Vec::<String>::new());
    let mut cache = ArticleCache::new();
    assert_eq!(add_content_to_item(content, &cache).unwrap(), content);
    cache.insert("https://test.com/".to_string(), "x".to_string());
    assert_eq!(add_content_to_item(content, &cache).unwrap(), content);
}

#[test]
fn empty_feed_is_left_as_it_is() {
    assert_eq!(parse_rss_feed("").unwrap(), Vec::<String>::new());
    assert_eq!(add_content_to_item("", &ArticleCache::new()).unwrap(), "");
}

#[test]
fn rewriter_escapes_the_content_it_adds() {
    let content = "<rss><item><link>u</link></item></rss>";
    let mut cache = ArticleCache::new();
    cache.insert(
        "u".to_string(),
        "<article class=\"a\">Tom & 'Jerry'</article>".to_string(),
    );
    assert_eq!(
        add_content_to_item(content, &cache).unwrap(),
        "<rss><item><link>u</link><ns0:encoded>&lt;article class=&quot;a&quot;&gt;Tom &amp; &apos;Jerry&apos;&lt;/article&gt;</ns0:encoded></item></rss>"
    );
}

#[test]
fn rewriter_uses_the_last_link_of_an_item() {
    let content = "<rss><item><link>first</link><id>second</id></item></rss>";
    let mut cache = ArticleCache::new();
    cache.insert("first".to_string(), "1".to_string());
    assert_eq!(add_content_to_item(content, &cache).unwrap(), "<rss></rss>");
    cache.insert("second".to_string(), "2".to_string());
    assert_eq!(
        add_content_to_item(content, &cache).unwrap(),
        "<rss><item><link>first</link><id>second</id><ns0:encoded>2</ns0:encoded></item></rss>"
    );
}

#[test]
fn rewriter_drops_items_without_a_link() {
    let content = "<rss><item><title>t</title></item><item><link></link></item>tail</rss>";
    let mut cache = ArticleCache::new();
    cache.insert("".to_string(), "never used".to_string());
    assert_eq!(add_content_to_item(content, &cache).unwrap(), "<rss>tail</rss>");
}

#[test]
fn rewriter_rejects_a_malformed_feed() {
    let cache = ArticleCache::new();
    assert_eq!(
        add_content_to_item("<rss><item></rss>", &cache),
        Err(FeedError::Malformed)
    );
    assert_eq!(
        add_content_to_item("<rss><item><link>u", &cache),
        Err(FeedError::Malformed)
    );
}

#[test]
fn scan_step_follows_items_and_links() {
    assert_eq!(scan_step(false, &token(TokenKind::Start, "item")), ScanAction::Enter);
    assert_eq!(scan_step(true, &token(TokenKind::Start, "entry xml:lang=\"en\"")), ScanAction::Enter);
    assert_eq!(scan_step(false, &token(TokenKind::Start, "link")), ScanAction::Skip);
    assert_eq!(scan_step(true, &token(TokenKind::Start, "link")), ScanAction::ReadLink);
    assert_eq!(scan_step(true, &token(TokenKind::Start, "id")), ScanAction::ReadLink);
    assert_eq!(scan_step(true, &token(TokenKind::Start, "links")), ScanAction::Skip);
    assert_eq!(scan_step(true, &token(TokenKind::Empty, "link href=\"x\"")), ScanAction::Skip);
    assert_eq!(scan_step(true, &token(TokenKind::End, "item")), ScanAction::Leave);
    assert_eq!(scan_step(true, &token(TokenKind::End, "link")), ScanAction::Skip);
    assert_eq!(scan_step(true, &token(TokenKind::Text, "item")), ScanAction::Skip);
    assert_eq!(scan_step(true, &token(TokenKind::Eof, "")), ScanAction::Finish);
}

#[test]
fn token_names_end_at_white_space() {
    assert_eq!(token(TokenKind::Start, "item").name(), b"item");
    assert_eq!(token(TokenKind::Start, "item\tx=\"1\"").name(), b"item");
    assert_eq!(token(TokenKind::Empty, "link href=\"x\" ").name(), b"link");
    assert_eq!(token(TokenKind::End, "dc:creator").name(), b"dc:creator");
    assert_eq!(token(TokenKind::Text, "item").name(), b"");
    assert_eq!(token(TokenKind::Start, "").name(), b"");
}

#[test]
fn content_element_wraps_escaped_text() {
    let mut out = b"pre".to_vec();
    write_content_element(&mut out, "a < b");
    assert_eq!(out, b"pre<ns0:encoded>a &lt; b</ns0:encoded>");
    let mut out = Vec::new();
    write_content_element(&mut out, "");
    assert_eq!(out, b"<ns0:encoded></ns0:encoded>");
}

#[test]
fn byte_order_mark_is_three_bytes_or_none() {
    assert_eq!(bom_length(b""), 0);
    assert_eq!(bom_length(b"\xef\xbb"), 0);
    assert_eq!(bom_length(b"\xef\xbb\xbf"), 3);
    assert_eq!(bom_length("\u{feff}<rss/>".as_bytes()), 3);
    assert_eq!(bom_length(b"<rss/>"), 0);
}

#[test]
fn rewriter_takes_tokens_one_by_one() {
    let mut cache = ArticleCache::new();
    cache.insert("u".to_string(), "C".to_string());
    let mut rewriter = Rewriter::new();
    assert!(!rewriter.is_buffering());
    assert!(!rewriter.wants_link(&token(TokenKind::Start, "link")));
    rewriter.feed(&token(TokenKind::Start, "link"), b"<link >", None, &cache);
    rewriter.feed(&token(TokenKind::Text, "home"), b"home", None, &cache);
    rewriter.feed(&token(TokenKind::End, "link"), b"</link>", None, &cache);
    assert!(!rewriter.is_buffering());
    rewriter.feed(&token(TokenKind::Start, "item"), b"<item>", None, &cache);
    assert!(rewriter.is_buffering());
    assert!(rewriter.wants_link(&token(TokenKind::Start, "link")));
    assert!(!rewriter.wants_link(&token(TokenKind::Start, "title")));
    rewriter.feed(&token(TokenKind::Start, "link"), b"<link>", Some("u".to_string()), &cache);
    rewriter.feed(&token(TokenKind::Text, "u"), b"u", None, &cache);
    rewriter.feed(&token(TokenKind::End, "link"), b"</link\n>", None, &cache);
    rewriter.feed(&token(TokenKind::End, "item"), b"</item >", None, &cache);
    assert!(!rewriter.is_buffering());
    rewriter.feed(&token(TokenKind::Start, "entry"), b"<entry>", None, &cache);
    rewriter.feed(&token(TokenKind::Start, "id"), b"<id>", Some("v".to_string()), &cache);
    rewriter.feed(&token(TokenKind::End, "id"), b"</id>", None, &cache);
    rewriter.feed(&token(TokenKind::End, "entry"), b"</entry>", None, &cache);
    rewriter.feed(&token(TokenKind::End, "item"), b"</item>", None, &cache);
    rewriter.feed(&token(TokenKind::Text, ""), b"", None, &cache);
    rewriter.feed(&token(TokenKind::Eof, ""), b"\n", None, &cache);
    assert_eq!(
        String::from_utf8(rewriter.finish()).unwrap(),
        "<link >home</link><item><link>u</link\n><ns0:encoded>C</ns0:encoded></item >\n"
    );
}

#[test]
fn rewriter_drops_what_it_holds_at_the_end_of_input() {
    let cache = ArticleCache::new();
    let mut rewriter = Rewriter::new();
    rewriter.feed(&token(TokenKind::Text, "a"), b"a", None, &cache);
    rewriter.feed(&token(TokenKind::Start, "item"), b"<item>", None, &cache);
    rewriter.feed(&token(TokenKind::Text, "b"), b"b", None, &cache);
    rewriter.feed(&token(TokenKind::Eof, ""), b"", None, &cache);
    assert_eq!(rewriter.finish(), b"a");
    assert_eq!(add_content_to_item("a<item>b", &cache).unwrap(), "a");
}

#[test]
fn what_is_kept_comes_back_byte_for_byte() {
    let content = "\u{feff}<?xml version='1.0'  ?>\n<!DOCTYPE   rss   >\n<rss  version = \"2.0\" >\n <item ><title>A &amp; b</title ><link >u</link\t></item\n>\n <item><link>gone</link></item>\n <x a='1'   b=\"2\"  />\n</rss >\n";
    let expect = "\u{feff}<?xml version='1.0'  ?>\n<!DOCTYPE   rss   >\n<rss  version = \"2.0\" >\n <item ><title>A &amp; b</title ><link >u</link\t><ns0:encoded>C</ns0:encoded></item\n>\n \n <x a='1'   b=\"2\"  />\n</rss >\n";
    let mut cache = ArticleCache::new();
    cache.insert("u".to_string(), "C".to_string());
    assert_eq!(add_content_to_item(content, &cache).unwrap(), expect);
}
