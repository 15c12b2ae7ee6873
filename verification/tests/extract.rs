use furss::extract::{extract_content, find_article, ExtractError};

#[test]
fn test_extract_content_without_script_tags() {
    let content = r"<html><head><title>Test</title></head><body><article><h1>Article Title</h1><p>Article content goes here.</p></article></body></html>";

    assert_eq!(
        extract_content(content).unwrap(),
        "<article><h1>Article Title</h1><p>Article content goes here.</p></article>"
    );
}

#[test]
fn test_extract_content_with_script_tags() {
    let content = r#"<html><head><title>Test</title></head><body><script>console.log("This is a script")<script><article><h1>Article Title</h1><p>Article content goes here.</p></article></body></html>"#;

    assert_eq!(
        extract_content(content).unwrap(),
        "<article><h1>Article Title</h1><p>Article content goes here.</p></article>"
    );
}

#[test]
fn test_extract_content_no_article_tag() {
    let content = r"<html><head><title>Test</title></head><body><div><h1>Another Title</h1><p>Some content</p></div></body><html>";

    let result = extract_content(content);
    assert!(result.is_err());
    assert_eq!(result.unwrap_err().message(), "No article tag found");
}

#[test]
fn extractor_passes_over_a_script_before_the_article() {
    let content = "<body><script>...</script><article><h1>T</h1></article></body>";
    assert_eq!(extract_content(content).unwrap(), "<article><h1>T</h1></article>");
}

#[test]
fn extractor_takes_the_first_of_two_articles() {
    let content = "<body><div><article id=\"a\">one</article></div><article>two</article></body>";
    assert_eq!(extract_content(content).unwrap(), "<article id=\"a\">one</article>");
}

#[test]
fn extractor_reports_a_page_without_article() {
    assert_eq!(extract_content(""), Err(ExtractError::NoArticle));
    assert_eq!(extract_content("plain text"), Err(ExtractError::NoArticle));
    assert_eq!(
        extract_content("<body><articles>x</articles></body>"),
        Err(ExtractError::NoArticle)
    );
}

#[test]
fn extractor_keeps_non_ascii_text() {
    let content = "<article>caf\u{e9} \u{1f600}</article>";
    assert_eq!(extract_content(content).unwrap(), content);
}

#[test]
fn find_article_gives_the_first_place() {
    let names = vec![
        Some(b"html".to_vec()),
        None,
        Some(b"script".to_vec()),
        Some(b"article".to_vec()),
        Some(b"article".to_vec()),
    ];
    assert_eq!(find_article(&names), Some(3));
    assert_eq!(find_article(&names[..3].to_vec()), None);
    assert_eq!(find_article(&Vec::new()), None);
}

#[test]
fn extract_errors_have_messages() {
    assert_eq!(ExtractError::TooLong.message(), "The page is too long to be parsed");
    assert_eq!(ExtractError::NoArticle.message(), "No article tag found");
    assert_eq!(ExtractError::InvalidText.message(), "The article is not valid UTF-8");
}
