use umbra_relay::{
    classify_content, detect_content_completeness, ContentCompleteness, IngestedItem,
};

fn item(summary: Option<&str>, content_html: Option<String>, url: &str) -> IngestedItem {
    IngestedItem {
        external_id: "test".to_string(),
        title: "Test".to_string(),
        summary: summary.map(|s| s.to_string()),
        url: url.to_string(),
        item_type: "rss".to_string(),
        occurred_at: None,
        image_url: None,
        content_html,
        author: None,
        category: None,
        comments: None,
        thread_id: None,
    }
}

#[test]
fn test_detect_full_content() {
    let item = IngestedItem {
        external_id: "test".to_string(),
        title: "Test".to_string(),
        summary: Some("Short summary".to_string()),
        url: "http://example.com".to_string(),
        item_type: "rss".to_string(),
        occurred_at: None,
        image_url: None,
        content_html: Some("<p>This is a long article with substantial content. ".repeat(20)),
        author: None,
        category: None,
        comments: None,
        thread_id: None,
    };

    let result = detect_content_completeness(&item);
    assert_eq!(result.completeness, ContentCompleteness::Full);
    assert_eq!(result.confidence, "high");
}

#[test]
fn test_detect_partial_content() {
    let item = IngestedItem {
        external_id: "test".to_string(),
        title: "Test".to_string(),
        summary: Some(
            "This is a longer summary that provides some context about the article.".to_string(),
        ),
        url: "http://example.com".to_string(),
        item_type: "rss".to_string(),
        occurred_at: None,
        image_url: None,
        content_html: Some("Read more...".to_string()),
        author: None,
        category: None,
        comments: None,
        thread_id: None,
    };

    let result = detect_content_completeness(&item);
    assert_eq!(result.completeness, ContentCompleteness::Partial);
}

#[test]
fn test_detect_no_content() {
    let item = IngestedItem {
        external_id: "test".to_string(),
        title: "Test".to_string(),
        summary: Some("Summary only".to_string()),
        url: "http://example.com".to_string(),
        item_type: "rss".to_string(),
        occurred_at: None,
        image_url: None,
        content_html: None,
        author: None,
        category: None,
        comments: None,
        thread_id: None,
    };

    let result = detect_content_completeness(&item);
    assert_eq!(result.completeness, ContentCompleteness::Partial);
}

#[test]
fn classifier_short_teaser_with_url_is_partial() {
    let it = item(Some("Short summary"), Some("Read more...".to_string()), "http://x");
    let r = detect_content_completeness(&it);
    assert_eq!(r.completeness, ContentCompleteness::Partial);
    assert_eq!(r.confidence, "high");
}

#[test]
fn classifier_twenty_paragraphs_are_full_high() {
    let html = "<p>This paragraph carries a part of the article text.</p>".repeat(20);
    let it = item(Some("x"), Some(html), "");
    let r = detect_content_completeness(&it);
    assert_eq!(r.completeness, ContentCompleteness::Full);
    assert_eq!(r.confidence, "high");
}

#[test]
fn classifier_is_stable_across_calls() {
    let it = item(Some("A summary"), Some("<div>".repeat(50)), "http://example.com/a");
    let a = detect_content_completeness(&it);
    let b = detect_content_completeness(&it);
    assert_eq!(a.completeness, b.completeness);
    assert_eq!(a.confidence, b.confidence);
}

#[test]
fn classifier_cdata_content_is_partial_high() {
    let it = item(None, Some("<![CDATA[<a href=\"x\">Comments</a>]]>".to_string()), "http://x");
    let r = detect_content_completeness(&it);
    assert_eq!(r.completeness, ContentCompleteness::Partial);
    assert_eq!(r.confidence, "high");
}

#[test]
fn classifier_mostly_links_is_partial_high() {
    let links = "<a href=\"https://example.com/article\">the full article is here</a>".repeat(4);
    let content = format!("{} more", links);
    let it = item(Some("s"), Some(content), "http://x");
    let r = detect_content_completeness(&it);
    assert_eq!(r.completeness, ContentCompleteness::Partial);
    assert_eq!(r.confidence, "high");
}

#[test]
fn classifier_long_plain_text_without_tags_is_full_medium() {
    let it = item(Some("short"), Some("word ".repeat(80)), "http://x");
    let r = detect_content_completeness(&it);
    assert_eq!(r.completeness, ContentCompleteness::Full);
    assert_eq!(r.confidence, "medium");
}

#[test]
fn classifier_markup_without_summary_is_full_medium() {
    let it = item(None, Some("<b>bold</b> text ".repeat(20)), "http://x");
    let r = detect_content_completeness(&it);
    assert_eq!(r.completeness, ContentCompleteness::Full);
    assert_eq!(r.confidence, "medium");
    let plain = item(None, Some(format!("<b>x</b>{}", "y".repeat(320))), "http://x");
    let r = detect_content_completeness(&plain);
    assert_eq!(r.completeness, ContentCompleteness::Full);
    assert_eq!(r.confidence, "medium");
}

#[test]
fn classifier_nothing_is_unknown_low() {
    let it = item(None, None, "");
    let r = detect_content_completeness(&it);
    assert_eq!(r.completeness, ContentCompleteness::Unknown);
    assert_eq!(r.confidence, "low");
    assert_eq!(r.completeness.as_str(), "unknown");
}

#[test]
fn classifier_short_content_without_url_is_partial_low() {
    let it = item(None, Some("x".repeat(120)), "");
    let r = detect_content_completeness(&it);
    assert_eq!(r.completeness, ContentCompleteness::Partial);
    assert_eq!(r.confidence, "low");
}

#[test]
fn classify_content_uses_the_counts_given() {
    let c = "x".repeat(600) + "<>";
    let r = classify_content(&c, "", "", 6, 0);
    assert_eq!(r.completeness, ContentCompleteness::Full);
    assert_eq!(r.confidence, "high");
    let r = classify_content(&c, "", "", 5, 0);
    assert_eq!(r.confidence, "medium");
}
