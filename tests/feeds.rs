use umbra_relay::extract::{finish_extraction, should_extract, ExtractionError, ExtractionUpdate};
use umbra_relay::feeds::{
    atom_entry_to_item, endpoint_page_step, feed_fetch_error, issue_to_item, notification_page_step,
    notification_to_item, repos_page_step, rss_entry_to_item, AtomEntry, AtomLink, FeedFetchError,
    IssueFields, NotificationFields, PageStep, RssEntry,
};
use umbra_relay::{strip_html, ContentCompleteness, Database, ItemFields};

#[test]
fn strip_html_cleans_summaries() {
    assert_eq!(strip_html("<p>Hello &amp; <b>world</b></p>\n<a href=\"x\">Comments</a>"), "Hello & world");
    assert_eq!(strip_html("  line one \r\n\nRead More\nline &lt;two&gt;"), "line one  line <two>");
    assert_eq!(strip_html("<a>Comments</a>"), "");
    assert_eq!(strip_html(""), "");
    assert_eq!(strip_html("It&#39;s&nbsp;fine"), "It's fine");
}

fn link(rel: &str, href: &str, mime: Option<&str>) -> AtomLink {
    AtomLink { rel: rel.into(), href: href.into(), mime_type: mime.map(|m| m.into()) }
}

#[test]
fn atom_entries_become_items() {
    let e = AtomEntry {
        id: "tag:example.com,2024:1".into(),
        title: "".into(),
        updated: 1700000000,
        summary: Some("<p>Sum</p>".into()),
        content_value: Some("".into()),
        content_src: None,
        links: vec![
            link("enclosure", "https://img/x.png", Some("image/png")),
            link("alternate", "https://example.com/post", None),
            link("replies", "https://example.com/post#c", None),
        ],
        authors: vec!["Ann".into(), "Bo".into()],
        categories: vec![],
    };
    let it = atom_entry_to_item(&e);
    assert_eq!(it.title, "Untitled");
    assert_eq!(it.url, "https://example.com/post");
    assert_eq!(it.image_url.as_deref(), Some("https://img/x.png"));
    assert_eq!(it.comments.as_deref(), Some("https://example.com/post#c"));
    assert_eq!(it.summary.as_deref(), Some("Sum"));
    assert_eq!(it.content_html.as_deref(), Some("<p>Sum</p>"));
    assert_eq!(it.author.as_deref(), Some("Ann"));
    assert_eq!(it.occurred_at, Some(1700000000));
    assert_eq!(it.item_type, "atom");
    assert!(it.category.is_none());

    let bare = AtomEntry {
        id: "https://example.com/id".into(),
        title: "T".into(),
        updated: 1,
        summary: None,
        content_value: None,
        content_src: Some("https://example.com/src".into()),
        links: vec![],
        authors: vec![],
        categories: vec!["a".into()],
    };
    let it = atom_entry_to_item(&bare);
    assert_eq!(it.url, "https://example.com/id");
    assert_eq!(it.content_html.as_deref(), Some("https://example.com/src"));
    assert_eq!(it.category, Some(vec!["a".to_string()]));
}

#[test]
fn rss_entries_become_items() {
    let e = RssEntry {
        guid: None,
        title: None,
        link: Some("https://example.com/a".into()),
        description: Some("<p>Teaser</p>".into()),
        content_encoded: None,
        pub_date: Some("Tue, 14 Nov 2023 22:13:20 +0000".into()),
        image_url: None,
        author: None,
        categories: vec![],
        comments: None,
    };
    let it = rss_entry_to_item(&e);
    assert_eq!(it.external_id, "https://example.com/a");
    assert_eq!(it.title, "Untitled");
    assert_eq!(it.summary.as_deref(), Some("Teaser"));
    assert_eq!(it.content_html.as_deref(), Some("<p>Teaser</p>"));
    assert_eq!(it.occurred_at, Some(1700000000));
}

fn notification(id: &str, url: Option<&str>) -> NotificationFields {
    NotificationFields {
        id: Some(id.into()),
        has_subject: true,
        title: Some("Fix bug".into()),
        subject_type: Some("PullRequest".into()),
        subject_url: url.map(|u| u.into()),
        reason: None,
        repo_full_name: Some("o/r".into()),
        updated_at: Some("2023-11-14T22:13:20Z".into()),
    }
}

#[test]
fn notifications_become_items() {
    let it = notification_to_item(&notification("42", Some("https://api.github.com/repos/o/r/pulls/1"))).unwrap();
    assert_eq!(it.external_id, "notification_42");
    assert_eq!(it.url, "https://github.com/o/r/pulls/1");
    assert_eq!(it.thread_id.as_deref(), Some("42"));
    assert_eq!(it.summary.as_deref(), Some("PullRequest - unknown"));
    assert_eq!(it.category, Some(vec!["o/r".to_string()]));
    assert_eq!(it.occurred_at, Some(1700000000));
    let web = notification_to_item(&notification("7", Some("https://github.com/o/r"))).unwrap();
    assert_eq!(web.url, "https://github.com/o/r");
    let other = notification_to_item(&notification("8", None)).unwrap();
    assert_eq!(other.url, "https://github.com/notifications/threads/8");
    assert!(notification_to_item(&notification("", None)).is_none());
    let mut no_subject = notification("9", None);
    no_subject.has_subject = false;
    assert!(notification_to_item(&no_subject).is_none());
}

#[test]
fn issues_become_items() {
    let long = "b".repeat(600);
    let i = IssueFields {
        number: 17,
        title: "Bug".into(),
        body: Some(long),
        html_url: "https://github.com/o/r/issues/17".into(),
        is_pull_request: false,
        updated_at: "2023-11-14T22:13:20Z".into(),
    };
    let it = issue_to_item("o", "r", &i);
    assert_eq!(it.external_id, "o/r#17");
    assert_eq!(it.item_type, "issue");
    assert_eq!(it.summary.as_deref().map(|s| s.len()), Some(503));
    assert!(it.summary.as_deref().unwrap().ends_with("..."));
    assert_eq!(it.category, Some(vec!["o/r".to_string()]));
    assert_eq!(it.occurred_at, Some(1700000000));
}

#[test]
fn page_steps() {
    assert_eq!(notification_page_step(304, 0), PageStep::Stop);
    assert_eq!(notification_page_step(200, 100), PageStep::TakeAndContinue);
    assert_eq!(notification_page_step(200, 3), PageStep::TakeAndStop);
    assert_eq!(notification_page_step(401, 0), PageStep::Unauthorized);
    assert_eq!(endpoint_page_step("discussions", 404, 0), PageStep::Skip);
    assert_eq!(endpoint_page_step("issues", 404, 0), PageStep::Failed(404));
    assert_eq!(endpoint_page_step("packages", 410, 0), PageStep::Skip);
    assert_eq!(endpoint_page_step("issues", 403, 0), PageStep::Forbidden);
    assert_eq!(repos_page_step(200, 0), PageStep::Stop);
    assert_eq!(repos_page_step(200, 100), PageStep::TakeAndContinue);
}

#[test]
fn feed_fetch_errors() {
    assert_eq!(feed_fetch_error(200), None);
    assert_eq!(feed_fetch_error(504), Some(FeedFetchError::GatewayTimeout));
    assert_eq!(
        FeedFetchError::NotFound.message("https://x/feed"),
        "Feed not found (404) at https://x/feed"
    );
    assert_eq!(FeedFetchError::Http(500).message("u"), "HTTP error 500 fetching u");
}

#[test]
fn extraction_sanitises_and_records() {
    let r = finish_extraction(Some(("<p>ok</p><script>bad()</script>".to_string(), Some("T".to_string()))))
        .unwrap();
    assert_eq!(r.content, "<p>ok</p>");
    assert_eq!(r.title.as_deref(), Some("T"));
    assert_eq!(finish_extraction(None).err(), Some(ExtractionError::NoReadableContent));
    assert!(should_extract(None, None));
    assert!(!should_extract(Some("false"), Some("auto")));
    assert!(!should_extract(None, Some("never")));
    assert!(should_extract(Some("true"), Some("always_fetch")));

    let mut db = Database::new();
    let s = db.create_source("rss".into(), "f".into(), "{}".into(), vec![], None, 1).unwrap();
    let f = ItemFields {
        title: "t".into(),
        summary: None,
        url: "https://example.com/a".into(),
        item_type: "rss".into(),
        image_url: None,
        content_html: None,
        author: None,
        category: None,
        comments: None,
        thread_id: None,
    };
    let id = db.upsert_item(s, "a".into(), f, 5).unwrap();
    assert!(db.extraction_candidates(&vec![id]).is_empty());
    db.update_extraction(id, ExtractionUpdate::Classified(ContentCompleteness::Partial), 6).unwrap();
    assert_eq!(db.extraction_candidates(&vec![id, 999]), vec![id]);
    db.update_extraction(id, ExtractionUpdate::Fetching, 7).unwrap();
    assert!(db.extraction_candidates(&vec![id]).is_empty());
    db.update_extraction(id, ExtractionUpdate::Extracted("<p>x</p>".into()), 8).unwrap();
    let it = db.get_item(id).unwrap();
    assert_eq!(it.content_status.as_deref(), Some("extracted"));
    assert_eq!(it.extracted_content_html.as_deref(), Some("<p>x</p>"));
    assert_eq!(it.content_completeness.as_deref(), Some("partial"));
}
