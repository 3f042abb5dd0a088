use umbra_relay::sync::{due_sources, enabled_sources, poll_interval_secs, refreshable_secrets, should_sync};
use umbra_relay::TtlKind;
use umbra_relay::Database;

#[test]
fn intervals_by_kind() {
    assert_eq!(poll_interval_secs("rss", Some("5m")), 300);
    assert_eq!(poll_interval_secs("atom", None), 600);
    assert_eq!(poll_interval_secs("rss", Some("bad")), 600);
    assert_eq!(poll_interval_secs("github", Some("1s")), 300);
    assert_eq!(poll_interval_secs("github_notifications", None), 600);
}

#[test]
fn due_when_never_synced_or_interval_passed() {
    assert!(should_sync(None, 0, 600));
    assert!(should_sync(Some(100), 700, 600));
    assert!(!should_sync(Some(100), 699, 600));
}

#[test]
fn due_sources_skip_disabled_and_recent() {
    let mut db = Database::new();
    let a = db
        .create_source("rss".into(), "a".into(), "{\"url\":\"u\",\"poll_interval\":\"1m\"}".into(), vec![], None, 0)
        .unwrap();
    let b = db.create_source("rss".into(), "b".into(), "{\"url\":\"u\"}".into(), vec![], None, 0).unwrap();
    let c = db.create_source("rss".into(), "c".into(), "{}".into(), vec![], None, 0).unwrap();
    db.update_source_sync_time(a, 1000).unwrap();
    db.update_source_sync_time(b, 1000).unwrap();
    db.update_source(c, None, None, Some(false), None, 0).unwrap();
    assert_eq!(due_sources(&db, 1030), Vec::<i64>::new());
    assert_eq!(due_sources(&db, 1060), vec![a]);
    assert_eq!(due_sources(&db, 1600), vec![a, b]);
}

#[test]
fn startup_selections() {
    let mut db = Database::new();
    let a = db.create_source("rss".into(), "a".into(), "{}".into(), vec![], None, 0).unwrap();
    let b = db.create_source("rss".into(), "b".into(), "{}".into(), vec![], None, 0).unwrap();
    db.update_source(a, None, None, Some(false), None, 0).unwrap();
    assert_eq!(enabled_sources(&db), vec![b]);
    let s1 = db.create_secret("one".into(), TtlKind::Forever, None, 0).unwrap();
    let s2 = db.create_secret("two".into(), TtlKind::Forever, None, 0).unwrap();
    db.set_refresh_marker(s2, true, 1).unwrap();
    assert_eq!(refreshable_secrets(&db), vec![s2]);
    assert_ne!(s1, s2);
}
