use umbra_relay::normalize::normalize_and_dedupe;
use umbra_relay::{Database, EventKind, IngestedItem, ItemFields, ItemFilter, StoreError, TtlKind};

fn entry(guid: &str, title: &str, occurred_at: Option<i64>) -> IngestedItem {
    IngestedItem {
        external_id: guid.to_string(),
        title: title.to_string(),
        summary: None,
        url: format!("https://example.com/{}", guid),
        item_type: "rss".to_string(),
        occurred_at,
        image_url: None,
        content_html: None,
        author: None,
        category: None,
        comments: None,
        thread_id: None,
    }
}

fn fields(title: &str) -> ItemFields {
    ItemFields {
        title: title.to_string(),
        summary: None,
        url: "https://example.com".to_string(),
        item_type: "rss".to_string(),
        image_url: None,
        content_html: None,
        author: None,
        category: None,
        comments: None,
        thread_id: None,
    }
}

fn unread() -> ItemFilter {
    ItemFilter { state: Some("unread".to_string()), group: None, source_ids: None, group_names: None }
}

fn all() -> ItemFilter {
    ItemFilter { state: None, group: None, source_ids: None, group_names: None }
}

fn feed(db: &mut Database, now: i64) -> i64 {
    db.create_source(
        "rss".to_string(),
        "Feed".to_string(),
        "{\"url\":\"https://example.com/feed\"}".to_string(),
        vec![],
        None,
        now,
    )
    .unwrap()
}

#[test]
fn test_database_creation() {
    let db = Database::new();
    assert!(db.get_all_sources().is_empty());
    assert!(db.get_items(&all()).is_empty());
    assert!(db.get_events().is_empty());
}

#[test]
fn rss_upsert_keeps_id_and_updates_title() {
    let mut db = Database::new();
    let s = feed(&mut db, 100);
    normalize_and_dedupe(&mut db, s, vec![entry("A", "T1", None)], 1000).unwrap();
    let first = db.get_items(&unread());
    assert_eq!(first.len(), 1);
    assert_eq!(first[0].title, "T1");
    let n = first[0].id;
    normalize_and_dedupe(&mut db, s, vec![entry("A", "T2", None)], 2000).unwrap();
    let second = db.get_items(&unread());
    assert_eq!(second.len(), 1);
    assert_eq!(second[0].id, n);
    assert_eq!(second[0].title, "T2");
}

#[test]
fn natural_key_gives_one_id() {
    let mut db = Database::new();
    let s = feed(&mut db, 1);
    let a = db.upsert_item(s, "k".to_string(), fields("one"), 10).unwrap();
    let b = db.upsert_item(s, "k".to_string(), fields("two"), 20).unwrap();
    assert_eq!(a, b);
    let other = db.upsert_item(s, "k2".to_string(), fields("three"), 30).unwrap();
    assert_ne!(a, other);
    let items = db.get_items(&all());
    assert_eq!(items.len(), 2);
    let it = db.get_item(a).unwrap();
    assert_eq!(it.title, "two");
    assert_eq!(it.created_at, 10);
    assert_eq!(it.updated_at, 20);
}

#[test]
fn repeated_sync_keeps_items_and_ids() {
    let mut db = Database::new();
    let s = feed(&mut db, 1);
    let batch = vec![entry("a", "A", Some(5)), entry("b", "B", None), entry("c", "C", Some(7))];
    let ids1 = normalize_and_dedupe(&mut db, s, batch.clone(), 100).unwrap();
    let before = db.get_items(&all());
    let ids2 = normalize_and_dedupe(&mut db, s, batch, 200).unwrap();
    let after = db.get_items(&all());
    assert_eq!(ids1, ids2);
    assert_eq!(before.len(), after.len());
    for (x, y) in before.iter().zip(after.iter()) {
        assert_eq!(x.id, y.id);
        assert_eq!(x.title, y.title);
        assert_eq!(x.created_at, y.created_at);
        assert_eq!(x.updated_at, 100);
        assert_eq!(y.updated_at, 200);
    }
}

#[test]
fn one_event_per_dated_entry() {
    let mut db = Database::new();
    let s = feed(&mut db, 1);
    let batch = vec![entry("a", "A", Some(5)), entry("b", "B", None), entry("c", "C", Some(7))];
    let ids = normalize_and_dedupe(&mut db, s, batch, 100).unwrap();
    let events = db.get_events();
    assert_eq!(events.len(), 2);
    assert_eq!(events[0].item_id, ids[0]);
    assert_eq!(events[0].occurred_at, Some(5));
    assert_eq!(events[0].kind, EventKind::Ingested);
    assert_eq!(events[1].item_id, ids[2]);
    assert_eq!(events[1].occurred_at, Some(7));
    assert_eq!(events[1].recorded_at, 100);
}

#[test]
fn category_is_stored_as_json() {
    let mut db = Database::new();
    let s = feed(&mut db, 1);
    let mut e = entry("a", "A", None);
    e.category = Some(vec!["owner/repo".to_string(), "x\"y".to_string()]);
    let ids = normalize_and_dedupe(&mut db, s, vec![e], 100).unwrap();
    let it = db.get_item(ids[0]).unwrap();
    assert_eq!(it.category.as_deref(), Some("[\"owner/repo\",\"x\\\"y\"]"));
}

#[test]
fn listing_is_newest_first_and_filtered() {
    let mut db = Database::new();
    let s1 = db
        .create_source("rss".into(), "One".into(), "{}".into(), vec!["news".into()], None, 1)
        .unwrap();
    let s2 = db
        .create_source("rss".into(), "Two".into(), "{}".into(), vec!["tech".into(), "misc".into()], None, 1)
        .unwrap();
    let a = db.upsert_item(s1, "a".into(), fields("a"), 30).unwrap();
    let b = db.upsert_item(s2, "b".into(), fields("b"), 10).unwrap();
    let c = db.upsert_item(s2, "c".into(), fields("c"), 20).unwrap();
    let ids: Vec<i64> = db.get_items(&all()).iter().map(|i| i.id).collect();
    assert_eq!(ids, vec![a, c, b]);
    let tech = ItemFilter { state: None, group: Some("tech".into()), source_ids: None, group_names: None };
    let ids: Vec<i64> = db.get_items(&tech).iter().map(|i| i.id).collect();
    assert_eq!(ids, vec![c, b]);
    let view = ItemFilter {
        state: None,
        group: None,
        source_ids: Some(vec![s1]),
        group_names: Some(vec!["misc".into()]),
    };
    assert_eq!(db.get_items(&view).len(), 3);
    let only = ItemFilter { state: None, group: None, source_ids: Some(vec![s1]), group_names: None };
    let ids: Vec<i64> = db.get_items(&only).iter().map(|i| i.id).collect();
    assert_eq!(ids, vec![a]);
    db.update_item_state(b, "read".into(), 40).unwrap();
    let ids: Vec<i64> = db.get_items(&unread()).iter().map(|i| i.id).collect();
    assert_eq!(ids, vec![a, c]);
}

#[test]
fn retention_spares_archived_items() {
    let mut db = Database::new();
    let s = feed(&mut db, 1);
    let old_archived = db.upsert_item(s, "old-archived".into(), fields("x"), 0).unwrap();
    let old_unread = db.upsert_item(s, "old-unread".into(), fields("y"), 0).unwrap();
    let recent = db.upsert_item(s, "recent".into(), fields("z"), 10 * 86400).unwrap();
    db.update_item_state(old_archived, "archived".into(), 5).unwrap();
    let removed = db.cleanup_old_items(7, 10 * 86400);
    assert_eq!(removed, 1);
    assert!(db.get_item(old_archived).is_ok());
    assert_eq!(db.get_item(old_unread).err(), Some(StoreError::NotFound));
    assert!(db.get_item(recent).is_ok());
}

#[test]
fn deleting_a_source_cascades() {
    let mut db = Database::new();
    let s1 = feed(&mut db, 1);
    let s2 = feed(&mut db, 2);
    let ids = normalize_and_dedupe(&mut db, s1, vec![entry("a", "A", Some(1))], 10).unwrap();
    let keep = normalize_and_dedupe(&mut db, s2, vec![entry("a", "A", Some(1))], 10).unwrap();
    assert_ne!(ids[0], keep[0]);
    db.delete_source(s1).unwrap();
    assert_eq!(db.get_all_sources().len(), 1);
    assert!(db.get_item(ids[0]).is_err());
    assert!(db.get_item(keep[0]).is_ok());
    let events = db.get_events();
    assert_eq!(events.len(), 1);
    assert_eq!(events[0].item_id, keep[0]);
    assert_eq!(db.delete_source(s1), Err(StoreError::NotFound));
}

#[test]
fn sources_update_and_sync_time() {
    let mut db = Database::new();
    let s = feed(&mut db, 1);
    db.update_source(s, Some("Renamed".into()), None, Some(false), None, 5).unwrap();
    let src = db.get_source(s).unwrap();
    assert_eq!(src.name, "Renamed");
    assert!(!src.enabled);
    assert_eq!(src.updated_at, 5);
    db.update_source_sync_time(s, 77).unwrap();
    assert_eq!(db.get_source(s).unwrap().last_synced_at, Some(77));
    assert_eq!(db.update_source_sync_time(99, 1), Err(StoreError::NotFound));
}

#[test]
fn forever_secrets_never_expire() {
    let mut db = Database::new();
    let id = db.create_secret("pat".into(), TtlKind::Forever, None, 1000).unwrap();
    assert_eq!(db.get_secret(id).unwrap().expires_at, None);
    let rel = db.create_secret("rel".into(), TtlKind::Relative, Some("2d".into()), 1000).unwrap();
    assert_eq!(db.get_secret(rel).unwrap().expires_at, Some(1000 + 172800));
    let abs = db
        .create_secret("abs".into(), TtlKind::Absolute, Some("2024-01-01T00:00:00Z".into()), 1000)
        .unwrap();
    assert_eq!(db.get_secret(abs).unwrap().expires_at, Some(1704067200));
    assert_eq!(
        db.create_secret("pat".into(), TtlKind::Forever, None, 1).err(),
        Some(StoreError::NameTaken)
    );
    assert_eq!(
        db.create_secret("bad".into(), TtlKind::Relative, Some("2q".into()), 1).err(),
        Some(StoreError::InvalidTtl)
    );
    assert_eq!(
        db.create_secret("bad2".into(), TtlKind::Absolute, Some("yesterday".into()), 1).err(),
        Some(StoreError::InvalidTtl)
    );
}

#[test]
fn exhausted_secrets_expire_and_disable_sources() {
    let mut db = Database::new();
    let sec = db.create_secret("gh".into(), TtlKind::Forever, None, 1).unwrap();
    let other = db.create_secret("gh2".into(), TtlKind::Forever, None, 1).unwrap();
    let s1 = db.create_source("github".into(), "a".into(), "{}".into(), vec![], Some(sec), 1).unwrap();
    let s2 = db.create_source("github".into(), "b".into(), "{}".into(), vec![], Some(other), 1).unwrap();
    for _ in 0..3 {
        db.increment_refresh_failure_count(sec, 2).unwrap();
    }
    assert_eq!(db.increment_refresh_failure_count(sec, 2), Ok(3));
    db.expire_exhausted_secrets(50);
    let s = db.get_secret(sec).unwrap();
    assert_eq!(s.expires_at, Some(50));
    assert!(!db.get_source(s1).unwrap().enabled);
    assert!(db.get_source(s2).unwrap().enabled);
    assert_eq!(db.get_secret(other).unwrap().expires_at, None);
    assert_eq!(db.get_expired_secrets(50), vec![sec]);
    assert!(db.get_expired_secrets(49).is_empty());
}

#[test]
fn repeated_sync_with_a_repeated_entry() {
    let mut db = Database::new();
    let s = feed(&mut db, 1);
    let batch = vec![entry("a", "first", None), entry("a", "second", Some(3))];
    let ids1 = normalize_and_dedupe(&mut db, s, batch.clone(), 100).unwrap();
    assert_eq!(ids1[0], ids1[1]);
    let ids2 = normalize_and_dedupe(&mut db, s, batch, 200).unwrap();
    assert_eq!(ids1, ids2);
    let items = db.get_items(&all());
    assert_eq!(items.len(), 1);
    assert_eq!(items[0].title, "second");
    assert_eq!(items[0].created_at, 100);
    assert_eq!(items[0].updated_at, 200);
}

#[test]
fn updating_nothing_leaves_a_source_alone() {
    let mut db = Database::new();
    let s = feed(&mut db, 1);
    db.update_source(s, None, None, None, None, 50).unwrap();
    assert_eq!(db.get_source(s).unwrap().updated_at, 1);
    db.update_source(s, None, None, Some(true), None, 60).unwrap();
    assert_eq!(db.get_source(s).unwrap().updated_at, 60);
}
