use vstd::prelude::*;

use crate::model::{copy_opt, copy_opt_i64, copy_texts, opt_view};

verus! {

/// Why a store operation failed.
#[derive(Debug, Clone, Copy, PartialEq, Eq, Structural)]
pub enum StoreError {
    /// No row has the given id.
    NotFound,
    /// The id counter of a table has reached its largest value.
    IdsExhausted,
    /// Another secret has that name.
    NameTaken,
    /// Stored rows break the store's invariant.
    InvalidData,
    /// The secret's lifetime is missing or unreadable, or ends past the
    /// largest time.
    InvalidTtl,
}

/// A subscribed origin.
#[derive(Debug, Clone)]
pub struct Source {
    pub id: i64,
    pub source_type: String,
    pub name: String,
    pub config_json: String,
    pub enabled: bool,
    pub last_synced_at: Option<i64>,
    pub secret_id: Option<i64>,
    pub groups: Vec<String>,
    pub created_at: i64,
    pub updated_at: i64,
}

pub struct SourceView {
    pub id: i64,
    pub source_type: Seq<char>,
    pub name: Seq<char>,
    pub config_json: Seq<char>,
    pub enabled: bool,
    pub last_synced_at: Option<i64>,
    pub secret_id: Option<i64>,
    pub groups: Seq<Seq<char>>,
    pub created_at: i64,
    pub updated_at: i64,
}

impl View for Source {
    type V = SourceView;

    open spec fn view(&self) -> SourceView {
        SourceView {
            id: self.id,
            source_type: self.source_type@,
            name: self.name@,
            config_json: self.config_json@,
            enabled: self.enabled,
            last_synced_at: self.last_synced_at,
            secret_id: self.secret_id,
            groups: self.groups.deep_view(),
            created_at: self.created_at,
            updated_at: self.updated_at,
        }
    }
}

impl Source {
    pub fn copy(&self) -> (r: Source)
        ensures
            r@ == self@,
    {
        let groups = copy_texts(&self.groups);
        assert(groups.deep_view() =~= self.groups.deep_view());
        Source {
            id: self.id,
            source_type: self.source_type.clone(),
            name: self.name.clone(),
            config_json: self.config_json.clone(),
            enabled: self.enabled,
            last_synced_at: copy_opt_i64(&self.last_synced_at),
            secret_id: copy_opt_i64(&self.secret_id),
            groups,
            created_at: self.created_at,
            updated_at: self.updated_at,
        }
    }
}

/// A stored item.
#[derive(Debug, Clone)]
pub struct Item {
    pub id: i64,
    pub source_id: i64,
    pub external_id: String,
    pub title: String,
    pub summary: Option<String>,
    pub url: String,
    pub item_type: String,
    pub state: String,
    pub created_at: i64,
    pub updated_at: i64,
    pub image_url: Option<String>,
    pub content_html: Option<String>,
    pub author: Option<String>,
    pub category: Option<String>,
    pub comments: Option<String>,
    pub thread_id: Option<String>,
    pub content_status: Option<String>,
    pub extracted_content_html: Option<String>,
    pub content_completeness: Option<String>,
    pub extraction_failed_reason: Option<String>,
}

pub struct ItemView {
    pub id: i64,
    pub source_id: i64,
    pub external_id: Seq<char>,
    pub title: Seq<char>,
    pub summary: Option<Seq<char>>,
    pub url: Seq<char>,
    pub item_type: Seq<char>,
    pub state: Seq<char>,
    pub created_at: i64,
    pub updated_at: i64,
    pub image_url: Option<Seq<char>>,
    pub content_html: Option<Seq<char>>,
    pub author: Option<Seq<char>>,
    pub category: Option<Seq<char>>,
    pub comments: Option<Seq<char>>,
    pub thread_id: Option<Seq<char>>,
    pub content_status: Option<Seq<char>>,
    pub extracted_content_html: Option<Seq<char>>,
    pub content_completeness: Option<Seq<char>>,
    pub extraction_failed_reason: Option<Seq<char>>,
}

impl View for Item {
    type V = ItemView;

    open spec fn view(&self) -> ItemView {
        ItemView {
            id: self.id,
            source_id: self.source_id,
            external_id: self.external_id@,
            title: self.title@,
            summary: opt_view(self.summary),
            url: self.url@,
            item_type: self.item_type@,
            state: self.state@,
            created_at: self.created_at,
            updated_at: self.updated_at,
            image_url: opt_view(self.image_url),
            content_html: opt_view(self.content_html),
            author: opt_view(self.author),
            category: opt_view(self.category),
            comments: opt_view(self.comments),
            thread_id: opt_view(self.thread_id),
            content_status: opt_view(self.content_status),
            extracted_content_html: opt_view(self.extracted_content_html),
            content_completeness: opt_view(self.content_completeness),
            extraction_failed_reason: opt_view(self.extraction_failed_reason),
        }
    }
}

impl Item {
    pub fn copy(&self) -> (r: Item)
        ensures
            r@ == self@,
    {
        Item {
            id: self.id,
            source_id: self.source_id,
            external_id: self.external_id.clone(),
            title: self.title.clone(),
            summary: copy_opt(&self.summary),
            url: self.url.clone(),
            item_type: self.item_type.clone(),
            state: self.state.clone(),
            created_at: self.created_at,
            updated_at: self.updated_at,
            image_url: copy_opt(&self.image_url),
            content_html: copy_opt(&self.content_html),
            author: copy_opt(&self.author),
            category: copy_opt(&self.category),
            comments: copy_opt(&self.comments),
            thread_id: copy_opt(&self.thread_id),
            content_status: copy_opt(&self.content_status),
            extracted_content_html: copy_opt(&self.extracted_content_html),
            content_completeness: copy_opt(&self.content_completeness),
            extraction_failed_reason: copy_opt(&self.extraction_failed_reason),
        }
    }
}

/// The fields of an item that each sync rewrites.
#[derive(Debug, Clone)]
pub struct ItemFields {
    pub title: String,
    pub summary: Option<String>,
    pub url: String,
    pub item_type: String,
    pub image_url: Option<String>,
    pub content_html: Option<String>,
    pub author: Option<String>,
    pub category: Option<String>,
    pub comments: Option<String>,
    pub thread_id: Option<String>,
}

pub struct FieldsView {
    pub title: Seq<char>,
    pub summary: Option<Seq<char>>,
    pub url: Seq<char>,
    pub item_type: Seq<char>,
    pub image_url: Option<Seq<char>>,
    pub content_html: Option<Seq<char>>,
    pub author: Option<Seq<char>>,
    pub category: Option<Seq<char>>,
    pub comments: Option<Seq<char>>,
    pub thread_id: Option<Seq<char>>,
}

impl View for ItemFields {
    type V = FieldsView;

    open spec fn view(&self) -> FieldsView {
        FieldsView {
            title: self.title@,
            summary: opt_view(self.summary),
            url: self.url@,
            item_type: self.item_type@,
            image_url: opt_view(self.image_url),
            content_html: opt_view(self.content_html),
            author: opt_view(self.author),
            category: opt_view(self.category),
            comments: opt_view(self.comments),
            thread_id: opt_view(self.thread_id),
        }
    }
}

/// What an audit row records.
#[derive(Debug, Clone, Copy, PartialEq, Eq, Structural)]
pub enum EventKind {
    /// A sync delivered the item with a source timestamp.
    Ingested,
    /// The item's state was changed.
    StateChanged,
}

/// An append-only audit row keyed to an item.
#[derive(Debug, Clone, Copy, PartialEq, Eq, Structural)]
pub struct Event {
    pub id: i64,
    pub item_id: i64,
    pub kind: EventKind,
    /// The time the source gave, where it gave one.
    pub occurred_at: Option<i64>,
    /// The time the row was written.
    pub recorded_at: i64,
}

/// How a secret's expiry is derived.
#[derive(Debug, Clone, Copy, PartialEq, Eq, Structural)]
pub enum TtlKind {
    Forever,
    Relative,
    Absolute,
}

/// A credential descriptor; its token material lives in the vault.
#[derive(Debug, Clone)]
pub struct Secret {
    pub id: i64,
    pub name: String,
    pub ttl_kind: TtlKind,
    pub ttl_value: Option<String>,
    pub expires_at: Option<i64>,
    pub refresh_token_id: Option<i64>,
    pub refresh_failure_count: u32,
    pub created_at: i64,
    pub updated_at: i64,
}

pub struct SecretView {
    pub id: i64,
    pub name: Seq<char>,
    pub ttl_kind: TtlKind,
    pub ttl_value: Option<Seq<char>>,
    pub expires_at: Option<i64>,
    pub refresh_token_id: Option<i64>,
    pub refresh_failure_count: u32,
    pub created_at: i64,
    pub updated_at: i64,
}

impl View for Secret {
    type V = SecretView;

    open spec fn view(&self) -> SecretView {
        SecretView {
            id: self.id,
            name: self.name@,
            ttl_kind: self.ttl_kind,
            ttl_value: opt_view(self.ttl_value),
            expires_at: self.expires_at,
            refresh_token_id: self.refresh_token_id,
            refresh_failure_count: self.refresh_failure_count,
            created_at: self.created_at,
            updated_at: self.updated_at,
        }
    }
}

impl Secret {
    pub fn copy(&self) -> (r: Secret)
        ensures
            r@ == self@,
    {
        Secret {
            id: self.id,
            name: self.name.clone(),
            ttl_kind: self.ttl_kind,
            ttl_value: copy_opt(&self.ttl_value),
            expires_at: copy_opt_i64(&self.expires_at),
            refresh_token_id: copy_opt_i64(&self.refresh_token_id),
            refresh_failure_count: self.refresh_failure_count,
            created_at: self.created_at,
            updated_at: self.updated_at,
        }
    }
}

/// The contents of the store.
pub struct DbView {
    pub sources: Seq<SourceView>,
    pub items: Seq<ItemView>,
    pub events: Seq<Event>,
    pub secrets: Seq<SecretView>,
    pub next_source_id: i64,
    pub next_item_id: i64,
    pub next_event_id: i64,
    pub next_secret_id: i64,
}

/// The state a new item starts in.
pub open spec fn unread_word() -> Seq<char> {
    seq!['u', 'n', 'r', 'e', 'a', 'd']
}

/// The state that exempts an item from retention.
pub open spec fn archived_word() -> Seq<char> {
    seq!['a', 'r', 'c', 'h', 'i', 'v', 'e', 'd']
}

/// The number of failed refreshes after which a secret is expired.
pub const MAX_REFRESH_FAILURES: u32 = 3;

/// The invariant of the store: ids are positive, increase with position and
/// stay below each table's counter; `(source_id, external_id)` names at most
/// one item; a secret has no expiry exactly when it lives forever, and its
/// failure count is at most three.
pub open spec fn db_wf(db: DbView) -> bool {
    &&& db.next_source_id >= 1
    &&& db.next_item_id >= 1
    &&& db.next_event_id >= 1
    &&& db.next_secret_id >= 1
    &&& forall|k: int|
        0 <= k < db.sources.len() ==> 1 <= #[trigger] db.sources[k].id < db.next_source_id
    &&& forall|j: int, k: int|
        0 <= j < k < db.sources.len() ==> #[trigger] db.sources[j].id < #[trigger] db.sources[k].id
    &&& forall|k: int| 0 <= k < db.items.len() ==> 1 <= #[trigger] db.items[k].id < db.next_item_id
    &&& forall|j: int, k: int|
        0 <= j < k < db.items.len() ==> #[trigger] db.items[j].id < #[trigger] db.items[k].id
    &&& forall|j: int, k: int|
        0 <= j < db.items.len() && 0 <= k < db.items.len() && j != k ==> !same_key(
            #[trigger] db.items[j],
            #[trigger] db.items[k],
        )
    &&& forall|k: int|
        0 <= k < db.events.len() ==> 1 <= #[trigger] db.events[k].id < db.next_event_id
    &&& forall|j: int, k: int|
        0 <= j < k < db.events.len() ==> #[trigger] db.events[j].id < #[trigger] db.events[k].id
    &&& forall|k: int|
        0 <= k < db.secrets.len() ==> 1 <= #[trigger] db.secrets[k].id < db.next_secret_id
    &&& forall|j: int, k: int|
        0 <= j < k < db.secrets.len() ==> #[trigger] db.secrets[j].id < #[trigger] db.secrets[k].id
    &&& forall|k: int| 0 <= k < db.secrets.len() ==> secret_wf(#[trigger] db.secrets[k])
}

pub open spec fn secret_wf(s: SecretView) -> bool {
    &&& (s.ttl_kind == TtlKind::Forever <==> s.expires_at is None)
    &&& s.refresh_failure_count <= MAX_REFRESH_FAILURES
}

pub open spec fn same_key(a: ItemView, b: ItemView) -> bool {
    a.source_id == b.source_id && a.external_id == b.external_id
}

pub open spec fn has_key(it: ItemView, source_id: i64, external_id: Seq<char>) -> bool {
    it.source_id == source_id && it.external_id == external_id
}

/// The position of the item with a natural key, or -1.
pub open spec fn key_index(items: Seq<ItemView>, source_id: i64, external_id: Seq<char>) -> int
    decreases items.len(),
{
    if items.len() == 0 {
        -1
    } else if has_key(items.last(), source_id, external_id) {
        items.len() - 1
    } else {
        key_index(items.drop_last(), source_id, external_id)
    }
}

/// The position of the item with an id, or -1.
pub open spec fn item_index(items: Seq<ItemView>, id: i64) -> int
    decreases items.len(),
{
    if items.len() == 0 {
        -1
    } else if items.last().id == id {
        items.len() - 1
    } else {
        item_index(items.drop_last(), id)
    }
}

/// The position of the source with an id, or -1.
pub open spec fn source_index(sources: Seq<SourceView>, id: i64) -> int
    decreases sources.len(),
{
    if sources.len() == 0 {
        -1
    } else if sources.last().id == id {
        sources.len() - 1
    } else {
        source_index(sources.drop_last(), id)
    }
}

/// The position of the secret with an id, or -1.
pub open spec fn secret_index(secrets: Seq<SecretView>, id: i64) -> int
    decreases secrets.len(),
{
    if secrets.len() == 0 {
        -1
    } else if secrets.last().id == id {
        secrets.len() - 1
    } else {
        secret_index(secrets.drop_last(), id)
    }
}

/// An item whose sync fields are rewritten at time `now`.
pub open spec fn refreshed(it: ItemView, f: FieldsView, now: i64) -> ItemView {
    ItemView {
        title: f.title,
        summary: f.summary,
        url: f.url,
        item_type: f.item_type,
        image_url: f.image_url,
        content_html: f.content_html,
        author: f.author,
        category: f.category,
        comments: f.comments,
        thread_id: f.thread_id,
        updated_at: now,
        ..it
    }
}

/// A new unread item.
pub open spec fn fresh_item(
    id: i64,
    source_id: i64,
    external_id: Seq<char>,
    f: FieldsView,
    now: i64,
) -> ItemView {
    ItemView {
        id,
        source_id,
        external_id,
        title: f.title,
        summary: f.summary,
        url: f.url,
        item_type: f.item_type,
        state: unread_word(),
        created_at: now,
        updated_at: now,
        image_url: f.image_url,
        content_html: f.content_html,
        author: f.author,
        category: f.category,
        comments: f.comments,
        thread_id: f.thread_id,
        content_status: None,
        extracted_content_html: None,
        content_completeness: None,
        extraction_failed_reason: None,
    }
}

/// What `upsert_item` does: where an item has the natural key its sync
/// fields are rewritten and its id returned; otherwise a new unread item is
/// appended under the next id.
pub open spec fn upsert_outcome(
    db: DbView,
    source_id: i64,
    external_id: Seq<char>,
    f: FieldsView,
    now: i64,
) -> Result<(DbView, i64), StoreError> {
    let k = key_index(db.items, source_id, external_id);
    if k >= 0 {
        Ok((DbView { items: db.items.update(k, refreshed(db.items[k], f, now)), ..db }, db.items[k].id))
    } else if db.next_item_id == i64::MAX {
        Err(StoreError::IdsExhausted)
    } else {
        Ok(
            (
                DbView {
                    items: db.items.push(fresh_item(db.next_item_id, source_id, external_id, f, now)),
                    next_item_id: (db.next_item_id + 1) as i64,
                    ..db
                },
                db.next_item_id,
            ),
        )
    }
}

/// What `create_event` does.
pub open spec fn event_outcome(
    db: DbView,
    item_id: i64,
    kind: EventKind,
    occurred_at: Option<i64>,
    now: i64,
) -> Result<(DbView, i64), StoreError> {
    if db.next_event_id == i64::MAX {
        Err(StoreError::IdsExhausted)
    } else {
        Ok(
            (
                DbView {
                    events: db.events.push(
                        Event {
                            id: db.next_event_id,
                            item_id,
                            kind,
                            occurred_at,
                            recorded_at: now,
                        },
                    ),
                    next_event_id: (db.next_event_id + 1) as i64,
                    ..db
                },
                db.next_event_id,
            ),
        )
    }
}

pub proof fn lemma_key_index(items: Seq<ItemView>, source_id: i64, external_id: Seq<char>)
    ensures
        -1 <= key_index(items, source_id, external_id) < items.len(),
        key_index(items, source_id, external_id) >= 0 ==> has_key(
            items[key_index(items, source_id, external_id)],
            source_id,
            external_id,
        ),
        key_index(items, source_id, external_id) == -1 ==> forall|k: int|
            0 <= k < items.len() ==> !has_key(#[trigger] items[k], source_id, external_id),
    decreases items.len(),
{
    if items.len() > 0 {
        lemma_key_index(items.drop_last(), source_id, external_id);
        if !has_key(items.last(), source_id, external_id) {
            assert forall|k: int| 0 <= k < items.len() - 1 implies items.drop_last()[k] == items[k] by {
            }
        }
    }
}

pub proof fn lemma_item_index(items: Seq<ItemView>, id: i64)
    ensures
        -1 <= item_index(items, id) < items.len(),
        item_index(items, id) >= 0 ==> items[item_index(items, id)].id == id,
        item_index(items, id) == -1 ==> forall|k: int|
            0 <= k < items.len() ==> (#[trigger] items[k]).id != id,
    decreases items.len(),
{
    if items.len() > 0 {
        lemma_item_index(items.drop_last(), id);
        if items.last().id != id {
            assert forall|k: int| 0 <= k < items.len() - 1 implies items.drop_last()[k] == items[k] by {
            }
        }
    }
}

pub proof fn lemma_source_index(sources: Seq<SourceView>, id: i64)
    ensures
        -1 <= source_index(sources, id) < sources.len(),
        source_index(sources, id) >= 0 ==> sources[source_index(sources, id)].id == id,
        source_index(sources, id) == -1 ==> forall|k: int|
            0 <= k < sources.len() ==> (#[trigger] sources[k]).id != id,
    decreases sources.len(),
{
    if sources.len() > 0 {
        lemma_source_index(sources.drop_last(), id);
        if sources.last().id != id {
            assert forall|k: int| 0 <= k < sources.len() - 1 implies sources.drop_last()[k]
                == sources[k] by {}
        }
    }
}

pub proof fn lemma_secret_index(secrets: Seq<SecretView>, id: i64)
    ensures
        -1 <= secret_index(secrets, id) < secrets.len(),
        secret_index(secrets, id) >= 0 ==> secrets[secret_index(secrets, id)].id == id,
        secret_index(secrets, id) == -1 ==> forall|k: int|
            0 <= k < secrets.len() ==> (#[trigger] secrets[k]).id != id,
    decreases secrets.len(),
{
    if secrets.len() > 0 {
        lemma_secret_index(secrets.drop_last(), id);
        if secrets.last().id != id {
            assert forall|k: int| 0 <= k < secrets.len() - 1 implies secrets.drop_last()[k]
                == secrets[k] by {}
        }
    }
}

/// Natural key uniqueness: in a well-formed store two items with the same
/// source and external id are one item, with one id.
pub proof fn lemma_natural_key_unique(db: DbView, i: int, j: int)
    requires
        db_wf(db),
        0 <= i < db.items.len(),
        0 <= j < db.items.len(),
        db.items[i].source_id == db.items[j].source_id,
        db.items[i].external_id == db.items[j].external_id,
    ensures
        i == j,
        db.items[i].id == db.items[j].id,
{
    if i != j {
        assert(!same_key(db.items[i], db.items[j]));
    }
}

pub proof fn lemma_wf_source_update(db: DbView, k: int, s: SourceView)
    requires
        db_wf(db),
        0 <= k < db.sources.len(),
        s.id == db.sources[k].id,
    ensures
        db_wf(DbView { sources: db.sources.update(k, s), ..db }),
{
    let v = db.sources.update(k, s);
    assert forall|j: int, m: int| 0 <= j < m < v.len() implies #[trigger] v[j].id
        < #[trigger] v[m].id by {
        assert(db.sources[j].id < db.sources[m].id);
    }
    assert forall|m: int| 0 <= m < v.len() implies 1 <= #[trigger] v[m].id < db.next_source_id by {
        assert(1 <= db.sources[m].id < db.next_source_id);
    }
}

pub proof fn lemma_wf_secret_update(db: DbView, k: int, s: SecretView)
    requires
        db_wf(db),
        0 <= k < db.secrets.len(),
        s.id == db.secrets[k].id,
        secret_wf(s),
    ensures
        db_wf(DbView { secrets: db.secrets.update(k, s), ..db }),
{
    let v = db.secrets.update(k, s);
    assert forall|j: int, m: int| 0 <= j < m < v.len() implies #[trigger] v[j].id
        < #[trigger] v[m].id by {
        assert(db.secrets[j].id < db.secrets[m].id);
    }
    assert forall|m: int| 0 <= m < v.len() implies 1 <= #[trigger] v[m].id < db.next_secret_id by {
        assert(1 <= db.secrets[m].id < db.next_secret_id);
    }
    assert forall|m: int| 0 <= m < v.len() implies secret_wf(#[trigger] v[m]) by {
        if m != k {
            assert(secret_wf(db.secrets[m]));
        }
    }
}

/// Ids that are positive, increase strictly and stay below a counter.
pub open spec fn ids_ok(ids: Seq<i64>, next: i64) -> bool {
    &&& next >= 1
    &&& forall|k: int| 0 <= k < ids.len() ==> 1 <= #[trigger] ids[k] < next
    &&& forall|j: int, k: int| 0 <= j < k < ids.len() ==> #[trigger] ids[j] < #[trigger] ids[k]
}

/// No two items share a natural key.
pub open spec fn unique_keys(items: Seq<ItemView>) -> bool {
    forall|j: int, k: int|
        0 <= j < items.len() && 0 <= k < items.len() && j != k ==> !same_key(
            #[trigger] items[j],
            #[trigger] items[k],
        )
}

/// The invariant, table by table.
proof fn lemma_wf_parts(v: DbView)
    ensures
        db_wf(v) == (ids_ok(v.sources.map_values(|s: SourceView| s.id), v.next_source_id) && ids_ok(
            v.items.map_values(|s: ItemView| s.id),
            v.next_item_id,
        ) && ids_ok(v.events.map_values(|s: Event| s.id), v.next_event_id) && ids_ok(
            v.secrets.map_values(|s: SecretView| s.id),
            v.next_secret_id,
        ) && unique_keys(v.items) && all_secrets_wf(v.secrets)),
{
    let si = v.sources.map_values(|s: SourceView| s.id);
    let ii = v.items.map_values(|s: ItemView| s.id);
    let ei = v.events.map_values(|s: Event| s.id);
    let ci = v.secrets.map_values(|s: SecretView| s.id);
    assert forall|k: int| 0 <= k < si.len() implies si[k] == v.sources[k].id by {}
    assert forall|k: int| 0 <= k < ii.len() implies ii[k] == v.items[k].id by {}
    assert forall|k: int| 0 <= k < ei.len() implies ei[k] == v.events[k].id by {}
    assert forall|k: int| 0 <= k < ci.len() implies ci[k] == v.secrets[k].id by {}
    if ids_ok(si, v.next_source_id) {
        assert forall|j: int, k: int| 0 <= j < k < v.sources.len() implies #[trigger] v.sources[j].id
            < #[trigger] v.sources[k].id by {
            assert(si[j] < si[k]);
        }
        assert forall|k: int| 0 <= k < v.sources.len() implies 1 <= #[trigger] v.sources[k].id
            < v.next_source_id by {
            assert(1 <= si[k] < v.next_source_id);
        }
    }
    if ids_ok(ii, v.next_item_id) {
        assert forall|j: int, k: int| 0 <= j < k < v.items.len() implies #[trigger] v.items[j].id
            < #[trigger] v.items[k].id by {
            assert(ii[j] < ii[k]);
        }
        assert forall|k: int| 0 <= k < v.items.len() implies 1 <= #[trigger] v.items[k].id
            < v.next_item_id by {
            assert(1 <= ii[k] < v.next_item_id);
        }
    }
    if ids_ok(ei, v.next_event_id) {
        assert forall|j: int, k: int| 0 <= j < k < v.events.len() implies #[trigger] v.events[j].id
            < #[trigger] v.events[k].id by {
            assert(ei[j] < ei[k]);
        }
        assert forall|k: int| 0 <= k < v.events.len() implies 1 <= #[trigger] v.events[k].id
            < v.next_event_id by {
            assert(1 <= ei[k] < v.next_event_id);
        }
    }
    if ids_ok(ci, v.next_secret_id) {
        assert forall|j: int, k: int| 0 <= j < k < v.secrets.len() implies #[trigger] v.secrets[j].id
            < #[trigger] v.secrets[k].id by {
            assert(ci[j] < ci[k]);
        }
        assert forall|k: int| 0 <= k < v.secrets.len() implies 1 <= #[trigger] v.secrets[k].id
            < v.next_secret_id by {
            assert(1 <= ci[k] < v.next_secret_id);
        }
    }
    if db_wf(v) {
        assert forall|j: int, k: int| 0 <= j < k < si.len() implies #[trigger] si[j] < #[trigger] si[k] by {
            assert(v.sources[j].id < v.sources[k].id);
        }
        assert forall|k: int| 0 <= k < si.len() implies 1 <= #[trigger] si[k] < v.next_source_id by {
            assert(1 <= v.sources[k].id < v.next_source_id);
        }
        assert forall|j: int, k: int| 0 <= j < k < ii.len() implies #[trigger] ii[j] < #[trigger] ii[k] by {
            assert(v.items[j].id < v.items[k].id);
        }
        assert forall|k: int| 0 <= k < ii.len() implies 1 <= #[trigger] ii[k] < v.next_item_id by {
            assert(1 <= v.items[k].id < v.next_item_id);
        }
        assert forall|j: int, k: int| 0 <= j < k < ei.len() implies #[trigger] ei[j] < #[trigger] ei[k] by {
            assert(v.events[j].id < v.events[k].id);
        }
        assert forall|k: int| 0 <= k < ei.len() implies 1 <= #[trigger] ei[k] < v.next_event_id by {
            assert(1 <= v.events[k].id < v.next_event_id);
        }
        assert forall|j: int, k: int| 0 <= j < k < ci.len() implies #[trigger] ci[j] < #[trigger] ci[k] by {
            assert(v.secrets[j].id < v.secrets[k].id);
        }
        assert forall|k: int| 0 <= k < ci.len() implies 1 <= #[trigger] ci[k] < v.next_secret_id by {
            assert(1 <= v.secrets[k].id < v.next_secret_id);
        }
    }
}

fn keys_unique(items: &Vec<Item>) -> (r: bool)
    ensures
        r == unique_keys(items@.map_values(|i: Item| i@)),
{
    let ghost v = items@.map_values(|i: Item| i@);
    let mut m: usize = 0;
    while m < items.len()
        invariant
            m <= items@.len(),
            v == items@.map_values(|i: Item| i@),
            forall|j: int, k: int| 0 <= j < k < m ==> !same_key(#[trigger] v[j], #[trigger] v[k]),
        decreases items@.len() - m,
    {
        let mut j: usize = 0;
        while j < m
            invariant
                j <= m < items@.len(),
                v == items@.map_values(|i: Item| i@),
                forall|a: int, b: int| 0 <= a < b < m ==> !same_key(#[trigger] v[a], #[trigger] v[b]),
                forall|a: int| 0 <= a < j ==> !same_key(#[trigger] v[a], v[m as int]),
            decreases m - j,
        {
            if items[j].source_id == items[m].source_id && items[j].external_id
                == items[m].external_id {
                assert(same_key(v[j as int], v[m as int]));
                return false;
            }
            j += 1;
        }
        m += 1;
    }
    assert forall|j: int, k: int|
        0 <= j < v.len() && 0 <= k < v.len() && j != k implies !same_key(
        #[trigger] v[j],
        #[trigger] v[k],
    ) by {
        if j < k {
            assert(!same_key(v[j], v[k]));
        } else {
            assert(!same_key(v[k], v[j]));
        }
    }
    true
}

pub open spec fn all_secrets_wf(v: Seq<SecretView>) -> bool {
    forall|k: int| 0 <= k < v.len() ==> secret_wf(#[trigger] v[k])
}

fn secrets_ok(secrets: &Vec<Secret>) -> (r: bool)
    ensures
        r == all_secrets_wf(secrets@.map_values(|s: Secret| s@)),
{
    let ghost v = secrets@.map_values(|s: Secret| s@);
    let mut k: usize = 0;
    while k < secrets.len()
        invariant
            k <= secrets@.len(),
            v == secrets@.map_values(|s: Secret| s@),
            forall|q: int| 0 <= q < k ==> secret_wf(#[trigger] v[q]),
        decreases secrets@.len() - k,
    {
        let s = &secrets[k];
        assert(v[k as int] == s@);
        let forever = match s.ttl_kind {
            TtlKind::Forever => true,
            _ => false,
        };
        if forever != s.expires_at.is_none() || s.refresh_failure_count > MAX_REFRESH_FAILURES {
            assert(!secret_wf(v[k as int]));
            return false;
        }
        k += 1;
    }
    true
}

fn check_ids(ids: &Vec<i64>, next: i64) -> (r: bool)
    ensures
        r == ids_ok(ids@, next),
{
    if next < 1 {
        return false;
    }
    let mut i: usize = 0;
    while i < ids.len()
        invariant
            next >= 1,
            i <= ids@.len(),
            forall|k: int| 0 <= k < i ==> 1 <= #[trigger] ids@[k] < next,
            forall|j: int, k: int| 0 <= j < k < i ==> #[trigger] ids@[j] < #[trigger] ids@[k],
        decreases ids@.len() - i,
    {
        if ids[i] < 1 || ids[i] >= next {
            return false;
        }
        if i > 0 && ids[i - 1] >= ids[i] {
            assert(!(ids@[i - 1] < ids@[i as int]));
            return false;
        }
        proof {
            assert forall|j: int, k: int| 0 <= j < k < i + 1 implies #[trigger] ids@[j]
                < #[trigger] ids@[k] by {
                if k == i && j < i - 1 {
                    assert(ids@[j] < ids@[i - 1]);
                }
            }
        }
        i += 1;
    }
    true
}

/// The embedded store: sources, items, events and secrets, with the ids it
/// assigns. Callers pass the current time in.
pub struct Database {
    pub(crate) sources: Vec<Source>,
    pub(crate) items: Vec<Item>,
    pub(crate) events: Vec<Event>,
    pub(crate) secrets: Vec<Secret>,
    pub(crate) next_source_id: i64,
    pub(crate) next_item_id: i64,
    pub(crate) next_event_id: i64,
    pub(crate) next_secret_id: i64,
}

impl View for Database {
    type V = DbView;

    closed spec fn view(&self) -> DbView {
        DbView {
            sources: self.sources@.map_values(|s: Source| s@),
            items: self.items@.map_values(|i: Item| i@),
            events: self.events@,
            secrets: self.secrets@.map_values(|s: Secret| s@),
            next_source_id: self.next_source_id,
            next_item_id: self.next_item_id,
            next_event_id: self.next_event_id,
            next_secret_id: self.next_secret_id,
        }
    }
}

impl Database {
    pub(crate) proof fn lemma_view(&self)
        ensures
            self@ == (DbView {
                sources: self.sources@.map_values(|s: Source| s@),
                items: self.items@.map_values(|i: Item| i@),
                events: self.events@,
                secrets: self.secrets@.map_values(|s: Secret| s@),
                next_source_id: self.next_source_id,
                next_item_id: self.next_item_id,
                next_event_id: self.next_event_id,
                next_secret_id: self.next_secret_id,
            }),
    {
    }

    /// An empty store.
    pub fn new() -> (r: Database)
        ensures
            db_wf(r@),
            r@.sources.len() == 0,
            r@.items.len() == 0,
            r@.events.len() == 0,
            r@.secrets.len() == 0,
    {
        let r = Database {
            sources: Vec::new(),
            items: Vec::new(),
            events: Vec::new(),
            secrets: Vec::new(),
            next_source_id: 1,
            next_item_id: 1,
            next_event_id: 1,
            next_secret_id: 1,
        };
        assert(r@.sources =~= Seq::<SourceView>::empty());
        assert(r@.items =~= Seq::<ItemView>::empty());
        assert(r@.secrets =~= Seq::<SecretView>::empty());
        r
    }

    fn find_item_by_key(&self, source_id: i64, external_id: &String) -> (r: Option<usize>)
        ensures
            r matches Some(k) ==> key_index(self@.items, source_id, external_id@) == k,
            r is None ==> key_index(self@.items, source_id, external_id@) == -1,
    {
        let ghost v = self@.items;
        assert(v.subrange(0, v.len() as int) =~= v);
        let mut i: usize = self.items.len();
        while i > 0
            invariant
                i <= self.items@.len(),
                v == self@.items,
                v.len() == self.items@.len(),
                key_index(v, source_id, external_id@) == key_index(
                    v.subrange(0, i as int),
                    source_id,
                    external_id@,
                ),
            decreases i,
        {
            let it = &self.items[i - 1];
            assert(v[i - 1] == it@);
            assert(v.subrange(0, i as int).last() == v[i - 1]);
            if it.source_id == source_id && it.external_id == *external_id {
                return Some(i - 1);
            }
            assert(v.subrange(0, i as int).drop_last() =~= v.subrange(0, i - 1));
            i -= 1;
        }
        None
    }

    fn find_item(&self, id: i64) -> (r: Option<usize>)
        ensures
            r matches Some(k) ==> item_index(self@.items, id) == k,
            r is None ==> item_index(self@.items, id) == -1,
    {
        let ghost v = self@.items;
        assert(v.subrange(0, v.len() as int) =~= v);
        let mut i: usize = self.items.len();
        while i > 0
            invariant
                i <= self.items@.len(),
                v == self@.items,
                v.len() == self.items@.len(),
                item_index(v, id) == item_index(v.subrange(0, i as int), id),
            decreases i,
        {
            assert(v[i - 1] == self.items@[i - 1]@);
            assert(v.subrange(0, i as int).last() == v[i - 1]);
            if self.items[i - 1].id == id {
                return Some(i - 1);
            }
            assert(v.subrange(0, i as int).drop_last() =~= v.subrange(0, i - 1));
            i -= 1;
        }
        None
    }

    pub(crate) fn find_source(&self, id: i64) -> (r: Option<usize>)
        ensures
            r matches Some(k) ==> source_index(self@.sources, id) == k,
            r is None ==> source_index(self@.sources, id) == -1,
    {
        let ghost v = self@.sources;
        assert(v.subrange(0, v.len() as int) =~= v);
        let mut i: usize = self.sources.len();
        while i > 0
            invariant
                i <= self.sources@.len(),
                v == self@.sources,
                v.len() == self.sources@.len(),
                source_index(v, id) == source_index(v.subrange(0, i as int), id),
            decreases i,
        {
            assert(v[i - 1] == self.sources@[i - 1]@);
            assert(v.subrange(0, i as int).last() == v[i - 1]);
            if self.sources[i - 1].id == id {
                return Some(i - 1);
            }
            assert(v.subrange(0, i as int).drop_last() =~= v.subrange(0, i - 1));
            i -= 1;
        }
        None
    }

    pub(crate) fn find_secret(&self, id: i64) -> (r: Option<usize>)
        ensures
            r matches Some(k) ==> secret_index(self@.secrets, id) == k,
            r is None ==> secret_index(self@.secrets, id) == -1,
    {
        let ghost v = self@.secrets;
        assert(v.subrange(0, v.len() as int) =~= v);
        let mut i: usize = self.secrets.len();
        while i > 0
            invariant
                i <= self.secrets@.len(),
                v == self@.secrets,
                v.len() == self.secrets@.len(),
                secret_index(v, id) == secret_index(v.subrange(0, i as int), id),
            decreases i,
        {
            assert(v[i - 1] == self.secrets@[i - 1]@);
            assert(v.subrange(0, i as int).last() == v[i - 1]);
            if self.secrets[i - 1].id == id {
                return Some(i - 1);
            }
            assert(v.subrange(0, i as int).drop_last() =~= v.subrange(0, i - 1));
            i -= 1;
        }
        None
    }

    /// Inserts or updates the item with the natural key
    /// `(source_id, external_id)`, and returns its id.
    pub fn upsert_item(&mut self, source_id: i64, external_id: String, fields: ItemFields, now: i64) -> (r:
        Result<i64, StoreError>)
        requires
            db_wf(old(self)@),
        ensures
            db_wf(final(self)@),
            match r {
                Ok(id) => upsert_outcome(old(self)@, source_id, external_id@, fields@, now) == Ok::<
                    (DbView, i64),
                    StoreError,
                >((final(self)@, id)),
                Err(e) => upsert_outcome(old(self)@, source_id, external_id@, fields@, now)
                    == Err::<(DbView, i64), StoreError>(e) && final(self)@ == old(self)@,
            },
    {
        let ghost old_v = self@;
        proof {
            lemma_key_index(old_v.items, source_id, external_id@);
        }
        match self.find_item_by_key(source_id, &external_id) {
            Some(k) => {
                let mut it = self.items.remove(k);
                it.title = fields.title;
                it.summary = fields.summary;
                it.url = fields.url;
                it.item_type = fields.item_type;
                it.image_url = fields.image_url;
                it.content_html = fields.content_html;
                it.author = fields.author;
                it.category = fields.category;
                it.comments = fields.comments;
                it.thread_id = fields.thread_id;
                it.updated_at = now;
                let id = it.id;
                self.items.insert(k, it);
                proof {
                    let nv = old_v.items.update(k as int, refreshed(old_v.items[k as int], fields@, now));
                    assert(self@.items =~= nv);
                    assert(self@ == DbView { items: nv, ..old_v });
                    assert forall|j: int, m: int|
                        0 <= j < nv.len() && 0 <= m < nv.len() && j != m implies !same_key(
                        #[trigger] nv[j],
                        #[trigger] nv[m],
                    ) by {
                        assert(!same_key(old_v.items[j], old_v.items[m]));
                    }
                    assert forall|j: int, m: int| 0 <= j < m < nv.len() implies #[trigger] nv[j].id
                        < #[trigger] nv[m].id by {
                        assert(old_v.items[j].id < old_v.items[m].id);
                    }
                    assert forall|m: int| 0 <= m < nv.len() implies 1 <= #[trigger] nv[m].id
                        < self@.next_item_id by {
                        assert(old_v.items[m].id < old_v.next_item_id);
                    }
                }
                Ok(id)
            },
            None => {
                if self.next_item_id == i64::MAX {
                    return Err(StoreError::IdsExhausted);
                }
                let id = self.next_item_id;
                let it = Item {
                    id,
                    source_id,
                    external_id,
                    title: fields.title,
                    summary: fields.summary,
                    url: fields.url,
                    item_type: fields.item_type,
                    state: String::from_str("unread"),
                    created_at: now,
                    updated_at: now,
                    image_url: fields.image_url,
                    content_html: fields.content_html,
                    author: fields.author,
                    category: fields.category,
                    comments: fields.comments,
                    thread_id: fields.thread_id,
                    content_status: None,
                    extracted_content_html: None,
                    content_completeness: None,
                    extraction_failed_reason: None,
                };
                proof {
                    reveal_strlit("unread");
                }
                assert(it.state@ =~= unread_word());
                assert(it@ == fresh_item(id, source_id, external_id@, fields@, now));
                self.items.push(it);
                self.next_item_id = id + 1;
                proof {
                    let nv = old_v.items.push(fresh_item(id, source_id, external_id@, fields@, now));
                    assert(self@.items =~= nv);
                    assert forall|j: int, m: int|
                        0 <= j < nv.len() && 0 <= m < nv.len() && j != m implies !same_key(
                        #[trigger] nv[j],
                        #[trigger] nv[m],
                    ) by {
                        if j < old_v.items.len() && m < old_v.items.len() {
                            assert(!same_key(old_v.items[j], old_v.items[m]));
                        } else if j < old_v.items.len() {
                            assert(!has_key(old_v.items[j], source_id, external_id@));
                        } else {
                            assert(!has_key(old_v.items[m], source_id, external_id@));
                        }
                    }
                    assert forall|j: int, m: int| 0 <= j < m < nv.len() implies #[trigger] nv[j].id
                        < #[trigger] nv[m].id by {
                        if m < old_v.items.len() {
                            assert(old_v.items[j].id < old_v.items[m].id);
                        } else {
                            assert(old_v.items[j].id < old_v.next_item_id);
                        }
                    }
                    assert(self@ == DbView {
                        items: nv,
                        next_item_id: (old_v.next_item_id + 1) as i64,
                        ..old_v
                    });
                }
                Ok(id)
            },
        }
    }

    /// Appends an audit row for an item, and returns its id.
    pub fn create_event(&mut self, item_id: i64, kind: EventKind, occurred_at: Option<i64>, now: i64) -> (r:
        Result<i64, StoreError>)
        requires
            db_wf(old(self)@),
        ensures
            db_wf(final(self)@),
            match r {
                Ok(id) => event_outcome(old(self)@, item_id, kind, occurred_at, now) == Ok::<
                    (DbView, i64),
                    StoreError,
                >((final(self)@, id)),
                Err(e) => event_outcome(old(self)@, item_id, kind, occurred_at, now) == Err::<
                    (DbView, i64),
                    StoreError,
                >(e) && final(self)@ == old(self)@,
            },
    {
        let ghost old_v = self@;
        if self.next_event_id == i64::MAX {
            return Err(StoreError::IdsExhausted);
        }
        let id = self.next_event_id;
        self.events.push(Event { id, item_id, kind, occurred_at, recorded_at: now });
        self.next_event_id = id + 1;
        proof {
            let nv = old_v.events.push(
                Event { id, item_id, kind, occurred_at, recorded_at: now },
            );
            assert(self@.events =~= nv);
            assert(self@.items =~= old_v.items);
            assert(self@.sources =~= old_v.sources);
            assert(self@.secrets =~= old_v.secrets);
            assert forall|j: int, m: int| 0 <= j < m < nv.len() implies #[trigger] nv[j].id
                < #[trigger] nv[m].id by {
                if m < old_v.events.len() {
                    assert(old_v.events[j].id < old_v.events[m].id);
                } else {
                    assert(old_v.events[j].id < old_v.next_event_id);
                }
            }
            assert(self@ == DbView { events: nv, next_event_id: (old_v.next_event_id + 1) as i64, ..old_v });
        }
        Ok(id)
    }

    /// Rebuilds a store from stored rows and id counters; refuses rows that
    /// break the store's invariant.
    pub fn restore(
        sources: Vec<Source>,
        items: Vec<Item>,
        events: Vec<Event>,
        secrets: Vec<Secret>,
        next_ids: (i64, i64, i64, i64),
    ) -> (r: Result<Database, StoreError>)
        ensures
            ({
                let v = DbView {
                    sources: sources@.map_values(|s: Source| s@),
                    items: items@.map_values(|i: Item| i@),
                    events: events@,
                    secrets: secrets@.map_values(|s: Secret| s@),
                    next_source_id: next_ids.0,
                    next_item_id: next_ids.1,
                    next_event_id: next_ids.2,
                    next_secret_id: next_ids.3,
                };
                match r {
                    Ok(db) => db_wf(v) && db@ == v,
                    Err(e) => !db_wf(v) && e == StoreError::InvalidData,
                }
            }),
    {
        let ghost v = DbView {
            sources: sources@.map_values(|s: Source| s@),
            items: items@.map_values(|i: Item| i@),
            events: events@,
            secrets: secrets@.map_values(|s: Secret| s@),
            next_source_id: next_ids.0,
            next_item_id: next_ids.1,
            next_event_id: next_ids.2,
            next_secret_id: next_ids.3,
        };
        let mut sid: Vec<i64> = Vec::new();
        let mut i: usize = 0;
        while i < sources.len()
            invariant
                i <= sources@.len(),
                v.sources == sources@.map_values(|s: Source| s@),
                sid@ == v.sources.subrange(0, i as int).map_values(|s: SourceView| s.id),
            decreases sources@.len() - i,
        {
            sid.push(sources[i].id);
            i += 1;
            assert(sid@ =~= v.sources.subrange(0, i as int).map_values(|s: SourceView| s.id));
        }
        let mut iid: Vec<i64> = Vec::new();
        let mut i: usize = 0;
        while i < items.len()
            invariant
                i <= items@.len(),
                v.items == items@.map_values(|i: Item| i@),
                iid@ == v.items.subrange(0, i as int).map_values(|s: ItemView| s.id),
            decreases items@.len() - i,
        {
            iid.push(items[i].id);
            i += 1;
            assert(iid@ =~= v.items.subrange(0, i as int).map_values(|s: ItemView| s.id));
        }
        let mut eid: Vec<i64> = Vec::new();
        let mut i: usize = 0;
        while i < events.len()
            invariant
                i <= events@.len(),
                v.events == events@,
                eid@ == v.events.subrange(0, i as int).map_values(|s: Event| s.id),
            decreases events@.len() - i,
        {
            eid.push(events[i].id);
            i += 1;
            assert(eid@ =~= v.events.subrange(0, i as int).map_values(|s: Event| s.id));
        }
        let mut cid: Vec<i64> = Vec::new();
        let mut i: usize = 0;
        while i < secrets.len()
            invariant
                i <= secrets@.len(),
                v.secrets == secrets@.map_values(|s: Secret| s@),
                cid@ == v.secrets.subrange(0, i as int).map_values(|s: SecretView| s.id),
            decreases secrets@.len() - i,
        {
            cid.push(secrets[i].id);
            i += 1;
            assert(cid@ =~= v.secrets.subrange(0, i as int).map_values(|s: SecretView| s.id));
        }
        assert(v.sources.subrange(0, v.sources.len() as int) =~= v.sources);
        assert(v.items.subrange(0, v.items.len() as int) =~= v.items);
        assert(v.events.subrange(0, v.events.len() as int) =~= v.events);
        assert(v.secrets.subrange(0, v.secrets.len() as int) =~= v.secrets);
        let ids_fine = check_ids(&sid, next_ids.0) && check_ids(&iid, next_ids.1) && check_ids(
            &eid,
            next_ids.2,
        ) && check_ids(&cid, next_ids.3);
        let keys_fine = keys_unique(&items);
        let secrets_fine = secrets_ok(&secrets);
        proof {
            assert(ids_fine == (ids_ok(v.sources.map_values(|s: SourceView| s.id), v.next_source_id)
                && ids_ok(v.items.map_values(|s: ItemView| s.id), v.next_item_id) && ids_ok(
                v.events.map_values(|s: Event| s.id),
                v.next_event_id,
            ) && ids_ok(v.secrets.map_values(|s: SecretView| s.id), v.next_secret_id)));
            lemma_wf_parts(v);
        }
        if !(ids_fine && keys_fine && secrets_fine) {
            return Err(StoreError::InvalidData);
        }
        let db = Database {
            sources,
            items,
            events,
            secrets,
            next_source_id: next_ids.0,
            next_item_id: next_ids.1,
            next_event_id: next_ids.2,
            next_secret_id: next_ids.3,
        };
        Ok(db)
    }

    /// All sources, items, events and secrets with the id counters, for
    /// writing the store out.
    pub fn next_ids(&self) -> (r: (i64, i64, i64, i64))
        ensures
            r == (self@.next_source_id, self@.next_item_id, self@.next_event_id, self@.next_secret_id),
    {
        (self.next_source_id, self.next_item_id, self.next_event_id, self.next_secret_id)
    }

    /// All secrets, in the order they were added.
    pub fn get_all_secrets(&self) -> (r: Vec<Secret>)
        ensures
            r@.map_values(|s: Secret| s@) == self@.secrets,
    {
        let mut r: Vec<Secret> = Vec::new();
        let mut i: usize = 0;
        while i < self.secrets.len()
            invariant
                i <= self.secrets@.len(),
                r@.map_values(|s: Secret| s@) == self@.secrets.subrange(0, i as int),
            decreases self.secrets@.len() - i,
        {
            let ghost before = r@;
            r.push(self.secrets[i].copy());
            assert(r@.map_values(|s: Secret| s@) =~= before.map_values(|s: Secret| s@).push(
                self@.secrets[i as int],
            ));
            i += 1;
            assert(self@.secrets.subrange(0, i as int) =~= self@.secrets.subrange(0, i - 1).push(
                self@.secrets[i - 1],
            ));
        }
        assert(self@.secrets.subrange(0, i as int) =~= self@.secrets);
        r
    }

    /// All items, in the order they were stored.
    pub fn get_all_items(&self) -> (r: Vec<Item>)
        ensures
            r@.map_values(|s: Item| s@) == self@.items,
    {
        let mut r: Vec<Item> = Vec::new();
        let mut i: usize = 0;
        while i < self.items.len()
            invariant
                i <= self.items@.len(),
                r@.map_values(|s: Item| s@) == self@.items.subrange(0, i as int),
            decreases self.items@.len() - i,
        {
            let ghost before = r@;
            r.push(self.items[i].copy());
            assert(r@.map_values(|s: Item| s@) =~= before.map_values(|s: Item| s@).push(
                self@.items[i as int],
            ));
            i += 1;
            assert(self@.items.subrange(0, i as int) =~= self@.items.subrange(0, i - 1).push(
                self@.items[i - 1],
            ));
        }
        assert(self@.items.subrange(0, i as int) =~= self@.items);
        r
    }

    /// All audit events, oldest first.
    pub fn get_events(&self) -> (r: Vec<Event>)
        ensures
            r@ == self@.events,
    {
        let mut r: Vec<Event> = Vec::new();
        let mut i: usize = 0;
        while i < self.events.len()
            invariant
                i <= self.events@.len(),
                r@ == self.events@.subrange(0, i as int),
            decreases self.events@.len() - i,
        {
            r.push(self.events[i]);
            i += 1;
            assert(r@ =~= self.events@.subrange(0, i as int));
        }
        assert(r@ =~= self.events@);
        r
    }

    pub(crate) fn item_at(&self, k: usize) -> (r: Item)
        requires
            k < self@.items.len(),
        ensures
            r@ == self@.items[k as int],
    {
        self.items[k].copy()
    }

    pub(crate) fn item_position(&self, id: i64) -> (r: Option<usize>)
        ensures
            r matches Some(k) ==> item_index(self@.items, id) == k,
            r is None ==> item_index(self@.items, id) == -1,
    {
        self.find_item(id)
    }

    /// Puts an item back at its position, its identity unchanged.
    pub(crate) fn replace_item(&mut self, k: usize, it: Item)
        requires
            db_wf(old(self)@),
            k < old(self)@.items.len(),
            it@.id == old(self)@.items[k as int].id,
            it@.source_id == old(self)@.items[k as int].source_id,
            it@.external_id == old(self)@.items[k as int].external_id,
        ensures
            db_wf(final(self)@),
            final(self)@ == (DbView { items: old(self)@.items.update(k as int, it@), ..old(self)@ }),
    {
        let ghost old_v = self@;
        let ghost iv = it@;
        self.items.remove(k);
        self.items.insert(k, it);
        proof {
            let nv = old_v.items.update(k as int, iv);
            assert(self@.items =~= nv);
            assert forall|j: int, m: int|
                0 <= j < nv.len() && 0 <= m < nv.len() && j != m implies !same_key(
                #[trigger] nv[j],
                #[trigger] nv[m],
            ) by {
                assert(!same_key(old_v.items[j], old_v.items[m]));
            }
            assert forall|j: int, m: int| 0 <= j < m < nv.len() implies #[trigger] nv[j].id
                < #[trigger] nv[m].id by {
                assert(old_v.items[j].id < old_v.items[m].id);
            }
            assert forall|m: int| 0 <= m < nv.len() implies 1 <= #[trigger] nv[m].id
                < self@.next_item_id by {
                assert(old_v.items[m].id < old_v.next_item_id);
            }
        }
    }

    /// The item with an id.
    pub fn get_item(&self, id: i64) -> (r: Result<Item, StoreError>)
        ensures
            match r {
                Ok(it) => item_index(self@.items, id) >= 0 && it@ == self@.items[item_index(
                    self@.items,
                    id,
                )],
                Err(e) => item_index(self@.items, id) == -1 && e == StoreError::NotFound,
            },
    {
        proof {
            lemma_item_index(self@.items, id);
        }
        match self.find_item(id) {
            Some(k) => {
                assert(self@.items[k as int] == self.items@[k as int]@);
                Ok(self.items[k].copy())
            },
            None => Err(StoreError::NotFound),
        }
    }

    /// Sets an item's state (`unread`, `read`, `archived`, ...).
    pub fn update_item_state(&mut self, id: i64, state: String, now: i64) -> (r: Result<
        (),
        StoreError,
    >)
        requires
            db_wf(old(self)@),
        ensures
            db_wf(final(self)@),
            match r {
                Ok(_) => {
                    let k = item_index(old(self)@.items, id);
                    k >= 0 && final(self)@ == DbView {
                        items: old(self)@.items.update(
                            k,
                            ItemView { state: state@, updated_at: now, ..old(self)@.items[k] },
                        ),
                        ..old(self)@
                    }
                },
                Err(e) => item_index(old(self)@.items, id) == -1 && e == StoreError::NotFound
                    && final(self)@ == old(self)@,
            },
    {
        let ghost old_v = self@;
        proof {
            lemma_item_index(old_v.items, id);
        }
        match self.find_item(id) {
            Some(k) => {
                let mut it = self.items.remove(k);
                assert(it@ == old_v.items[k as int]);
                it.state = state;
                it.updated_at = now;
                self.items.insert(k, it);
                proof {
                    let nv = old_v.items.update(
                        k as int,
                        ItemView { state: state@, updated_at: now, ..old_v.items[k as int] },
                    );
                    assert(self@.items =~= nv);
                    assert forall|j: int, m: int|
                        0 <= j < nv.len() && 0 <= m < nv.len() && j != m implies !same_key(
                        #[trigger] nv[j],
                        #[trigger] nv[m],
                    ) by {
                        assert(!same_key(old_v.items[j], old_v.items[m]));
                    }
                    assert forall|j: int, m: int| 0 <= j < m < nv.len() implies #[trigger] nv[j].id
                        < #[trigger] nv[m].id by {
                        assert(old_v.items[j].id < old_v.items[m].id);
                    }
                    assert forall|m: int| 0 <= m < nv.len() implies 1 <= #[trigger] nv[m].id
                        < self@.next_item_id by {
                        assert(old_v.items[m].id < old_v.next_item_id);
                    }
                    assert(self@ == DbView { items: nv, ..old_v });
                }
                Ok(())
            },
            None => Err(StoreError::NotFound),
        }
    }
}

} // verus!
