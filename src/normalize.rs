use vstd::prelude::*;

use crate::model::{copy_opt, IngestedItem, IngestedView};
use crate::store::{
    db_wf, fresh_item, has_key, key_index, lemma_key_index, refreshed, same_key, ItemView, Event, event_outcome, upsert_outcome, Database, DbView, EventKind, FieldsView, ItemFields,
    StoreError,
};

verus! {

/// The JSON text of an array of strings.
pub uninterp spec fn json_text_array(items: Seq<Seq<char>>) -> Seq<char>;

/// Relies on `serde_json::to_string` for a list of strings: their JSON
/// array. Serialising a list of strings cannot fail.
#[verifier::external_body]
fn category_json(cats: &Vec<String>) -> (r: String)
    ensures
        r@ == json_text_array(cats.deep_view()),
{
    serde_json::to_string(cats).unwrap_or_default()
}

/// The fields stored for an ingested entry: its category list as JSON.
pub open spec fn fields_of(v: IngestedView) -> FieldsView {
    FieldsView {
        title: v.title,
        summary: v.summary,
        url: v.url,
        item_type: v.item_type,
        image_url: v.image_url,
        content_html: v.content_html,
        author: v.author,
        category: match v.category {
            Some(c) => Some(json_text_array(c)),
            None => None,
        },
        comments: v.comments,
        thread_id: v.thread_id,
    }
}

/// Storing one entry: an upsert, then an audit event where the entry
/// carries a source time.
pub open spec fn ingest_one(db: DbView, source_id: i64, v: IngestedView, now: i64) -> Result<
    (DbView, i64),
    StoreError,
> {
    match upsert_outcome(db, source_id, v.external_id, fields_of(v), now) {
        Err(e) => Err(e),
        Ok((d1, id)) => match v.occurred_at {
            None => Ok((d1, id)),
            Some(t) => match event_outcome(d1, id, EventKind::Ingested, Some(t), now) {
                Err(e) => Err(e),
                Ok((d2, _)) => Ok((d2, id)),
            },
        },
    }
}

/// Storing a batch in order; the ids of the stored items, one per entry.
pub open spec fn ingest_outcome(db: DbView, source_id: i64, batch: Seq<IngestedView>, now: i64) -> Result<
    (DbView, Seq<i64>),
    StoreError,
>
    decreases batch.len(),
{
    if batch.len() == 0 {
        Ok((db, Seq::empty()))
    } else {
        match ingest_outcome(db, source_id, batch.drop_last(), now) {
            Err(e) => Err(e),
            Ok((d1, ids)) => match ingest_one(d1, source_id, batch.last(), now) {
                Err(e) => Err(e),
                Ok((d2, id)) => Ok((d2, ids.push(id))),
            },
        }
    }
}

pub open spec fn batch_view(items: Seq<IngestedItem>) -> Seq<IngestedView> {
    items.map_values(|i: IngestedItem| i@)
}

proof fn lemma_ingest_err_extends(
    db: DbView,
    source_id: i64,
    batch: Seq<IngestedView>,
    n: int,
    e: StoreError,
    now: i64,
)
    requires
        0 <= n <= batch.len(),
        ingest_outcome(db, source_id, batch.subrange(0, n), now) == Err::<
            (DbView, Seq<i64>),
            StoreError,
        >(e),
    ensures
        ingest_outcome(db, source_id, batch, now) == Err::<(DbView, Seq<i64>), StoreError>(e),
    decreases batch.len() - n,
{
    if n == batch.len() {
        assert(batch.subrange(0, n) =~= batch);
    } else {
        let next = batch.subrange(0, n + 1);
        assert(next.drop_last() =~= batch.subrange(0, n));
        lemma_ingest_err_extends(db, source_id, batch, n + 1, e, now);
    }
}

fn fields_from(item: &IngestedItem) -> (r: ItemFields)
    ensures
        r@ == fields_of(item@),
{
    let category = match &item.category {
        Some(c) => Some(category_json(c)),
        None => None,
    };
    ItemFields {
        title: item.title.clone(),
        summary: copy_opt(&item.summary),
        url: item.url.clone(),
        item_type: item.item_type.clone(),
        image_url: copy_opt(&item.image_url),
        content_html: copy_opt(&item.content_html),
        author: copy_opt(&item.author),
        category,
        comments: copy_opt(&item.comments),
        thread_id: copy_opt(&item.thread_id),
    }
}

/// Stores a sync's entries for a source: each is upserted by its natural
/// key, and each that carries a source time gets one audit event. Returns
/// the stored ids, one per entry, in order.
pub fn normalize_and_dedupe(db: &mut Database, source_id: i64, items: Vec<IngestedItem>, now: i64) -> (r:
    Result<Vec<i64>, StoreError>)
    requires
        db_wf(old(db)@),
    ensures
        db_wf(final(db)@),
        match r {
            Ok(ids) => ingest_outcome(old(db)@, source_id, batch_view(items@), now) == Ok::<
                (DbView, Seq<i64>),
                StoreError,
            >((final(db)@, ids@)),
            Err(e) => ingest_outcome(old(db)@, source_id, batch_view(items@), now) == Err::<
                (DbView, Seq<i64>),
                StoreError,
            >(e),
        },
{
    let ghost bv = batch_view(items@);
    let ghost start = db@;
    let mut ids: Vec<i64> = Vec::new();
    let mut i: usize = 0;
    assert(bv.subrange(0, 0) =~= Seq::<IngestedView>::empty());
    while i < items.len()
        invariant
            i <= items@.len(),
            bv == batch_view(items@),
            bv.len() == items@.len(),
            start == old(db)@,
            db_wf(db@),
            ingest_outcome(start, source_id, bv.subrange(0, i as int), now) == Ok::<
                (DbView, Seq<i64>),
                StoreError,
            >((db@, ids@)),
        decreases items@.len() - i,
    {
        let item = &items[i];
        assert(bv[i as int] == item@);
        let ghost pre = bv.subrange(0, i as int);
        let ghost next = bv.subrange(0, i + 1);
        assert(next.drop_last() =~= pre);
        assert(next.last() == item@);
        let fields = fields_from(item);
        let id = match db.upsert_item(source_id, item.external_id.clone(), fields, now) {
            Ok(id) => id,
            Err(e) => {
                proof {
                    assert(ingest_one(db@, source_id, item@, now) == Err::<(DbView, i64), StoreError>(e));
                    assert(ingest_outcome(start, source_id, next, now) == Err::<(DbView, Seq<i64>), StoreError>(e));
                    lemma_ingest_err_extends(start, source_id, bv, i + 1, e, now);
                }
                return Err(e);
            },
        };
        match item.occurred_at {
            Some(t) => {
                match db.create_event(id, EventKind::Ingested, Some(t), now) {
                    Ok(_) => {},
                    Err(e) => {
                        proof {
                            lemma_ingest_err_extends(start, source_id, bv, i + 1, e, now);
                        }
                        return Err(e);
                    },
                }
            },
            None => {},
        }
        ids.push(id);
        i += 1;
    }
    assert(bv.subrange(0, i as int) =~= bv);
    Ok(ids)
}

/// The (item id, source time) pairs that a stored batch records as
/// events: one for each entry that carries a source time, in order.
pub open spec fn dated_pairs(batch: Seq<IngestedView>, ids: Seq<i64>) -> Seq<(i64, i64)>
    decreases batch.len(),
{
    if batch.len() == 0 || ids.len() == 0 {
        Seq::empty()
    } else {
        let rest = dated_pairs(batch.drop_last(), ids.drop_last());
        match batch.last().occurred_at {
            Some(t) => rest.push((ids.last(), t)),
            None => rest,
        }
    }
}

pub open spec fn records(e: Event, p: (i64, i64)) -> bool {
    e.kind == EventKind::Ingested && e.item_id == p.0 && e.occurred_at == Some(p.1)
}

/// One event per dated entry: storing a batch returns one id per entry,
/// keeps the earlier events, and appends exactly one `Ingested` event for
/// each entry that carries a source time, in order, keyed to that entry's
/// item and holding its time; entries without a time add none.
pub proof fn lemma_one_event_per_dated_entry(
    db: DbView,
    source_id: i64,
    batch: Seq<IngestedView>,
    now: i64,
)
    requires
        ingest_outcome(db, source_id, batch, now) is Ok,
    ensures
        ({
            let (d, ids) = ingest_outcome(db, source_id, batch, now)->Ok_0;
            let pairs = dated_pairs(batch, ids);
            &&& ids.len() == batch.len()
            &&& d.events.len() == db.events.len() + pairs.len()
            &&& d.events.subrange(0, db.events.len() as int) == db.events
            &&& forall|k: int|
                0 <= k < pairs.len() ==> records(#[trigger] d.events[db.events.len() + k], pairs[k])
        }),
    decreases batch.len(),
{
    if batch.len() == 0 {
        let (d, ids) = ingest_outcome(db, source_id, batch, now)->Ok_0;
        assert(d.events.subrange(0, db.events.len() as int) =~= db.events);
    } else {
        let pre = batch.drop_last();
        lemma_one_event_per_dated_entry(db, source_id, pre, now);
        let (d1, ids1) = ingest_outcome(db, source_id, pre, now)->Ok_0;
        let (d, ids) = ingest_outcome(db, source_id, batch, now)->Ok_0;
        let v = batch.last();
        let (du, id) = upsert_outcome(d1, source_id, v.external_id, fields_of(v), now)->Ok_0;
        assert(ids == ids1.push(id));
        assert(ids.drop_last() =~= ids1);
        assert(du.events == d1.events);
        let pairs1 = dated_pairs(pre, ids1);
        let pairs = dated_pairs(batch, ids);
        match v.occurred_at {
            None => {
                assert(d == du);
                assert(pairs == pairs1);
            },
            Some(t) => {
                assert(pairs == pairs1.push((id, t)));
                assert(d.events == du.events.push(
                    Event {
                        id: du.next_event_id,
                        item_id: id,
                        kind: EventKind::Ingested,
                        occurred_at: Some(t),
                        recorded_at: now,
                    },
                ));
                assert(d.events.subrange(0, db.events.len() as int) =~= d1.events.subrange(
                    0,
                    db.events.len() as int,
                ));
                assert forall|k: int| 0 <= k < pairs.len() implies records(
                    #[trigger] d.events[db.events.len() + k],
                    pairs[k],
                ) by {
                    if k < pairs1.len() {
                        assert(d.events[db.events.len() + k] == d1.events[db.events.len() + k]);
                    }
                }
            },
        }
    }
}

} // verus!

verus! {

/// An item that carries the given sync fields.
pub open spec fn carries(it: ItemView, f: FieldsView) -> bool {
    refreshed(it, f, it.updated_at) == it
}

/// Two items that differ at most in their update time.
pub open spec fn same_but_updated(a: ItemView, b: ItemView) -> bool {
    a == ItemView { updated_at: a.updated_at, ..b }
}

proof fn lemma_key_index_unique(items: Seq<ItemView>, k: int)
    requires
        0 <= k < items.len(),
        forall|j: int, m: int|
            0 <= j < items.len() && 0 <= m < items.len() && j != m ==> !same_key(
                #[trigger] items[j],
                #[trigger] items[m],
            ),
    ensures
        key_index(items, items[k].source_id, items[k].external_id) == k,
{
    lemma_key_index(items, items[k].source_id, items[k].external_id);
    let r = key_index(items, items[k].source_id, items[k].external_id);
    if r == -1 {
        assert(!has_key(items[k], items[k].source_id, items[k].external_id));
    }
    if r != k {
        assert(!same_key(items[r], items[k]));
    }
}

proof fn lemma_key_index_same_keys(a: Seq<ItemView>, b: Seq<ItemView>, sid: i64, ext: Seq<char>)
    requires
        a.len() == b.len(),
        forall|k: int|
            0 <= k < a.len() ==> (#[trigger] a[k]).source_id == b[k].source_id && a[k].external_id
                == b[k].external_id,
    ensures
        key_index(a, sid, ext) == key_index(b, sid, ext),
    decreases a.len(),
{
    if a.len() > 0 {
        let a2 = a.drop_last();
        let b2 = b.drop_last();
        assert forall|k: int| 0 <= k < a2.len() implies (#[trigger] a2[k]).source_id
            == b2[k].source_id && a2[k].external_id == b2[k].external_id by {
            assert(a2[k] == a[k] && b2[k] == b[k]);
        }
        lemma_key_index_same_keys(a2, b2, sid, ext);
        assert(a.last() == a[a.len() - 1]);
    }
}

proof fn lemma_upsert_wf(db: DbView, sid: i64, ext: Seq<char>, f: FieldsView, now: i64)
    requires
        db_wf(db),
        upsert_outcome(db, sid, ext, f, now) is Ok,
    ensures
        db_wf(upsert_outcome(db, sid, ext, f, now)->Ok_0.0),
{
    lemma_key_index(db.items, sid, ext);
    let k = key_index(db.items, sid, ext);
    if k >= 0 {
        let nv = db.items.update(k, refreshed(db.items[k], f, now));
        assert forall|j: int, m: int|
            0 <= j < nv.len() && 0 <= m < nv.len() && j != m implies !same_key(
            #[trigger] nv[j],
            #[trigger] nv[m],
        ) by {
            assert(!same_key(db.items[j], db.items[m]));
        }
        assert forall|j: int, m: int| 0 <= j < m < nv.len() implies #[trigger] nv[j].id
            < #[trigger] nv[m].id by {
            assert(db.items[j].id < db.items[m].id);
        }
        assert forall|m: int| 0 <= m < nv.len() implies 1 <= #[trigger] nv[m].id
            < db.next_item_id by {
            assert(1 <= db.items[m].id < db.next_item_id);
        }
    } else {
        let nv = db.items.push(fresh_item(db.next_item_id, sid, ext, f, now));
        assert forall|j: int, m: int|
            0 <= j < nv.len() && 0 <= m < nv.len() && j != m implies !same_key(
            #[trigger] nv[j],
            #[trigger] nv[m],
        ) by {
            if j < db.items.len() && m < db.items.len() {
                assert(!same_key(db.items[j], db.items[m]));
            } else if j < db.items.len() {
                assert(!has_key(db.items[j], sid, ext));
            } else {
                assert(!has_key(db.items[m], sid, ext));
            }
        }
        assert forall|j: int, m: int| 0 <= j < m < nv.len() implies #[trigger] nv[j].id
            < #[trigger] nv[m].id by {
            if m < db.items.len() {
                assert(db.items[j].id < db.items[m].id);
            } else {
                assert(db.items[j].id < db.next_item_id);
            }
        }
        assert forall|m: int| 0 <= m < nv.len() implies 1 <= #[trigger] nv[m].id
            < db.next_item_id + 1 by {
            if m < db.items.len() {
                assert(1 <= db.items[m].id < db.next_item_id);
            }
        }
    }
}

proof fn lemma_event_wf(db: DbView, item_id: i64, kind: EventKind, t: Option<i64>, now: i64)
    requires
        db_wf(db),
        event_outcome(db, item_id, kind, t, now) is Ok,
    ensures
        db_wf(event_outcome(db, item_id, kind, t, now)->Ok_0.0),
        event_outcome(db, item_id, kind, t, now)->Ok_0.0.items == db.items,
{
    let nv = db.events.push(
        Event { id: db.next_event_id, item_id, kind, occurred_at: t, recorded_at: now },
    );
    assert forall|j: int, m: int| 0 <= j < m < nv.len() implies #[trigger] nv[j].id
        < #[trigger] nv[m].id by {
        if m < db.events.len() {
            assert(db.events[j].id < db.events[m].id);
        } else {
            assert(db.events[j].id < db.next_event_id);
        }
    }
    assert forall|m: int| 0 <= m < nv.len() implies 1 <= #[trigger] nv[m].id < db.next_event_id
        + 1 by {
        if m < db.events.len() {
            assert(1 <= db.events[m].id < db.next_event_id);
        }
    }
}

proof fn lemma_ingest_one_wf(db: DbView, sid: i64, v: IngestedView, now: i64)
    requires
        db_wf(db),
        ingest_one(db, sid, v, now) is Ok,
    ensures
        db_wf(ingest_one(db, sid, v, now)->Ok_0.0),
{
    lemma_upsert_wf(db, sid, v.external_id, fields_of(v), now);
    let (d1, id) = upsert_outcome(db, sid, v.external_id, fields_of(v), now)->Ok_0;
    if let Some(t) = v.occurred_at {
        lemma_event_wf(d1, id, EventKind::Ingested, Some(t), now);
    }
}

/// The fields of the last of the first `m` entries with an external id.
pub open spec fn last_fields(batch: Seq<IngestedView>, m: int, ext: Seq<char>) -> Option<FieldsView>
    decreases m,
{
    if m <= 0 {
        None
    } else if batch[m - 1].external_id == ext {
        Some(fields_of(batch[m - 1]))
    } else {
        last_fields(batch, m - 1, ext)
    }
}

proof fn lemma_last_fields_some(batch: Seq<IngestedView>, m: int, i: int)
    requires
        0 <= i < m <= batch.len(),
    ensures
        last_fields(batch, m, batch[i].external_id) is Some,
    decreases m,
{
    if batch[m - 1].external_id != batch[i].external_id {
        lemma_last_fields_some(batch, m - 1, i);
    }
}

/// After a batch is stored, each entry's item is found under its natural
/// key, has the returned id, and carries the fields of the last entry with
/// that external id.
proof fn lemma_first_pass(db: DbView, sid: i64, batch: Seq<IngestedView>, now: i64)
    requires
        db_wf(db),
        ingest_outcome(db, sid, batch, now) is Ok,
    ensures
        ({
            let (d, ids) = ingest_outcome(db, sid, batch, now)->Ok_0;
            &&& db_wf(d)
            &&& ids.len() == batch.len()
            &&& forall|i: int|
                0 <= i < batch.len() ==> {
                    let k = key_index(d.items, sid, (#[trigger] batch[i]).external_id);
                    &&& 0 <= k < d.items.len()
                    &&& d.items[k].id == ids[i]
                    &&& last_fields(batch, batch.len() as int, batch[i].external_id) is Some
                    &&& carries(
                        d.items[k],
                        last_fields(batch, batch.len() as int, batch[i].external_id)->0,
                    )
                }
        }),
    decreases batch.len(),
{
    if batch.len() > 0 {
        let pre = batch.drop_last();
        lemma_first_pass(db, sid, pre, now);
        let (d1, ids1) = ingest_outcome(db, sid, pre, now)->Ok_0;
        let v = batch.last();
        lemma_ingest_one_wf(d1, sid, v, now);
        let (d, id) = ingest_one(d1, sid, v, now)->Ok_0;
        let (du, uid) = upsert_outcome(d1, sid, v.external_id, fields_of(v), now)->Ok_0;
        lemma_upsert_wf(d1, sid, v.external_id, fields_of(v), now);
        lemma_key_index(d1.items, sid, v.external_id);
        let km = key_index(d1.items, sid, v.external_id);
        assert(d.items == du.items) by {
            if let Some(t) = v.occurred_at {
                lemma_event_wf(du, uid, EventKind::Ingested, Some(t), now);
            }
        }
        let ids = ids1.push(id);
        assert(ingest_outcome(db, sid, batch, now)->Ok_0 == (d, ids));
        let pos = if km >= 0 {
            km
        } else {
            d1.items.len() as int
        };
        assert(du.items[pos].source_id == sid && du.items[pos].external_id == v.external_id);
        lemma_key_index_unique(d.items, pos);
        let n = batch.len() as int;
        assert forall|i: int| 0 <= i < batch.len() implies {
            let k = key_index(d.items, sid, (#[trigger] batch[i]).external_id);
            &&& 0 <= k < d.items.len()
            &&& d.items[k].id == ids[i]
            &&& last_fields(batch, n, batch[i].external_id) is Some
            &&& carries(d.items[k], last_fields(batch, n, batch[i].external_id)->0)
        } by {
            lemma_last_fields_some(batch, n, i);
            if i < pre.len() {
                assert(pre[i] == batch[i]);
                let ki = key_index(d1.items, sid, pre[i].external_id);
                lemma_key_index(d1.items, sid, pre[i].external_id);
                assert(ids[i] == ids1[i]);
                if batch[i].external_id == v.external_id {
                    assert(ki == km);
                    assert(d.items[pos].id == d1.items[ki].id);
                } else {
                    assert(ki != pos);
                    assert(d.items[ki] == d1.items[ki]);
                    lemma_key_index_unique(d.items, ki);
                    assert forall|q: int| 0 <= q < pre.len() implies pre[q] == batch[q] by {}
                    lemma_last_fields_prefix(batch, n - 1, batch[i].external_id);
                }
            } else {
                assert(batch[i] == v);
            }
        }
    }
}

proof fn lemma_last_fields_prefix(batch: Seq<IngestedView>, m: int, ext: Seq<char>)
    requires
        0 <= m < batch.len(),
        batch[m].external_id != ext,
    ensures
        last_fields(batch, m + 1, ext) == last_fields(batch, m, ext),
        last_fields(batch.drop_last(), m, ext) == last_fields(batch, m, ext),
    decreases m,
{
    lemma_last_fields_drop(batch, m, ext);
}

proof fn lemma_last_fields_drop(batch: Seq<IngestedView>, m: int, ext: Seq<char>)
    requires
        0 <= m < batch.len(),
    ensures
        last_fields(batch.drop_last(), m, ext) == last_fields(batch, m, ext),
    decreases m,
{
    if m > 0 {
        assert(batch.drop_last()[m - 1] == batch[m - 1]);
        lemma_last_fields_drop(batch, m - 1, ext);
    }
}

/// What the second pass has made of an item after `m` entries.
pub open spec fn second_pass_item(it: ItemView, sid: i64, batch: Seq<IngestedView>, m: int, t2: i64) -> ItemView {
    if it.source_id == sid && last_fields(batch, m, it.external_id) is Some {
        refreshed(it, last_fields(batch, m, it.external_id)->0, t2)
    } else {
        it
    }
}

/// The second of two passes of a batch, after its first `m` entries.
proof fn lemma_second_pass(
    db: DbView,
    d1: DbView,
    sid: i64,
    batch: Seq<IngestedView>,
    ids1: Seq<i64>,
    t1: i64,
    t2: i64,
    m: int,
)
    requires
        db_wf(db),
        ingest_outcome(db, sid, batch, t1) == Ok::<(DbView, Seq<i64>), StoreError>((d1, ids1)),
        d1.next_event_id + batch.len() < i64::MAX,
        0 <= m <= batch.len(),
    ensures
        ingest_outcome(d1, sid, batch.subrange(0, m), t2) is Ok,
        ({
            let (e, ids) = ingest_outcome(d1, sid, batch.subrange(0, m), t2)->Ok_0;
            &&& db_wf(e)
            &&& ids == ids1.subrange(0, m)
            &&& e.items.len() == d1.items.len()
            &&& e.sources == d1.sources
            &&& e.secrets == d1.secrets
            &&& e.next_item_id == d1.next_item_id
            &&& e.next_event_id <= d1.next_event_id + m
            &&& forall|k: int|
                0 <= k < e.items.len() ==> #[trigger] e.items[k] == second_pass_item(
                    d1.items[k],
                    sid,
                    batch,
                    m,
                    t2,
                )
        }),
    decreases m,
{
    lemma_first_pass(db, sid, batch, t1);
    if m == 0 {
        assert(batch.subrange(0, 0) =~= Seq::<IngestedView>::empty());
        assert(ids1.subrange(0, 0) =~= Seq::<i64>::empty());
    } else {
        lemma_second_pass(db, d1, sid, batch, ids1, t1, t2, m - 1);
        let sub = batch.subrange(0, m);
        assert(sub.drop_last() =~= batch.subrange(0, m - 1));
        assert(sub.last() == batch[m - 1]);
        let (e, ids) = ingest_outcome(d1, sid, batch.subrange(0, m - 1), t2)->Ok_0;
        let v = batch[m - 1];
        let k = key_index(d1.items, sid, v.external_id);
        assert(0 <= k < d1.items.len() && d1.items[k].id == ids1[m - 1]);
        lemma_key_index(d1.items, sid, v.external_id);
        assert forall|q: int| 0 <= q < e.items.len() implies (#[trigger] e.items[q]).source_id
            == d1.items[q].source_id && e.items[q].external_id == d1.items[q].external_id by {
            assert(e.items[q] == second_pass_item(d1.items[q], sid, batch, m - 1, t2));
        }
        lemma_key_index_same_keys(e.items, d1.items, sid, v.external_id);
        assert(e.items[k] == second_pass_item(d1.items[k], sid, batch, m - 1, t2));
        let nv = e.items.update(k, refreshed(e.items[k], fields_of(v), t2));
        let (du, uid) = upsert_outcome(e, sid, v.external_id, fields_of(v), t2)->Ok_0;
        assert(du.items == nv && uid == d1.items[k].id);
        lemma_upsert_wf(e, sid, v.external_id, fields_of(v), t2);
        assert forall|q: int| 0 <= q < nv.len() implies #[trigger] nv[q] == second_pass_item(
            d1.items[q],
            sid,
            batch,
            m,
            t2,
        ) by {
            assert(e.items[q] == second_pass_item(d1.items[q], sid, batch, m - 1, t2));
            if q == k {
                assert(d1.items[q].external_id == v.external_id);
            } else {
                if d1.items[q].source_id == sid {
                    assert(!has_key(d1.items[q], sid, v.external_id)) by {
                        if has_key(d1.items[q], sid, v.external_id) {
                            assert(!same_key(d1.items[q], d1.items[k]));
                        }
                    }
                }
            }
        }
        if let Some(t) = v.occurred_at {
            lemma_event_wf(du, uid, EventKind::Ingested, Some(t), t2);
        }
        let (e2, ids2) = ingest_outcome(d1, sid, sub, t2)->Ok_0;
        assert(ids2 == ids.push(uid));
        assert(ids1.subrange(0, m) =~= ids1.subrange(0, m - 1).push(ids1[m - 1]));
    }
}

/// Storing the same batch twice: when the second sync of a source sees
/// exactly the entries of the first, it returns the same ids, keeps the
/// same items in the same places, and changes nothing about them but their
/// update time. Sources and secrets are untouched.
pub proof fn lemma_repeated_sync(db: DbView, sid: i64, batch: Seq<IngestedView>, t1: i64, t2: i64)
    requires
        db_wf(db),
        ingest_outcome(db, sid, batch, t1) is Ok,
        ingest_outcome(db, sid, batch, t1)->Ok_0.0.next_event_id + batch.len() < i64::MAX,
    ensures
        ({
            let (d1, ids1) = ingest_outcome(db, sid, batch, t1)->Ok_0;
            &&& ingest_outcome(d1, sid, batch, t2) is Ok
            &&& ({
                let (d2, ids2) = ingest_outcome(d1, sid, batch, t2)->Ok_0;
                &&& ids2 == ids1
                &&& d2.items.len() == d1.items.len()
                &&& d2.sources == d1.sources
                &&& d2.secrets == d1.secrets
                &&& forall|k: int|
                    0 <= k < d2.items.len() ==> same_but_updated(#[trigger] d2.items[k], d1.items[k])
            })
        }),
{
    let (d1, ids1) = ingest_outcome(db, sid, batch, t1)->Ok_0;
    lemma_first_pass(db, sid, batch, t1);
    lemma_second_pass(db, d1, sid, batch, ids1, t1, t2, batch.len() as int);
    assert(batch.subrange(0, batch.len() as int) =~= batch);
    assert(ids1.subrange(0, batch.len() as int) =~= ids1);
    let (d2, ids2) = ingest_outcome(d1, sid, batch, t2)->Ok_0;
    let n = batch.len() as int;
    assert forall|k: int| 0 <= k < d2.items.len() implies same_but_updated(
        #[trigger] d2.items[k],
        d1.items[k],
    ) by {
        assert(d2.items[k] == second_pass_item(d1.items[k], sid, batch, n, t2));
        let it = d1.items[k];
        if it.source_id == sid && last_fields(batch, n, it.external_id) is Some {
            let i = lemma_last_fields_index(batch, n, it.external_id);
            let ki = key_index(d1.items, sid, batch[i].external_id);
            lemma_key_index_unique(d1.items, k);
            assert(ki == k);
        }
    }
}

/// Where `last_fields` is some, an entry with that external id.
proof fn lemma_last_fields_index(batch: Seq<IngestedView>, m: int, ext: Seq<char>) -> (i: int)
    requires
        0 <= m <= batch.len(),
        last_fields(batch, m, ext) is Some,
    ensures
        0 <= i < m,
        batch[i].external_id == ext,
    decreases m,
{
    if batch[m - 1].external_id == ext {
        m - 1
    } else {
        lemma_last_fields_index(batch, m - 1, ext)
    }
}

} // verus!
