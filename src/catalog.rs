use vstd::prelude::*;

use crate::model::opt_view;
use crate::store::{
    archived_word, db_wf, lemma_secret_index, lemma_source_index, lemma_wf_source_update, same_key,
    secret_index, secret_wf, source_index, Database, DbView, Event, Item, ItemView, Secret,
    SecretView, Source, SourceView, StoreError,
};

verus! {

/// Which items a purge removes.
#[derive(Debug, Clone, Copy, PartialEq, Eq, Structural)]
pub enum Purge {
    /// The items of one source.
    OfSource(i64),
    /// Items created before a cutoff time, unless archived.
    OlderThan(i128),
}

pub open spec fn doomed(it: ItemView, p: Purge) -> bool {
    match p {
        Purge::OfSource(id) => it.source_id == id,
        Purge::OlderThan(cutoff) => it.state != archived_word() && (it.created_at as int) < cutoff,
    }
}

pub open spec fn spared(p: Purge) -> spec_fn(ItemView) -> bool {
    |it: ItemView| !doomed(it, p)
}

/// The ids of the items that a purge removes, in order.
pub open spec fn dropped_ids(items: Seq<ItemView>, p: Purge) -> Seq<i64> {
    items.filter(|it: ItemView| doomed(it, p)).map_values(|it: ItemView| it.id)
}

pub open spec fn event_spared(items: Seq<ItemView>, p: Purge) -> spec_fn(Event) -> bool {
    |e: Event| !dropped_ids(items, p).contains(e.item_id)
}

/// What a purge does: the doomed items go, and the events keyed to them.
pub open spec fn purge_outcome(db: DbView, p: Purge) -> DbView {
    DbView {
        items: db.items.filter(spared(p)),
        events: db.events.filter(event_spared(db.items, p)),
        ..db
    }
}

pub open spec fn other_source(id: i64) -> spec_fn(SourceView) -> bool {
    |s: SourceView| s.id != id
}

/// Deleting a source: it goes, with its items and their events.
pub open spec fn delete_source_outcome(db: DbView, id: i64) -> DbView {
    DbView { sources: db.sources.filter(other_source(id)), ..purge_outcome(db, Purge::OfSource(id)) }
}

pub open spec fn opt_texts_view(o: Option<Vec<String>>) -> Option<Seq<Seq<char>>> {
    match o {
        Some(g) => Some(g.deep_view()),
        None => None,
    }
}

/// A new, enabled source that has never synced.
pub open spec fn fresh_source(
    id: i64,
    source_type: Seq<char>,
    name: Seq<char>,
    config_json: Seq<char>,
    groups: Seq<Seq<char>>,
    secret_id: Option<i64>,
    now: i64,
) -> SourceView {
    SourceView {
        id,
        source_type,
        name,
        config_json,
        enabled: true,
        last_synced_at: None,
        secret_id,
        groups,
        created_at: now,
        updated_at: now,
    }
}

/// A source with the given fields replaced; its update time moves to `now`
/// only where some field is given.
pub open spec fn edited_source(
    s: SourceView,
    name: Option<Seq<char>>,
    config_json: Option<Seq<char>>,
    enabled: Option<bool>,
    groups: Option<Seq<Seq<char>>>,
    now: i64,
) -> SourceView {
    SourceView {
        name: match name {
            Some(n) => n,
            None => s.name,
        },
        config_json: match config_json {
            Some(c) => c,
            None => s.config_json,
        },
        enabled: match enabled {
            Some(e) => e,
            None => s.enabled,
        },
        groups: match groups {
            Some(g) => g,
            None => s.groups,
        },
        updated_at: if name is Some || config_json is Some || enabled is Some || groups is Some {
            now
        } else {
            s.updated_at
        },
        ..s
    }
}

pub open spec fn other_secret(id: i64) -> spec_fn(SecretView) -> bool {
    |s: SecretView| s.id != id
}

/// The earliest creation time that retention keeps, `days` days before `now`.
pub open spec fn retention_cutoff(days: u64, now: i64) -> int {
    now - days * 86400
}

pub(crate) proof fn lemma_filter_step<A>(s: Seq<A>, i: int, pred: spec_fn(A) -> bool)
    requires
        0 <= i < s.len(),
    ensures
        s.subrange(0, i + 1).filter(pred) == (if pred(s[i]) {
            s.subrange(0, i).filter(pred).push(s[i])
        } else {
            s.subrange(0, i).filter(pred)
        }),
{
    reveal(Seq::filter);
    assert(s.subrange(0, i + 1).drop_last() =~= s.subrange(0, i));
}

/// A subsequence chosen by a filter keeps a strictly increasing key
/// strictly increasing, and holds only elements of the sequence it filters.
proof fn lemma_filter_ordered<A>(s: Seq<A>, pred: spec_fn(A) -> bool, key: spec_fn(A) -> int)
    requires
        forall|j: int, k: int| 0 <= j < k < s.len() ==> key(s[j]) < key(s[k]),
    ensures
        forall|j: int, k: int|
            0 <= j < k < s.filter(pred).len() ==> key(s.filter(pred)[j]) < key(s.filter(pred)[k]),
        forall|j: int|
            0 <= j < s.filter(pred).len() ==> exists|m: int|
                0 <= m < s.len() && s[m] == #[trigger] s.filter(pred)[j],
    decreases s.len(),
{
    reveal(Seq::filter);
    if s.len() > 0 {
        let t = s.drop_last();
        assert forall|j: int, k: int| 0 <= j < k < t.len() implies key(t[j]) < key(t[k]) by {
            assert(t[j] == s[j] && t[k] == s[k]);
        }
        lemma_filter_ordered(t, pred, key);
        let f = t.filter(pred);
        assert forall|j: int| 0 <= j < f.len() implies key(f[j]) < key(s.last()) by {
            let m = choose|m: int| 0 <= m < t.len() && t[m] == #[trigger] f[j];
            assert(s[m] == f[j]);
        }
        assert forall|j: int| 0 <= j < s.filter(pred).len() implies exists|m: int|
            0 <= m < s.len() && s[m] == #[trigger] s.filter(pred)[j] by {
            if j < f.len() {
                let m = choose|m: int| 0 <= m < t.len() && t[m] == #[trigger] f[j];
                assert(s[m] == s.filter(pred)[j]);
            } else {
                assert(s[s.len() - 1] == s.filter(pred)[j]);
            }
        }
    }
}

/// A purge keeps the store well-formed.
proof fn lemma_purge_wf(db: DbView, p: Purge)
    requires
        db_wf(db),
    ensures
        db_wf(purge_outcome(db, p)),
{
    let items = db.items.filter(spared(p));
    let events = db.events.filter(event_spared(db.items, p));
    lemma_filter_ordered(db.items, spared(p), |it: ItemView| it.id as int);
    lemma_filter_ordered(db.events, event_spared(db.items, p), |e: Event| e.id as int);
    assert forall|k: int| 0 <= k < items.len() implies 1 <= #[trigger] items[k].id
        < db.next_item_id by {
        let m = choose|m: int| 0 <= m < db.items.len() && db.items[m] == #[trigger] items[k];
        assert(1 <= db.items[m].id < db.next_item_id);
    }
    assert forall|j: int, k: int|
        0 <= j < items.len() && 0 <= k < items.len() && j != k implies !same_key(
        #[trigger] items[j],
        #[trigger] items[k],
    ) by {
        let a = choose|m: int| 0 <= m < db.items.len() && db.items[m] == #[trigger] items[j];
        let b = choose|m: int| 0 <= m < db.items.len() && db.items[m] == #[trigger] items[k];
        if a != b {
            assert(!same_key(db.items[a], db.items[b]));
        } else {
            if j < k {
                assert(items[j].id < items[k].id);
            } else {
                assert(items[k].id < items[j].id);
            }
        }
    }
    assert forall|k: int| 0 <= k < events.len() implies 1 <= #[trigger] events[k].id
        < db.next_event_id by {
        let m = choose|m: int| 0 <= m < db.events.len() && db.events[m] == #[trigger] events[k];
        assert(1 <= db.events[m].id < db.next_event_id);
    }
}

/// Retention spares archived items: an item whose state is `archived` is
/// still in the store after any retention purge, unchanged.
pub proof fn lemma_retention_spares_archived(db: DbView, cutoff: i128, k: int)
    requires
        0 <= k < db.items.len(),
        db.items[k].state == archived_word(),
    ensures
        purge_outcome(db, Purge::OlderThan(cutoff)).items.contains(db.items[k]),
{
    broadcast use Seq::lemma_filter_contains;

    assert(spared(Purge::OlderThan(cutoff))(db.items[k]));
}

impl Database {
    /// Removes the items that a purge selects, and the events keyed to them.
    fn purge(&mut self, p: Purge) -> (r: usize)
        requires
            db_wf(old(self)@),
        ensures
            db_wf(final(self)@),
            final(self)@ == purge_outcome(old(self)@, p),
            r == old(self)@.items.len() - final(self)@.items.len(),
    {
        let ghost old_v = self@;
        proof {
            self.lemma_view();
        }
        let archived = String::from_str("archived");
        proof {
            reveal_strlit("archived");
            assert(archived@ =~= archived_word());
        }
        let mut kept: Vec<Item> = Vec::new();
        let mut dropped: Vec<i64> = Vec::new();
        let mut i: usize = 0;
        let ghost doomed_pred = |it: ItemView| doomed(it, p);
        assert(old_v.items.subrange(0, 0) =~= Seq::<ItemView>::empty());
        proof {
            reveal(Seq::filter);
        }
        while i < self.items.len()
            invariant
                old_v == self@,
                archived@ == archived_word(),
                doomed_pred == (|it: ItemView| doomed(it, p)),
                i <= self.items@.len(),
                old_v.items.len() == self.items@.len(),
                old_v.items == self.items@.map_values(|it: Item| it@),
                kept@.map_values(|it: Item| it@) == old_v.items.subrange(0, i as int).filter(
                    spared(p),
                ),
                dropped@ == old_v.items.subrange(0, i as int).filter(doomed_pred).map_values(
                    |it: ItemView| it.id,
                ),
            decreases self.items@.len() - i,
        {
            let it = &self.items[i];
            assert(old_v.items[i as int] == self.items@[i as int]@);
            let gone = match p {
                Purge::OfSource(id) => it.source_id == id,
                Purge::OlderThan(cutoff) => !(it.state == archived) && (it.created_at as i128)
                    < cutoff,
            };
            assert(gone == doomed(it@, p));
            proof {
                lemma_filter_step(old_v.items, i as int, spared(p));
                lemma_filter_step(old_v.items, i as int, doomed_pred);
            }
            let ghost kept_before = kept@;
            let ghost dropped_before = dropped@;
            if gone {
                dropped.push(it.id);
                assert(dropped@ =~= old_v.items.subrange(0, i + 1).filter(doomed_pred).map_values(
                    |it: ItemView| it.id,
                ));
            } else {
                kept.push(it.copy());
                assert(kept@.map_values(|it: Item| it@) =~= kept_before.map_values(|it: Item| it@).push(
                    old_v.items[i as int],
                ));
            }
            i += 1;
        }
        assert(old_v.items.subrange(0, i as int) =~= old_v.items);
        let ghost gone_ids = dropped_ids(old_v.items, p);
        assert(dropped@ == gone_ids);
        let mut kept_events: Vec<Event> = Vec::new();
        let mut j: usize = 0;
        assert(old_v.events.subrange(0, 0) =~= Seq::<Event>::empty());
        while j < self.events.len()
            invariant
                old_v == self@,
                dropped@ == gone_ids,
                gone_ids == dropped_ids(old_v.items, p),
                j <= self.events@.len(),
                old_v.events == self.events@,
                kept_events@ == old_v.events.subrange(0, j as int).filter(
                    event_spared(old_v.items, p),
                ),
            decreases self.events@.len() - j,
        {
            let e = self.events[j];
            let mut hit = false;
            let mut m: usize = 0;
            while m < dropped.len()
                invariant
                    m <= dropped@.len(),
                    hit == exists|q: int| 0 <= q < m && dropped@[q] == e.item_id,
                decreases dropped@.len() - m,
            {
                if dropped[m] == e.item_id {
                    hit = true;
                }
                m += 1;
            }
            assert(hit == dropped@.contains(e.item_id));
            proof {
                lemma_filter_step(old_v.events, j as int, event_spared(old_v.items, p));
            }
            if !hit {
                kept_events.push(e);
            }
            j += 1;
        }
        assert(old_v.events.subrange(0, j as int) =~= old_v.events);
        let removed = self.items.len() - kept.len();
        proof {
            old_v.items.lemma_filter_len(spared(p));
        }
        self.items = kept;
        self.events = kept_events;
        proof {
            self.lemma_view();
            lemma_purge_wf(old_v, p);
            assert(self@.sources == old_v.sources);
            assert(self@.secrets == old_v.secrets);
            assert(self@ == purge_outcome(old_v, p));
        }
        removed
    }

    /// Adds an enabled source and returns its id.
    pub fn create_source(
        &mut self,
        source_type: String,
        name: String,
        config_json: String,
        groups: Vec<String>,
        secret_id: Option<i64>,
        now: i64,
    ) -> (r: Result<i64, StoreError>)
        requires
            db_wf(old(self)@),
        ensures
            db_wf(final(self)@),
            match r {
                Ok(id) => old(self)@.next_source_id < i64::MAX && id == old(self)@.next_source_id
                    && final(self)@ == (DbView {
                    sources: old(self)@.sources.push(
                        fresh_source(
                            id,
                            source_type@,
                            name@,
                            config_json@,
                            groups.deep_view(),
                            secret_id,
                            now,
                        ),
                    ),
                    next_source_id: (id + 1) as i64,
                    ..old(self)@
                }),
                Err(e) => old(self)@.next_source_id == i64::MAX && e == StoreError::IdsExhausted
                    && final(self)@ == old(self)@,
            },
    {
        let ghost old_v = self@;
        proof {
            self.lemma_view();
        }
        if self.next_source_id == i64::MAX {
            return Err(StoreError::IdsExhausted);
        }
        let id = self.next_source_id;
        let ghost gv = groups.deep_view();
        self.sources.push(
            Source {
                id,
                source_type,
                name,
                config_json,
                enabled: true,
                last_synced_at: None,
                secret_id,
                groups,
                created_at: now,
                updated_at: now,
            },
        );
        self.next_source_id = id + 1;
        proof {
            self.lemma_view();
            let nv = old_v.sources.push(
                fresh_source(id, source_type@, name@, config_json@, gv, secret_id, now),
            );
            assert(self@.sources =~= nv);
            assert forall|j: int, m: int| 0 <= j < m < nv.len() implies #[trigger] nv[j].id
                < #[trigger] nv[m].id by {
                if m < old_v.sources.len() {
                    assert(old_v.sources[j].id < old_v.sources[m].id);
                } else {
                    assert(old_v.sources[j].id < old_v.next_source_id);
                }
            }
            assert forall|m: int| 0 <= m < nv.len() implies 1 <= #[trigger] nv[m].id
                < self@.next_source_id by {
                if m < old_v.sources.len() {
                    assert(old_v.sources[m].id < old_v.next_source_id);
                }
            }
        }
        Ok(id)
    }

    /// All sources, in the order they were added.
    pub fn get_all_sources(&self) -> (r: Vec<Source>)
        ensures
            r@.map_values(|s: Source| s@) == self@.sources,
    {
        proof {
            self.lemma_view();
        }
        let mut r: Vec<Source> = Vec::new();
        let mut i: usize = 0;
        while i < self.sources.len()
            invariant
                i <= self.sources@.len(),
                self@.sources == self.sources@.map_values(|s: Source| s@),
                r@.map_values(|s: Source| s@) == self@.sources.subrange(0, i as int),
            decreases self.sources@.len() - i,
        {
            let ghost before = r@;
            r.push(self.sources[i].copy());
            assert(r@.map_values(|s: Source| s@) =~= before.map_values(|s: Source| s@).push(
                self@.sources[i as int],
            ));
            i += 1;
            assert(self@.sources.subrange(0, i as int) =~= self@.sources.subrange(0, i - 1).push(
                self@.sources[i - 1],
            ));
        }
        assert(self@.sources.subrange(0, i as int) =~= self@.sources);
        r
    }

    /// The source with an id.
    pub fn get_source(&self, id: i64) -> (r: Result<Source, StoreError>)
        ensures
            match r {
                Ok(s) => source_index(self@.sources, id) >= 0 && s@ == self@.sources[source_index(
                    self@.sources,
                    id,
                )],
                Err(e) => source_index(self@.sources, id) == -1 && e == StoreError::NotFound,
            },
    {
        proof {
            self.lemma_view();
            lemma_source_index(self@.sources, id);
        }
        match self.find_source(id) {
            Some(k) => Ok(self.sources[k].copy()),
            None => Err(StoreError::NotFound),
        }
    }

    /// Changes the given fields of a source.
    pub fn update_source(
        &mut self,
        id: i64,
        name: Option<String>,
        config_json: Option<String>,
        enabled: Option<bool>,
        groups: Option<Vec<String>>,
        now: i64,
    ) -> (r: Result<(), StoreError>)
        requires
            db_wf(old(self)@),
        ensures
            db_wf(final(self)@),
            match r {
                Ok(_) => {
                    let k = source_index(old(self)@.sources, id);
                    k >= 0 && final(self)@ == (DbView {
                        sources: old(self)@.sources.update(
                            k,
                            edited_source(
                                old(self)@.sources[k],
                                opt_view(name),
                                opt_view(config_json),
                                enabled,
                                opt_texts_view(groups),
                                now,
                            ),
                        ),
                        ..old(self)@
                    })
                },
                Err(e) => source_index(old(self)@.sources, id) == -1 && e == StoreError::NotFound
                    && final(self)@ == old(self)@,
            },
    {
        let ghost old_v = self@;
        let ghost gv = opt_texts_view(groups);
        proof {
            self.lemma_view();
            lemma_source_index(old_v.sources, id);
        }
        let k = match self.find_source(id) {
            Some(k) => k,
            None => {
                return Err(StoreError::NotFound);
            },
        };
        let ghost nv = edited_source(
            old_v.sources[k as int],
            opt_view(name),
            opt_view(config_json),
            enabled,
            gv,
            now,
        );
        let any = name.is_some() || config_json.is_some() || enabled.is_some() || groups.is_some();
        let mut s = self.sources.remove(k);
        assert(s@ == old_v.sources[k as int]);
        match name {
            Some(n) => {
                s.name = n;
            },
            None => {},
        }
        match config_json {
            Some(c) => {
                s.config_json = c;
            },
            None => {},
        }
        match enabled {
            Some(e) => {
                s.enabled = e;
            },
            None => {},
        }
        match groups {
            Some(g) => {
                s.groups = g;
            },
            None => {},
        }
        if any {
            s.updated_at = now;
        }
        assert(s@ == nv);
        self.sources.insert(k, s);
        proof {
            self.lemma_view();
            assert(self@.sources =~= old_v.sources.update(k as int, nv));
            lemma_wf_source_update(old_v, k as int, nv);
        }
        Ok(())
    }

    /// Records that a source was synced at `now`.
    pub fn update_source_sync_time(&mut self, id: i64, now: i64) -> (r: Result<(), StoreError>)
        requires
            db_wf(old(self)@),
        ensures
            db_wf(final(self)@),
            match r {
                Ok(_) => {
                    let k = source_index(old(self)@.sources, id);
                    k >= 0 && final(self)@ == (DbView {
                        sources: old(self)@.sources.update(
                            k,
                            SourceView { last_synced_at: Some(now), ..old(self)@.sources[k] },
                        ),
                        ..old(self)@
                    })
                },
                Err(e) => source_index(old(self)@.sources, id) == -1 && e == StoreError::NotFound
                    && final(self)@ == old(self)@,
            },
    {
        let ghost old_v = self@;
        proof {
            self.lemma_view();
            lemma_source_index(old_v.sources, id);
        }
        let k = match self.find_source(id) {
            Some(k) => k,
            None => {
                return Err(StoreError::NotFound);
            },
        };
        let mut s = self.sources.remove(k);
        assert(s@ == old_v.sources[k as int]);
        s.last_synced_at = Some(now);
        let ghost nv = s@;
        self.sources.insert(k, s);
        proof {
            self.lemma_view();
            assert(self@.sources =~= old_v.sources.update(k as int, nv));
            lemma_wf_source_update(old_v, k as int, nv);
        }
        Ok(())
    }

    /// Deletes a source, its items and their events.
    pub fn delete_source(&mut self, id: i64) -> (r: Result<(), StoreError>)
        requires
            db_wf(old(self)@),
        ensures
            db_wf(final(self)@),
            match r {
                Ok(_) => source_index(old(self)@.sources, id) >= 0 && final(self)@
                    == delete_source_outcome(old(self)@, id),
                Err(e) => source_index(old(self)@.sources, id) == -1 && e == StoreError::NotFound
                    && final(self)@ == old(self)@,
            },
    {
        proof {
            self.lemma_view();
            lemma_source_index(self@.sources, id);
        }
        if self.find_source(id).is_none() {
            return Err(StoreError::NotFound);
        }
        self.purge(Purge::OfSource(id));
        let ghost mid = self@;
        proof {
            self.lemma_view();
            reveal(Seq::filter);
        }
        let mut kept: Vec<Source> = Vec::new();
        let mut i: usize = 0;
        assert(mid.sources.subrange(0, 0) =~= Seq::<SourceView>::empty());
        while i < self.sources.len()
            invariant
                mid == self@,
                mid.sources == self.sources@.map_values(|s: Source| s@),
                i <= self.sources@.len(),
                kept@.map_values(|s: Source| s@) == mid.sources.subrange(0, i as int).filter(
                    other_source(id),
                ),
            decreases self.sources@.len() - i,
        {
            proof {
                lemma_filter_step(mid.sources, i as int, other_source(id));
            }
            let ghost before = kept@;
            if self.sources[i].id != id {
                kept.push(self.sources[i].copy());
                assert(kept@.map_values(|s: Source| s@) =~= before.map_values(|s: Source| s@).push(
                    mid.sources[i as int],
                ));
            }
            i += 1;
        }
        assert(mid.sources.subrange(0, i as int) =~= mid.sources);
        self.sources = kept;
        proof {
            self.lemma_view();
            lemma_filter_ordered(mid.sources, other_source(id), |s: SourceView| s.id as int);
            let v = mid.sources.filter(other_source(id));
            assert forall|k: int| 0 <= k < v.len() implies 1 <= #[trigger] v[k].id
                < mid.next_source_id by {
                let m = choose|m: int| 0 <= m < mid.sources.len() && mid.sources[m] == #[trigger] v[k];
                assert(1 <= mid.sources[m].id < mid.next_source_id);
            }
        }
        Ok(())
    }

    /// Makes a source use a secret, or none.
    pub fn set_source_secret(&mut self, id: i64, secret_id: Option<i64>, now: i64) -> (r: Result<
        (),
        StoreError,
    >)
        requires
            db_wf(old(self)@),
        ensures
            db_wf(final(self)@),
            match r {
                Ok(_) => {
                    let k = source_index(old(self)@.sources, id);
                    k >= 0 && final(self)@ == (DbView {
                        sources: old(self)@.sources.update(
                            k,
                            SourceView { secret_id, updated_at: now, ..old(self)@.sources[k] },
                        ),
                        ..old(self)@
                    })
                },
                Err(e) => source_index(old(self)@.sources, id) == -1 && e == StoreError::NotFound
                    && final(self)@ == old(self)@,
            },
    {
        let ghost old_v = self@;
        proof {
            self.lemma_view();
            lemma_source_index(old_v.sources, id);
        }
        let k = match self.find_source(id) {
            Some(k) => k,
            None => {
                return Err(StoreError::NotFound);
            },
        };
        let mut s = self.sources.remove(k);
        assert(s@ == old_v.sources[k as int]);
        s.secret_id = secret_id;
        s.updated_at = now;
        let ghost nv = s@;
        self.sources.insert(k, s);
        proof {
            self.lemma_view();
            assert(self@.sources =~= old_v.sources.update(k as int, nv));
            lemma_wf_source_update(old_v, k as int, nv);
        }
        Ok(())
    }

    /// Deletes a secret. Sources that used it keep its id and can no longer
    /// sync until they get another.
    pub fn delete_secret(&mut self, id: i64) -> (r: Result<(), StoreError>)
        requires
            db_wf(old(self)@),
        ensures
            db_wf(final(self)@),
            match r {
                Ok(_) => secret_index(old(self)@.secrets, id) >= 0 && final(self)@ == (DbView {
                    secrets: old(self)@.secrets.filter(other_secret(id)),
                    ..old(self)@
                }),
                Err(e) => secret_index(old(self)@.secrets, id) == -1 && e == StoreError::NotFound
                    && final(self)@ == old(self)@,
            },
    {
        let ghost old_v = self@;
        proof {
            self.lemma_view();
            lemma_secret_index(old_v.secrets, id);
        }
        if self.find_secret(id).is_none() {
            return Err(StoreError::NotFound);
        }
        proof {
            reveal(Seq::filter);
        }
        let mut kept: Vec<Secret> = Vec::new();
        let mut i: usize = 0;
        assert(old_v.secrets.subrange(0, 0) =~= Seq::<SecretView>::empty());
        while i < self.secrets.len()
            invariant
                old_v == self@,
                old_v.secrets == self.secrets@.map_values(|s: Secret| s@),
                i <= self.secrets@.len(),
                kept@.map_values(|s: Secret| s@) == old_v.secrets.subrange(0, i as int).filter(
                    other_secret(id),
                ),
            decreases self.secrets@.len() - i,
        {
            proof {
                lemma_filter_step(old_v.secrets, i as int, other_secret(id));
            }
            let ghost before = kept@;
            if self.secrets[i].id != id {
                kept.push(self.secrets[i].copy());
                assert(kept@.map_values(|s: Secret| s@) =~= before.map_values(|s: Secret| s@).push(
                    old_v.secrets[i as int],
                ));
            }
            i += 1;
        }
        assert(old_v.secrets.subrange(0, i as int) =~= old_v.secrets);
        self.secrets = kept;
        proof {
            self.lemma_view();
            lemma_filter_ordered(old_v.secrets, other_secret(id), |s: SecretView| s.id as int);
            let v = old_v.secrets.filter(other_secret(id));
            assert forall|k: int| 0 <= k < v.len() implies 1 <= #[trigger] v[k].id
                < old_v.next_secret_id && secret_wf(v[k]) by {
                let m = choose|m: int| 0 <= m < old_v.secrets.len() && old_v.secrets[m] == #[trigger] v[k];
                assert(1 <= old_v.secrets[m].id < old_v.next_secret_id);
                assert(secret_wf(old_v.secrets[m]));
            }
        }
        Ok(())
    }

    /// Deletes the items created more than `days` days before `now`, except
    /// archived ones, with their events; returns how many items went.
    pub fn cleanup_old_items(&mut self, days: u64, now: i64) -> (r: usize)
        requires
            db_wf(old(self)@),
        ensures
            db_wf(final(self)@),
            final(self)@ == purge_outcome(old(self)@, Purge::OlderThan(retention_cutoff(days, now) as i128)),
            r == old(self)@.items.len() - final(self)@.items.len(),
    {
        let cutoff: i128 = now as i128 - (days as i128) * 86400;
        self.purge(Purge::OlderThan(cutoff))
    }
}

} // verus!
