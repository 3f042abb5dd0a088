use vstd::prelude::*;

use crate::clock::{parse_rfc3339, rfc3339_seconds};
use crate::duration::{duration_reading, parse_ttl_duration};
use crate::model::opt_view;
use crate::store::{
    db_wf, lemma_secret_index, lemma_wf_secret_update, secret_index, secret_wf, Database, DbView,
    Secret, SecretView, SourceView, StoreError, TtlKind, MAX_REFRESH_FAILURES,
};

verus! {

/// When a secret created at `created_at` expires: never for `forever`;
/// after the duration `ttl_value` for `relative`; at the RFC 3339 instant
/// `ttl_value` for `absolute`. None where `ttl_value` is missing, unreadable
/// or the sum leaves the range of time.
pub open spec fn expiry_of(kind: TtlKind, ttl_value: Option<Seq<char>>, created_at: i64) -> Option<
    Option<i64>,
> {
    match kind {
        TtlKind::Forever => Some(None),
        TtlKind::Relative => match ttl_value {
            None => None,
            Some(v) => match duration_reading(v, true) {
                Ok(secs) => if created_at + secs <= i64::MAX {
                    Some(Some((created_at + secs) as i64))
                } else {
                    None
                },
                Err(_) => None,
            },
        },
        TtlKind::Absolute => match ttl_value {
            None => None,
            Some(v) => match rfc3339_seconds(v) {
                Some(t) => Some(Some(t)),
                None => None,
            },
        },
    }
}

/// The position of the last secret with a name, or -1.
pub open spec fn secret_by_name(secrets: Seq<SecretView>, name: Seq<char>) -> int
    decreases secrets.len(),
{
    if secrets.len() == 0 {
        -1
    } else if secrets.last().name == name {
        secrets.len() - 1
    } else {
        secret_by_name(secrets.drop_last(), name)
    }
}

pub proof fn lemma_secret_by_name(secrets: Seq<SecretView>, name: Seq<char>)
    ensures
        -1 <= secret_by_name(secrets, name) < secrets.len(),
        secret_by_name(secrets, name) >= 0 ==> secrets[secret_by_name(secrets, name)].name == name,
        secret_by_name(secrets, name) == -1 ==> !name_taken(secrets, name),
    decreases secrets.len(),
{
    if secrets.len() > 0 {
        lemma_secret_by_name(secrets.drop_last(), name);
        if secrets.last().name != name && secret_by_name(secrets, name) == -1 {
            assert forall|k: int| 0 <= k < secrets.len() implies (#[trigger] secrets[k]).name
                != name by {
                if k < secrets.len() - 1 {
                    assert(secrets.drop_last()[k] == secrets[k]);
                }
            }
        }
    }
}

pub open spec fn name_taken(secrets: Seq<SecretView>, name: Seq<char>) -> bool {
    exists|k: int| 0 <= k < secrets.len() && (#[trigger] secrets[k]).name == name
}

/// A secret expired at `now`: it now ends at a fixed instant.
pub open spec fn expired_at(s: SecretView, now: i64) -> SecretView {
    SecretView { ttl_kind: TtlKind::Absolute, expires_at: Some(now), updated_at: now, ..s }
}

pub open spec fn disabled_if_bound(s: SourceView, secret_id: i64, now: i64) -> SourceView {
    if s.secret_id == Some(secret_id) {
        SourceView { enabled: false, updated_at: now, ..s }
    } else {
        s
    }
}

/// Every source that uses a secret, disabled.
pub open spec fn disabled_for(sources: Seq<SourceView>, secret_id: i64, now: i64) -> Seq<SourceView> {
    sources.map_values(|s: SourceView| disabled_if_bound(s, secret_id, now))
}

pub open spec fn is_expired(s: SecretView, now: i64) -> bool {
    s.expires_at matches Some(t) && t <= now
}

/// The id of some secret that has expired by `now`.
pub open spec fn expired_id(secrets: Seq<SecretView>, id: i64, now: i64) -> bool {
    exists|k: int| 0 <= k < secrets.len() && secrets[k].id == id && is_expired(#[trigger] secrets[k], now)
}

/// What recording a failed refresh does to the store: the secret's count
/// goes up by one, at most to the limit; reaching it expires the secret and
/// disables every source that uses it.
pub open spec fn refresh_failure_outcome(db: DbView, k: int, now: i64) -> DbView {
    let s = db.secrets[k];
    let count = if s.refresh_failure_count < MAX_REFRESH_FAILURES {
        (s.refresh_failure_count + 1) as u32
    } else {
        s.refresh_failure_count
    };
    let counted = SecretView { refresh_failure_count: count, updated_at: now, ..s };
    if count >= MAX_REFRESH_FAILURES {
        DbView {
            secrets: db.secrets.update(k, expired_at(counted, now)),
            sources: disabled_for(db.sources, s.id, now),
            ..db
        }
    } else {
        DbView { secrets: db.secrets.update(k, counted), ..db }
    }
}

/// A secret whose lifetime is `forever` has no expiry, in every
/// well-formed store.
pub proof fn lemma_forever_has_no_expiry(db: DbView, k: int)
    requires
        db_wf(db),
        0 <= k < db.secrets.len(),
        db.secrets[k].ttl_kind == TtlKind::Forever,
    ensures
        db.secrets[k].expires_at is None,
{
    assert(secret_wf(db.secrets[k]));
}

fn expiry_from(kind: TtlKind, ttl_value: &Option<String>, created_at: i64) -> (r: Option<
    Option<i64>,
>)
    ensures
        r == expiry_of(kind, opt_view(*ttl_value), created_at),
{
    match kind {
        TtlKind::Forever => Some(None),
        TtlKind::Relative => match ttl_value {
            None => None,
            Some(v) => match parse_ttl_duration(v.as_str()) {
                Ok(secs) => {
                    let total: i128 = created_at as i128 + secs as i128;
                    if total <= i64::MAX as i128 {
                        Some(Some(total as i64))
                    } else {
                        None
                    }
                },
                Err(_) => None,
            },
        },
        TtlKind::Absolute => match ttl_value {
            None => None,
            Some(v) => match parse_rfc3339(v.as_str()) {
                Some(t) => Some(Some(t)),
                None => None,
            },
        },
    }
}

impl Database {
    /// Adds a secret with a unique name; its expiry is derived from its
    /// lifetime and `now`.
    pub fn create_secret(
        &mut self,
        name: String,
        ttl_kind: TtlKind,
        ttl_value: Option<String>,
        now: i64,
    ) -> (r: Result<i64, StoreError>)
        requires
            db_wf(old(self)@),
        ensures
            db_wf(final(self)@),
            match r {
                Ok(id) => {
                    &&& !name_taken(old(self)@.secrets, name@)
                    &&& expiry_of(ttl_kind, opt_view(ttl_value), now) is Some
                    &&& id == old(self)@.next_secret_id
                    &&& final(self)@ == (DbView {
                        secrets: old(self)@.secrets.push(
                            SecretView {
                                id,
                                name: name@,
                                ttl_kind,
                                ttl_value: opt_view(ttl_value),
                                expires_at: expiry_of(ttl_kind, opt_view(ttl_value), now)->0,
                                refresh_token_id: None,
                                refresh_failure_count: 0,
                                created_at: now,
                                updated_at: now,
                            },
                        ),
                        next_secret_id: (id + 1) as i64,
                        ..old(self)@
                    })
                },
                Err(e) => final(self)@ == old(self)@ && (if name_taken(old(self)@.secrets, name@) {
                    e == StoreError::NameTaken
                } else if expiry_of(ttl_kind, opt_view(ttl_value), now) is None {
                    e == StoreError::InvalidTtl
                } else {
                    e == StoreError::IdsExhausted && old(self)@.next_secret_id == i64::MAX
                }),
            },
    {
        let ghost old_v = self@;
        proof {
            self.lemma_view();
        }
        let mut i: usize = 0;
        while i < self.secrets.len()
            invariant
                old_v == self@,
                db_wf(old_v),
                old_v.secrets == self.secrets@.map_values(|s: Secret| s@),
                i <= self.secrets@.len(),
                forall|j: int| 0 <= j < i ==> (#[trigger] old_v.secrets[j]).name != name@,
            decreases self.secrets@.len() - i,
        {
            if self.secrets[i].name == name {
                assert(old_v.secrets[i as int].name == name@);
                return Err(StoreError::NameTaken);
            }
            i += 1;
        }
        let expiry = match expiry_from(ttl_kind, &ttl_value, now) {
            Some(x) => x,
            None => {
                return Err(StoreError::InvalidTtl);
            },
        };
        if self.next_secret_id == i64::MAX {
            return Err(StoreError::IdsExhausted);
        }
        let id = self.next_secret_id;
        let ghost tv = opt_view(ttl_value);
        let s = Secret {
            id,
            name,
            ttl_kind,
            ttl_value,
            expires_at: expiry,
            refresh_token_id: None,
            refresh_failure_count: 0,
            created_at: now,
            updated_at: now,
        };
        let ghost sv = s@;
        self.secrets.push(s);
        self.next_secret_id = id + 1;
        proof {
            self.lemma_view();
            let nv = old_v.secrets.push(sv);
            assert(self@.secrets =~= nv);
            assert forall|j: int, m: int| 0 <= j < m < nv.len() implies #[trigger] nv[j].id
                < #[trigger] nv[m].id by {
                if m < old_v.secrets.len() {
                    assert(old_v.secrets[j].id < old_v.secrets[m].id);
                } else {
                    assert(old_v.secrets[j].id < old_v.next_secret_id);
                }
            }
            assert forall|m: int| 0 <= m < nv.len() implies 1 <= #[trigger] nv[m].id
                < self@.next_secret_id && secret_wf(nv[m]) by {
                if m < old_v.secrets.len() {
                    assert(old_v.secrets[m].id < old_v.next_secret_id);
                    assert(secret_wf(old_v.secrets[m]));
                }
            }
        }
        Ok(id)
    }

    /// The secret with an id.
    pub fn get_secret(&self, id: i64) -> (r: Result<Secret, StoreError>)
        ensures
            match r {
                Ok(s) => secret_index(self@.secrets, id) >= 0 && s@ == self@.secrets[secret_index(
                    self@.secrets,
                    id,
                )],
                Err(e) => secret_index(self@.secrets, id) == -1 && e == StoreError::NotFound,
            },
    {
        proof {
            self.lemma_view();
            lemma_secret_index(self@.secrets, id);
        }
        match self.find_secret(id) {
            Some(k) => Ok(self.secrets[k].copy()),
            None => Err(StoreError::NotFound),
        }
    }

    fn replace_secret(&mut self, k: usize, s: Secret)
        requires
            db_wf(old(self)@),
            k < old(self)@.secrets.len(),
            s.id == old(self)@.secrets[k as int].id,
            secret_wf(s@),
        ensures
            db_wf(final(self)@),
            final(self)@ == (DbView { secrets: old(self)@.secrets.update(k as int, s@), ..old(self)@ }),
    {
        let ghost old_v = self@;
        let ghost sv = s@;
        proof {
            self.lemma_view();
        }
        self.secrets.remove(k);
        self.secrets.insert(k, s);
        proof {
            self.lemma_view();
            assert(self@.secrets =~= old_v.secrets.update(k as int, sv));
            lemma_wf_secret_update(old_v, k as int, sv);
        }
    }

    fn secret_at(&self, k: usize) -> (r: Secret)
        requires
            k < self@.secrets.len(),
        ensures
            r@ == self@.secrets[k as int],
    {
        proof {
            self.lemma_view();
        }
        self.secrets[k].copy()
    }

    /// Marks a secret as expired at `now`.
    pub fn expire_secret(&mut self, id: i64, now: i64) -> (r: Result<(), StoreError>)
        requires
            db_wf(old(self)@),
        ensures
            db_wf(final(self)@),
            match r {
                Ok(_) => {
                    let k = secret_index(old(self)@.secrets, id);
                    k >= 0 && final(self)@ == (DbView {
                        secrets: old(self)@.secrets.update(k, expired_at(old(self)@.secrets[k], now)),
                        ..old(self)@
                    })
                },
                Err(e) => secret_index(old(self)@.secrets, id) == -1 && e == StoreError::NotFound
                    && final(self)@ == old(self)@,
            },
    {
        proof {
            self.lemma_view();
            lemma_secret_index(self@.secrets, id);
        }
        let k = match self.find_secret(id) {
            Some(k) => k,
            None => {
                return Err(StoreError::NotFound);
            },
        };
        let mut s = self.secret_at(k);
        proof {
            assert(secret_wf(self@.secrets[k as int]));
        }
        s.ttl_kind = TtlKind::Absolute;
        s.expires_at = Some(now);
        s.updated_at = now;
        self.replace_secret(k, s);
        Ok(())
    }

    /// Adds one to a secret's failed-refresh count, at most up to the limit,
    /// and returns the new count.
    pub fn increment_refresh_failure_count(&mut self, id: i64, now: i64) -> (r: Result<
        u32,
        StoreError,
    >)
        requires
            db_wf(old(self)@),
        ensures
            db_wf(final(self)@),
            match r {
                Ok(count) => {
                    let k = secret_index(old(self)@.secrets, id);
                    let s = old(self)@.secrets[k];
                    &&& k >= 0
                    &&& count == (if s.refresh_failure_count < MAX_REFRESH_FAILURES {
                        s.refresh_failure_count + 1
                    } else {
                        s.refresh_failure_count as int
                    })
                    &&& final(self)@ == (DbView {
                        secrets: old(self)@.secrets.update(
                            k,
                            SecretView { refresh_failure_count: count, updated_at: now, ..s },
                        ),
                        ..old(self)@
                    })
                },
                Err(e) => secret_index(old(self)@.secrets, id) == -1 && e == StoreError::NotFound
                    && final(self)@ == old(self)@,
            },
    {
        proof {
            self.lemma_view();
            lemma_secret_index(self@.secrets, id);
        }
        let k = match self.find_secret(id) {
            Some(k) => k,
            None => {
                return Err(StoreError::NotFound);
            },
        };
        let mut s = self.secret_at(k);
        proof {
            assert(secret_wf(self@.secrets[k as int]));
        }
        if s.refresh_failure_count < MAX_REFRESH_FAILURES {
            s.refresh_failure_count = s.refresh_failure_count + 1;
        }
        s.updated_at = now;
        let count = s.refresh_failure_count;
        self.replace_secret(k, s);
        Ok(count)
    }

    /// Sets a secret's failed-refresh count back to zero.
    pub fn reset_refresh_failure_count(&mut self, id: i64, now: i64) -> (r: Result<(), StoreError>)
        requires
            db_wf(old(self)@),
        ensures
            db_wf(final(self)@),
            match r {
                Ok(_) => {
                    let k = secret_index(old(self)@.secrets, id);
                    k >= 0 && final(self)@ == (DbView {
                        secrets: old(self)@.secrets.update(
                            k,
                            SecretView {
                                refresh_failure_count: 0,
                                updated_at: now,
                                ..old(self)@.secrets[k]
                            },
                        ),
                        ..old(self)@
                    })
                },
                Err(e) => secret_index(old(self)@.secrets, id) == -1 && e == StoreError::NotFound
                    && final(self)@ == old(self)@,
            },
    {
        proof {
            self.lemma_view();
            lemma_secret_index(self@.secrets, id);
        }
        let k = match self.find_secret(id) {
            Some(k) => k,
            None => {
                return Err(StoreError::NotFound);
            },
        };
        let mut s = self.secret_at(k);
        proof {
            assert(secret_wf(self@.secrets[k as int]));
        }
        s.refresh_failure_count = 0;
        s.updated_at = now;
        self.replace_secret(k, s);
        Ok(())
    }

    pub(crate) fn secret_id_at(&self, k: usize) -> (r: i64)
        requires
            k < self@.secrets.len(),
        ensures
            r == self@.secrets[k as int].id,
    {
        proof {
            self.lemma_view();
        }
        self.secrets[k].id
    }

    /// Records whether the vault holds a refresh token for a secret.
    pub fn set_refresh_marker(&mut self, id: i64, has_refresh: bool, now: i64) -> (r: Result<
        (),
        StoreError,
    >)
        requires
            db_wf(old(self)@),
        ensures
            db_wf(final(self)@),
            match r {
                Ok(_) => {
                    let k = secret_index(old(self)@.secrets, id);
                    k >= 0 && final(self)@ == (DbView {
                        secrets: old(self)@.secrets.update(
                            k,
                            SecretView {
                                refresh_token_id: if has_refresh {
                                    Some(id)
                                } else {
                                    None
                                },
                                updated_at: now,
                                ..old(self)@.secrets[k]
                            },
                        ),
                        ..old(self)@
                    })
                },
                Err(e) => secret_index(old(self)@.secrets, id) == -1 && e == StoreError::NotFound
                    && final(self)@ == old(self)@,
            },
    {
        proof {
            self.lemma_view();
            lemma_secret_index(self@.secrets, id);
        }
        let k = match self.find_secret(id) {
            Some(k) => k,
            None => {
                return Err(StoreError::NotFound);
            },
        };
        let mut s = self.secret_at(k);
        proof {
            assert(secret_wf(self@.secrets[k as int]));
        }
        s.refresh_token_id = if has_refresh {
            Some(id)
        } else {
            None
        };
        s.updated_at = now;
        self.replace_secret(k, s);
        Ok(())
    }

    /// The position of the last secret with a name.
    pub(crate) fn find_secret_by_name(&self, name: &String) -> (r: Option<usize>)
        ensures
            r matches Some(k) ==> secret_by_name(self@.secrets, name@) == k,
            r is None ==> secret_by_name(self@.secrets, name@) == -1,
    {
        proof {
            self.lemma_view();
        }
        let ghost v = self@.secrets;
        assert(v.subrange(0, v.len() as int) =~= v);
        let mut i: usize = self.secrets.len();
        while i > 0
            invariant
                i <= self.secrets@.len(),
                v == self@.secrets,
                v == self.secrets@.map_values(|s: Secret| s@),
                secret_by_name(v, name@) == secret_by_name(v.subrange(0, i as int), name@),
            decreases i,
        {
            assert(v.subrange(0, i as int).last() == v[i - 1]);
            if self.secrets[i - 1].name == *name {
                return Some(i - 1);
            }
            assert(v.subrange(0, i as int).drop_last() =~= v.subrange(0, i - 1));
            i -= 1;
        }
        None
    }

    /// Disables every source that uses a secret; returns how many sources
    /// use it.
    pub fn disable_sources_for_secret(&mut self, secret_id: i64, now: i64) -> (r: usize)
        requires
            db_wf(old(self)@),
        ensures
            db_wf(final(self)@),
            final(self)@ == (DbView {
                sources: disabled_for(old(self)@.sources, secret_id, now),
                ..old(self)@
            }),
    {
        let ghost old_v = self@;
        proof {
            self.lemma_view();
        }
        let mut count: usize = 0;
        let mut i: usize = 0;
        while i < self.sources.len()
            invariant
                i <= self.sources@.len(),
                self.sources@.len() == old_v.sources.len(),
                count <= i,
                old_v.sources == old(self)@.sources,
                forall|j: int|
                    0 <= j < i ==> (#[trigger] self.sources@[j])@ == disabled_if_bound(
                        old_v.sources[j],
                        secret_id,
                        now,
                    ),
                forall|j: int|
                    i <= j < self.sources@.len() ==> (#[trigger] self.sources@[j])@
                        == old_v.sources[j],
                self.items == old(self).items,
                self.events == old(self).events,
                self.secrets == old(self).secrets,
                self.next_source_id == old(self).next_source_id,
                self.next_item_id == old(self).next_item_id,
                self.next_event_id == old(self).next_event_id,
                self.next_secret_id == old(self).next_secret_id,
            decreases self.sources@.len() - i,
        {
            if self.sources[i].secret_id == Some(secret_id) {
                let mut s = self.sources.remove(i);
                s.enabled = false;
                s.updated_at = now;
                self.sources.insert(i, s);
                count += 1;
            }
            i += 1;
        }
        proof {
            self.lemma_view();
            let nv = disabled_for(old_v.sources, secret_id, now);
            assert(self@.sources =~= nv);
            assert forall|j: int, m: int| 0 <= j < m < nv.len() implies #[trigger] nv[j].id
                < #[trigger] nv[m].id by {
                assert(old_v.sources[j].id < old_v.sources[m].id);
            }
            assert forall|m: int| 0 <= m < nv.len() implies 1 <= #[trigger] nv[m].id
                < old_v.next_source_id by {
                assert(1 <= old_v.sources[m].id < old_v.next_source_id);
            }
        }
        count
    }

    /// Records a failed token refresh for a secret and returns the new
    /// count. When the count reaches the limit the secret is expired at
    /// `now` and every source that uses it is disabled.
    pub fn record_refresh_failure(&mut self, secret_id: i64, now: i64) -> (r: Result<
        u32,
        StoreError,
    >)
        requires
            db_wf(old(self)@),
        ensures
            db_wf(final(self)@),
            match r {
                Ok(count) => {
                    let k = secret_index(old(self)@.secrets, secret_id);
                    &&& k >= 0
                    &&& final(self)@ == refresh_failure_outcome(old(self)@, k, now)
                    &&& count == final(self)@.secrets[k].refresh_failure_count
                },
                Err(e) => secret_index(old(self)@.secrets, secret_id) == -1 && e
                    == StoreError::NotFound && final(self)@ == old(self)@,
            },
    {
        let ghost old_v = self@;
        proof {
            lemma_secret_index(old_v.secrets, secret_id);
        }
        let count = match self.increment_refresh_failure_count(secret_id, now) {
            Ok(c) => c,
            Err(e) => {
                return Err(e);
            },
        };
        let ghost k = secret_index(old_v.secrets, secret_id);
        if count >= MAX_REFRESH_FAILURES {
            let ghost mid = self@;
            match self.expire_secret(secret_id, now) {
                Ok(_) => {},
                Err(e) => {
                    proof {
                        lemma_secret_index(mid.secrets, secret_id);
                        assert(mid.secrets[k].id == secret_id);
                    }
                    return Err(e);
                },
            }
            proof {
                lemma_secret_index(mid.secrets, secret_id);
                assert(mid.secrets[k].id == secret_id);
                assert(secret_index(mid.secrets, secret_id) == k) by {
                    if secret_index(mid.secrets, secret_id) != k {
                        let j = secret_index(mid.secrets, secret_id);
                        if j < k {
                            assert(mid.secrets[j].id < mid.secrets[k].id);
                        } else {
                            assert(mid.secrets[k].id < mid.secrets[j].id);
                        }
                    }
                }
            }
            self.disable_sources_for_secret(secret_id, now);
            proof {
                assert(old_v.secrets[k].id == secret_id);
                assert(self@.secrets =~= refresh_failure_outcome(old_v, k, now).secrets);
            }
        }
        Ok(count)
    }

    /// Expires every secret whose failed-refresh count has reached the limit,
    /// and disables the sources that use it.
    pub fn expire_exhausted_secrets(&mut self, now: i64)
        requires
            db_wf(old(self)@),
        ensures
            db_wf(final(self)@),
            final(self)@.secrets.len() == old(self)@.secrets.len(),
            forall|k: int|
                0 <= k < old(self)@.secrets.len()
                    && old(self)@.secrets[k].refresh_failure_count >= MAX_REFRESH_FAILURES ==> {
                    &&& (#[trigger] final(self)@.secrets[k]).expires_at == Some(now)
                    &&& forall|j: int|
                        0 <= j < final(self)@.sources.len() && final(self)@.sources[j].secret_id
                            == Some(old(self)@.secrets[k].id) ==> !(
                        #[trigger] final(self)@.sources[j]).enabled
                },
            forall|k: int|
                0 <= k < old(self)@.secrets.len()
                    && old(self)@.secrets[k].refresh_failure_count < MAX_REFRESH_FAILURES ==> (
                #[trigger] final(self)@.secrets[k]) == old(self)@.secrets[k],
            final(self)@.sources.len() == old(self)@.sources.len(),
            forall|j: int|
                0 <= j < final(self)@.sources.len() ==> (#[trigger] final(self)@.sources[j]).id
                    == old(self)@.sources[j].id && final(self)@.sources[j].secret_id == old(
                    self,
                )@.sources[j].secret_id,
    {
        let ghost old_v = self@;
        proof {
            self.lemma_view();
        }
        let mut i: usize = 0;
        while i < self.secrets.len()
            invariant
                db_wf(self@),
                i <= self@.secrets.len(),
                self@.secrets.len() == old_v.secrets.len(),
                self@.sources.len() == old_v.sources.len(),
                self@.secrets.len() == self.secrets@.len(),
                forall|j: int|
                    0 <= j < self@.secrets.len() ==> (#[trigger] self@.secrets[j]).id
                        == old_v.secrets[j].id && self@.secrets[j].refresh_failure_count
                        == old_v.secrets[j].refresh_failure_count,
                forall|j: int|
                    0 <= j < self@.sources.len() ==> (#[trigger] self@.sources[j]).id
                        == old_v.sources[j].id && self@.sources[j].secret_id
                        == old_v.sources[j].secret_id,
                forall|k: int|
                    0 <= k < i && old_v.secrets[k].refresh_failure_count >= MAX_REFRESH_FAILURES
                        ==> {
                        &&& (#[trigger] self@.secrets[k]).expires_at == Some(now)
                        &&& forall|j: int|
                            0 <= j < self@.sources.len() && self@.sources[j].secret_id == Some(
                                old_v.secrets[k].id,
                            ) ==> !(#[trigger] self@.sources[j]).enabled
                    },
                forall|k: int|
                    i <= k < old_v.secrets.len() || (0 <= k < i
                        && old_v.secrets[k].refresh_failure_count < MAX_REFRESH_FAILURES) ==> (
                    #[trigger] self@.secrets[k]) == old_v.secrets[k],
            decreases old_v.secrets.len() - i,
        {
            let ghost before = self@;
            proof {
                self.lemma_view();
            }
            let s = self.secret_at(i);
            if s.refresh_failure_count >= MAX_REFRESH_FAILURES {
                let id = s.id;
                proof {
                    lemma_secret_index(before.secrets, id);
                    assert(secret_index(before.secrets, id) == i) by {
                        let j = secret_index(before.secrets, id);
                        if j != i {
                            if j < i {
                                assert(before.secrets[j].id < before.secrets[i as int].id);
                            } else {
                                assert(before.secrets[i as int].id < before.secrets[j].id);
                            }
                        }
                    }
                }
                let _ = self.expire_secret(id, now);
                let ghost mid = self@;
                self.disable_sources_for_secret(id, now);
                proof {
                    assert forall|j: int|
                        0 <= j < self@.sources.len() implies (#[trigger] self@.sources[j]).id
                            == old_v.sources[j].id && self@.sources[j].secret_id
                            == old_v.sources[j].secret_id by {
                        assert(self@.sources[j] == disabled_if_bound(mid.sources[j], id, now));
                    }
                    assert forall|k: int|
                        0 <= k < i + 1 && old_v.secrets[k].refresh_failure_count
                            >= MAX_REFRESH_FAILURES implies {
                            &&& (#[trigger] self@.secrets[k]).expires_at == Some(now)
                            &&& forall|j: int|
                                0 <= j < self@.sources.len() && self@.sources[j].secret_id == Some(
                                    old_v.secrets[k].id,
                                ) ==> !(#[trigger] self@.sources[j]).enabled
                        } by {
                        assert forall|j: int|
                            0 <= j < self@.sources.len() && self@.sources[j].secret_id == Some(
                                old_v.secrets[k].id,
                            ) implies !(#[trigger] self@.sources[j]).enabled by {
                            assert(self@.sources[j] == disabled_if_bound(mid.sources[j], id, now));
                            if k < i {
                                assert(!before.sources[j].enabled);
                            }
                        }
                    }
                }
            }
            proof {
                self.lemma_view();
            }
            i += 1;
        }
    }

    /// The ids of the secrets whose expiry is at or before `now`.
    pub fn get_expired_secrets(&self, now: i64) -> (r: Vec<i64>)
        ensures
            forall|j: int| 0 <= j < r@.len() ==> expired_id(self@.secrets, #[trigger] r@[j], now),
            forall|k: int|
                0 <= k < self@.secrets.len() && is_expired(#[trigger] self@.secrets[k], now)
                    ==> r@.contains(self@.secrets[k].id),
    {
        proof {
            self.lemma_view();
        }
        let mut r: Vec<i64> = Vec::new();
        let mut i: usize = 0;
        while i < self.secrets.len()
            invariant
                i <= self.secrets@.len(),
                self@.secrets == self.secrets@.map_values(|s: Secret| s@),
                forall|j: int| 0 <= j < r@.len() ==> expired_id(self@.secrets, #[trigger] r@[j], now),
                forall|k: int|
                    0 <= k < i && is_expired(#[trigger] self@.secrets[k], now) ==> r@.contains(
                        self@.secrets[k].id,
                    ),
            decreases self.secrets@.len() - i,
        {
            let expired = match self.secrets[i].expires_at {
                Some(t) => t <= now,
                None => false,
            };
            assert(expired == is_expired(self@.secrets[i as int], now));
            if expired {
                let ghost before = r@;
                let id = self.secrets[i].id;
                r.push(id);
                assert(r@ =~= before.push(id));
                assert(expired_id(self@.secrets, id, now)) by {
                    assert(self@.secrets[i as int].id == id);
                }
                assert forall|j: int| 0 <= j < r@.len() implies expired_id(
                    self@.secrets,
                    #[trigger] r@[j],
                    now,
                ) by {
                    if j < before.len() {
                        assert(r@[j] == before[j]);
                    }
                }
                assert forall|k: int|
                    0 <= k < i + 1 && is_expired(#[trigger] self@.secrets[k], now) implies r@.contains(
                    self@.secrets[k].id,
                ) by {
                    if k < i {
                        let q = choose|q: int| 0 <= q < before.len() && before[q] == self@.secrets[k].id;
                        assert(r@[q] == before[q]);
                    } else {
                        assert(r@[before.len() as int] == id);
                    }
                }
            }
            i += 1;
        }
        r
    }
}

} // verus!
