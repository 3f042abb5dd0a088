use vstd::prelude::*;

use crate::duration::{duration_reading, parse_duration, DEFAULT_INTERVAL_SECS};
use crate::form::{get_text_member, json_members, read_json_object, text_member};
use crate::secrets::{
    disabled_for, disabled_if_bound, expired_at, is_expired, lemma_secret_by_name, name_taken,
    refresh_failure_outcome, secret_by_name,
};
use crate::store::{
    db_wf, lemma_secret_index, lemma_source_index, lemma_wf_secret_update, secret_index,
    secret_wf, source_index, Database, DbView, SecretView, Source, SourceView, StoreError, TtlKind,
    MAX_REFRESH_FAILURES,
};
use crate::text::{decimal_text, push_decimal};
use crate::vault::{vault_get, vault_put, SecretStore, TokenPair, TokenView};

verus! {

/// Why a sync of a source cannot go on.
#[derive(Debug, Clone, Copy, PartialEq, Eq, Structural)]
pub enum SyncError {
    /// No source has that id.
    SourceNotFound,
    /// The source's kind needs a credential and it has none, or its secret is gone.
    MissingCredential,
    /// The source's credential has expired: the user must authorize again.
    ReauthorizeRequired,
}

pub open spec fn needs_credential(kind: Seq<char>) -> bool {
    kind == "github"@ || kind == "github_notifications"@
}

/// Whether a sync of a source may start at `now`, and with which secret.
pub open spec fn precheck_outcome(db: DbView, source_id: i64, now: i64) -> Result<
    Option<i64>,
    SyncError,
> {
    let k = source_index(db.sources, source_id);
    if k < 0 {
        Err(SyncError::SourceNotFound)
    } else {
        match db.sources[k].secret_id {
            Some(sid) => {
                let j = secret_index(db.secrets, sid);
                if j < 0 {
                    Err(SyncError::MissingCredential)
                } else if is_expired(db.secrets[j], now) {
                    Err(SyncError::ReauthorizeRequired)
                } else {
                    Ok(Some(sid))
                }
            },
            None => if needs_credential(db.sources[k].source_type) {
                Err(SyncError::MissingCredential)
            } else {
                Ok(None)
            },
        }
    }
}

/// Checks a source before a sync: it must exist, and a source that needs a
/// credential must have an unexpired secret. Returns the secret's id.
pub fn sync_precheck(db: &Database, source_id: i64, now: i64) -> (r: Result<Option<i64>, SyncError>)
    ensures
        r == precheck_outcome(db@, source_id, now),
{
    let source = match db.get_source(source_id) {
        Ok(s) => s,
        Err(_) => {
            return Err(SyncError::SourceNotFound);
        },
    };
    match source.secret_id {
        Some(sid) => match db.get_secret(sid) {
            Ok(secret) => {
                let expired = match secret.expires_at {
                    Some(t) => t <= now,
                    None => false,
                };
                if expired {
                    Err(SyncError::ReauthorizeRequired)
                } else {
                    Ok(Some(sid))
                }
            },
            Err(_) => Err(SyncError::MissingCredential),
        },
        None => {
            let gh = String::from_str("github");
            let ghn = String::from_str("github_notifications");
            if source.source_type == gh || source.source_type == ghn {
                Err(SyncError::MissingCredential)
            } else {
                Ok(None)
            }
        },
    }
}

/// What a sync does after an ingest attempt.
#[derive(Debug, Clone, Copy, PartialEq, Eq, Structural)]
pub enum SyncStep {
    /// Store the items.
    Store,
    /// Refresh the token, then ingest once more.
    RefreshAndRetry,
    /// Give up on this sync.
    Fail,
}

/// How an ingest attempt ended.
#[derive(Debug, Clone, Copy, PartialEq, Eq, Structural)]
pub enum IngestStatus {
    Succeeded,
    /// The server refused the credential (HTTP 401).
    Unauthorized,
    Failed,
}

/// The decision after an ingest attempt: a refusal of the credential on the
/// first attempt of a credentialed source leads to one refresh and retry;
/// any other failure ends the sync.
pub open spec fn next_step(first_attempt: bool, status: IngestStatus, has_secret: bool) -> SyncStep {
    match status {
        IngestStatus::Succeeded => SyncStep::Store,
        IngestStatus::Unauthorized => if first_attempt && has_secret {
            SyncStep::RefreshAndRetry
        } else {
            SyncStep::Fail
        },
        IngestStatus::Failed => SyncStep::Fail,
    }
}

pub fn after_ingest(first_attempt: bool, status: IngestStatus, has_secret: bool) -> (r: SyncStep)
    ensures
        r == next_step(first_attempt, status, has_secret),
{
    match status {
        IngestStatus::Succeeded => SyncStep::Store,
        IngestStatus::Unauthorized => {
            if first_attempt && has_secret {
                SyncStep::RefreshAndRetry
            } else {
                SyncStep::Fail
            }
        },
        IngestStatus::Failed => SyncStep::Fail,
    }
}

/// The token pair kept after a refresh: the new access token, and the new
/// refresh token or, where the answer has none, the one stored before.
pub open spec fn refreshed_pair(stored: Option<TokenView>, fresh: TokenView) -> TokenView {
    TokenView {
        access_token: fresh.access_token,
        refresh_token: match fresh.refresh_token {
            Some(r) => Some(r),
            None => match stored {
                Some(t) => t.refresh_token,
                None => None,
            },
        },
    }
}

/// Records a successful refresh: both tokens are replaced in the vault and
/// the secret's failure count is reset.
pub fn apply_refresh_success(
    db: &mut Database,
    vault: &mut SecretStore,
    secret_id: i64,
    fresh: &TokenPair,
    now: i64,
) -> (r: Result<(), StoreError>)
    requires
        db_wf(old(db)@),
    ensures
        db_wf(final(db)@),
        match r {
            Ok(_) => {
                let k = secret_index(old(db)@.secrets, secret_id);
                &&& k >= 0
                &&& final(db)@ == (DbView {
                    secrets: old(db)@.secrets.update(
                        k,
                        SecretView {
                            refresh_failure_count: 0,
                            updated_at: now,
                            ..old(db)@.secrets[k]
                        },
                    ),
                    ..old(db)@
                })
                &&& final(vault)@ == vault_put(
                    old(vault)@,
                    secret_id,
                    refreshed_pair(vault_get(old(vault)@, secret_id), fresh@),
                )
            },
            Err(e) => e == StoreError::NotFound && secret_index(old(db)@.secrets, secret_id) == -1
                && final(db)@ == old(db)@ && final(vault)@ == old(vault)@,
        },
{
    match db.reset_refresh_failure_count(secret_id, now) {
        Ok(_) => {},
        Err(e) => {
            return Err(e);
        },
    }
    let refresh = match &fresh.refresh_token {
        Some(t) => Some(t.clone()),
        None => vault.get_refresh_token(secret_id),
    };
    match &refresh {
        Some(t) => vault.set_tokens(secret_id, fresh.access_token.as_str(), Some(t.as_str())),
        None => vault.set_tokens(secret_id, fresh.access_token.as_str(), None),
    }
    Ok(())
}

/// Records a failed refresh: see `Database::record_refresh_failure`.
pub fn apply_refresh_failure(db: &mut Database, secret_id: i64, now: i64) -> (r: Result<
    u32,
    StoreError,
>)
    requires
        db_wf(old(db)@),
    ensures
        db_wf(final(db)@),
        match r {
            Ok(count) => {
                let k = secret_index(old(db)@.secrets, secret_id);
                &&& k >= 0
                &&& final(db)@ == refresh_failure_outcome(old(db)@, k, now)
                &&& count == final(db)@.secrets[k].refresh_failure_count
            },
            Err(e) => secret_index(old(db)@.secrets, secret_id) == -1 && e == StoreError::NotFound
                && final(db)@ == old(db)@,
        },
{
    db.record_refresh_failure(secret_id, now)
}

proof fn lemma_source_index_of(sources: Seq<SourceView>, j: int)
    requires
        0 <= j < sources.len(),
        forall|a: int, b: int|
            0 <= a < b < sources.len() ==> #[trigger] sources[a].id < #[trigger] sources[b].id,
    ensures
        source_index(sources, sources[j].id) == j,
{
    lemma_source_index(sources, sources[j].id);
    let i = source_index(sources, sources[j].id);
    if i != j {
        if i < j {
            assert(sources[i].id < sources[j].id);
        } else {
            assert(sources[j].id < sources[i].id);
        }
    }
}

proof fn lemma_secret_index_of(secrets: Seq<SecretView>, j: int)
    requires
        0 <= j < secrets.len(),
        forall|a: int, b: int|
            0 <= a < b < secrets.len() ==> #[trigger] secrets[a].id < #[trigger] secrets[b].id,
    ensures
        secret_index(secrets, secrets[j].id) == j,
{
    lemma_secret_index(secrets, secrets[j].id);
    let i = secret_index(secrets, secrets[j].id);
    if i != j {
        if i < j {
            assert(secrets[i].id < secrets[j].id);
        } else {
            assert(secrets[j].id < secrets[i].id);
        }
    }
}

/// A failed refresh keeps the store well-formed.
pub proof fn lemma_refresh_failure_wf(db: DbView, k: int, now: i64)
    requires
        db_wf(db),
        0 <= k < db.secrets.len(),
    ensures
        db_wf(refresh_failure_outcome(db, k, now)),
        refresh_failure_outcome(db, k, now).secrets.len() == db.secrets.len(),
        refresh_failure_outcome(db, k, now).secrets[k].id == db.secrets[k].id,
        refresh_failure_outcome(db, k, now).sources.len() == db.sources.len(),
        forall|j: int|
            0 <= j < db.sources.len() ==> (#[trigger] refresh_failure_outcome(db, k, now).sources[j]).id
                == db.sources[j].id && refresh_failure_outcome(db, k, now).sources[j].secret_id
                == db.sources[j].secret_id,
{
    let s = db.secrets[k];
    assert(secret_wf(s));
    let count = if s.refresh_failure_count < MAX_REFRESH_FAILURES {
        (s.refresh_failure_count + 1) as u32
    } else {
        s.refresh_failure_count
    };
    let counted = SecretView { refresh_failure_count: count, updated_at: now, ..s };
    if count >= MAX_REFRESH_FAILURES {
        lemma_wf_secret_update(db, k, expired_at(counted, now));
        let d1 = DbView { secrets: db.secrets.update(k, expired_at(counted, now)), ..db };
        let v = disabled_for(db.sources, s.id, now);
        assert forall|a: int, b: int| 0 <= a < b < v.len() implies #[trigger] v[a].id
            < #[trigger] v[b].id by {
            assert(db.sources[a].id < db.sources[b].id);
        }
        assert forall|m: int| 0 <= m < v.len() implies 1 <= #[trigger] v[m].id < db.next_source_id by {
            assert(1 <= db.sources[m].id < db.next_source_id);
        }
    } else {
        lemma_wf_secret_update(db, k, counted);
    }
}

/// Three failed refreshes in a row exhaust a secret: whatever its count
/// was, after the third failure (at time `t3`, no later than `now`) its
/// count is at the limit, it has expired, every source that uses it is
/// disabled, and a sync of any such source stops with `ReauthorizeRequired`.
pub proof fn lemma_refresh_exhaustion(db: DbView, k: int, t1: i64, t2: i64, t3: i64, now: i64)
    requires
        db_wf(db),
        0 <= k < db.secrets.len(),
        t3 <= now,
    ensures
        ({
            let d3 = refresh_failure_outcome(
                refresh_failure_outcome(refresh_failure_outcome(db, k, t1), k, t2),
                k,
                t3,
            );
            &&& d3.secrets[k].refresh_failure_count == MAX_REFRESH_FAILURES
            &&& d3.secrets[k].expires_at == Some(t3)
            &&& forall|j: int|
                0 <= j < d3.sources.len() && d3.sources[j].secret_id == Some(db.secrets[k].id)
                    ==> !(#[trigger] d3.sources[j]).enabled && precheck_outcome(
                    d3,
                    d3.sources[j].id,
                    now,
                ) == Err::<Option<i64>, SyncError>(SyncError::ReauthorizeRequired)
        }),
{
    let id = db.secrets[k].id;
    lemma_refresh_failure_wf(db, k, t1);
    let d1 = refresh_failure_outcome(db, k, t1);
    lemma_refresh_failure_wf(d1, k, t2);
    let d2 = refresh_failure_outcome(d1, k, t2);
    lemma_refresh_failure_wf(d2, k, t3);
    let d3 = refresh_failure_outcome(d2, k, t3);
    assert(secret_wf(db.secrets[k]));
    assert(d3.secrets[k].refresh_failure_count == MAX_REFRESH_FAILURES);
    assert(d3.sources == disabled_for(d2.sources, id, t3));
    assert forall|j: int|
        0 <= j < d3.sources.len() && d3.sources[j].secret_id == Some(db.secrets[k].id) implies !(
        #[trigger] d3.sources[j]).enabled && precheck_outcome(d3, d3.sources[j].id, now) == Err::<
        Option<i64>,
        SyncError,
    >(SyncError::ReauthorizeRequired) by {
        assert(d3.sources[j] == disabled_if_bound(d2.sources[j], id, t3));
        lemma_source_index_of(d3.sources, j);
        lemma_secret_index_of(d3.secrets, k);
    }
}

/// The name of the secret that the device flow fills.
pub open spec fn device_flow_secret_name() -> Seq<char> {
    "GitHub Device Flow Token"@
}

/// Stores the tokens that a device flow produced: into the secret named for
/// the device flow where one exists, else into a new secret that lives
/// forever. The vault then holds both tokens under the secret's id, and the
/// secret records whether a refresh token is there. Returns the secret's id.
pub fn save_device_flow_tokens(db: &mut Database, vault: &mut SecretStore, pair: &TokenPair, now: i64) -> (r:
    Result<i64, StoreError>)
    requires
        db_wf(old(db)@),
    ensures
        db_wf(final(db)@),
        match r {
            Ok(id) => {
                let k = secret_by_name(old(db)@.secrets, device_flow_secret_name());
                &&& final(vault)@ == vault_put(old(vault)@, id, pair@)
                &&& k >= 0 ==> id == old(db)@.secrets[k].id && final(db)@.secrets.len()
                    == old(db)@.secrets.len()
                &&& k < 0 ==> id == old(db)@.next_secret_id && final(db)@.secrets.len()
                    == old(db)@.secrets.len() + 1
                &&& secret_index(final(db)@.secrets, id) >= 0
                &&& final(db)@.secrets[secret_index(final(db)@.secrets, id)].refresh_token_id == (
                if pair.refresh_token is Some {
                    Some(id)
                } else {
                    None
                })
            },
            Err(e) => e == StoreError::IdsExhausted && secret_by_name(
                old(db)@.secrets,
                device_flow_secret_name(),
            ) < 0 && old(db)@.next_secret_id == i64::MAX && final(vault)@ == old(vault)@,
        },
{
    let name = String::from_str("GitHub Device Flow Token");
    proof {
        lemma_secret_by_name(db@.secrets, name@);
    }
    let id = match db.find_secret_by_name(&name) {
        Some(k) => db.secret_id_at(k),
        None => {
            let ghost n = name@;
            match db.create_secret(name, TtlKind::Forever, None, now) {
                Ok(id) => id,
                Err(e) => {
                    assert(n == device_flow_secret_name());
                    return Err(e);
                },
            }
        },
    };
    let ghost mid = db@;
    proof {
        lemma_secret_index(mid.secrets, id);
        if secret_by_name(old(db)@.secrets, device_flow_secret_name()) < 0 {
            assert(mid.secrets[mid.secrets.len() - 1].id == id);
            lemma_secret_index_of(mid.secrets, mid.secrets.len() - 1);
        } else {
            lemma_secret_index_of(mid.secrets, secret_by_name(old(db)@.secrets, device_flow_secret_name()));
        }
    }
    let has_refresh = pair.refresh_token.is_some();
    match db.set_refresh_marker(id, has_refresh, now) {
        Ok(_) => {},
        Err(e) => {
            proof {
                lemma_secret_index(mid.secrets, id);
            }
            return Err(e);
        },
    }
    match &pair.refresh_token {
        Some(t) => vault.set_tokens(id, pair.access_token.as_str(), Some(t.as_str())),
        None => vault.set_tokens(id, pair.access_token.as_str(), None),
    }
    proof {
        lemma_secret_index(db@.secrets, id);
        lemma_secret_index_of(db@.secrets, secret_index(mid.secrets, id));
    }
    Ok(id)
}

/// The name of the secret that holds a token moved in for a source.
pub open spec fn adopted_name(source_id: i64) -> Seq<char> {
    "Source "@ + decimal_text(source_id as nat) + " token"@
}

/// Moves a token kept for one source into the vault: a new secret that
/// lives forever, named after the source, holds it, and the source uses it
/// from then on. Returns the secret's id.
pub fn adopt_source_token(
    db: &mut Database,
    vault: &mut SecretStore,
    source_id: i64,
    token: &str,
    now: i64,
) -> (r: Result<i64, StoreError>)
    requires
        db_wf(old(db)@),
    ensures
        db_wf(final(db)@),
        match r {
            Ok(id) => {
                let k = source_index(old(db)@.sources, source_id);
                &&& k >= 0
                &&& !name_taken(old(db)@.secrets, adopted_name(source_id))
                &&& id == old(db)@.next_secret_id
                &&& final(db)@.secrets.len() == old(db)@.secrets.len() + 1
                &&& final(db)@.secrets.last().name == adopted_name(source_id)
                &&& final(db)@.sources == old(db)@.sources.update(
                    k,
                    SourceView { secret_id: Some(id), updated_at: now, ..old(db)@.sources[k] },
                )
                &&& final(vault)@ == vault_put(
                    old(vault)@,
                    id,
                    TokenView { access_token: token@, refresh_token: None },
                )
            },
            Err(e) => {
                &&& final(vault)@ == old(vault)@
                &&& final(db)@ == old(db)@
                &&& if source_index(old(db)@.sources, source_id) == -1 {
                    e == StoreError::NotFound
                } else if name_taken(old(db)@.secrets, adopted_name(source_id)) {
                    e == StoreError::NameTaken
                } else {
                    e == StoreError::IdsExhausted && old(db)@.next_secret_id == i64::MAX
                }
            },
        },
{
    proof {
        lemma_source_index(db@.sources, source_id);
    }
    let source = match db.get_source(source_id) {
        Ok(s) => s,
        Err(e) => {
            return Err(e);
        },
    };
    proof {
        assert(source_id >= 1);
    }
    let mut name = String::from_str("Source ");
    push_decimal(&mut name, source_id as u64);
    name.append(" token");
    assert(name@ == adopted_name(source_id));
    let ghost mid0 = db@;
    let id = match db.create_secret(name, TtlKind::Forever, None, now) {
        Ok(id) => id,
        Err(e) => {
            return Err(e);
        },
    };
    let ghost mid = db@;
    proof {
        lemma_source_index(mid.sources, source_id);
    }
    match db.set_source_secret(source_id, Some(id), now) {
        Ok(_) => {},
        Err(e) => {
            return Err(e);
        },
    }
    vault.set_tokens(id, token, None);
    Ok(id)
}

pub open spec fn has_refresh(s: SecretView) -> bool {
    s.refresh_token_id is Some
}

/// The ids of the secrets that carry a refresh token, in order: the ones a
/// startup pass refreshes eagerly.
pub fn refreshable_secrets(db: &Database) -> (r: Vec<i64>)
    ensures
        r@ == db@.secrets.filter(|s: SecretView| has_refresh(s)).map_values(|s: SecretView| s.id),
{
    let secrets = db.get_all_secrets();
    let ghost sv = db@.secrets;
    let ghost p = |s: SecretView| has_refresh(s);
    let mut r: Vec<i64> = Vec::new();
    let mut i: usize = 0;
    assert(sv.subrange(0, 0) =~= Seq::<SecretView>::empty());
    proof {
        reveal(Seq::filter);
    }
    while i < secrets.len()
        invariant
            i <= secrets@.len(),
            secrets@.map_values(|s: crate::store::Secret| s@) == sv,
            p == (|s: SecretView| has_refresh(s)),
            r@ == sv.subrange(0, i as int).filter(p).map_values(|s: SecretView| s.id),
        decreases secrets@.len() - i,
    {
        assert(sv[i as int] == secrets@[i as int]@);
        proof {
            crate::catalog::lemma_filter_step(sv, i as int, p);
        }
        if secrets[i].refresh_token_id.is_some() {
            r.push(secrets[i].id);
        }
        let ghost f = sv.subrange(0, i + 1).filter(p);
        assert(r@ =~= f.map_values(|s: SecretView| s.id));
        i += 1;
    }
    assert(sv.subrange(0, i as int) =~= sv);
    r
}

/// The ids of the enabled sources, in order: the ones a startup pass syncs.
pub fn enabled_sources(db: &Database) -> (r: Vec<i64>)
    ensures
        r@ == db@.sources.filter(|s: SourceView| s.enabled).map_values(|s: SourceView| s.id),
{
    let sources = db.get_all_sources();
    let ghost sv = db@.sources;
    let ghost p = |s: SourceView| s.enabled;
    let mut r: Vec<i64> = Vec::new();
    let mut i: usize = 0;
    assert(sv.subrange(0, 0) =~= Seq::<SourceView>::empty());
    proof {
        reveal(Seq::filter);
    }
    while i < sources.len()
        invariant
            i <= sources@.len(),
            sources@.map_values(|s: Source| s@) == sv,
            p == (|s: SourceView| s.enabled),
            r@ == sv.subrange(0, i as int).filter(p).map_values(|s: SourceView| s.id),
        decreases sources@.len() - i,
    {
        assert(sv[i as int] == sources@[i as int]@);
        proof {
            crate::catalog::lemma_filter_step(sv, i as int, p);
        }
        if sources[i].enabled {
            r.push(sources[i].id);
        }
        let ghost f = sv.subrange(0, i + 1).filter(p);
        assert(r@ =~= f.map_values(|s: SourceView| s.id));
        i += 1;
    }
    assert(sv.subrange(0, i as int) =~= sv);
    r
}

/// The seconds between polls of a source: its own `poll_interval` for
/// feeds (ten minutes where it is missing or unreadable), five minutes for
/// the code-forge repositories, ten minutes for anything else.
pub open spec fn interval_secs(kind: Seq<char>, poll_interval: Option<Seq<char>>) -> u64 {
    if kind == "rss"@ || kind == "atom"@ {
        match poll_interval {
            Some(p) => match duration_reading(p, false) {
                Ok(v) => v as u64,
                Err(_) => DEFAULT_INTERVAL_SECS,
            },
            None => DEFAULT_INTERVAL_SECS,
        }
    } else if kind == "github"@ {
        300
    } else {
        DEFAULT_INTERVAL_SECS
    }
}

/// The seconds between polls of a source of a kind with an optional
/// configured interval.
pub fn poll_interval_secs(kind: &str, poll_interval: Option<&str>) -> (r: u64)
    ensures
        r == interval_secs(
            kind@,
            match poll_interval {
                Some(p) => Some(p@),
                None => None,
            },
        ),
{
    let k = String::from_str(kind);
    if k == String::from_str("rss") || k == String::from_str("atom") {
        match poll_interval {
            Some(p) => match parse_duration(p) {
                Ok(v) => v,
                Err(_) => DEFAULT_INTERVAL_SECS,
            },
            None => DEFAULT_INTERVAL_SECS,
        }
    } else if k == String::from_str("github") {
        300
    } else {
        DEFAULT_INTERVAL_SECS
    }
}

/// A source is due when it never synced or its interval has passed.
pub open spec fn is_due(last_synced_at: Option<i64>, now: i64, interval: u64) -> bool {
    match last_synced_at {
        None => true,
        Some(t) => now - t >= interval,
    }
}

pub fn should_sync(last_synced_at: Option<i64>, now: i64, interval: u64) -> (r: bool)
    ensures
        r == is_due(last_synced_at, now, interval),
{
    match last_synced_at {
        None => true,
        Some(t) => (now as i128) - (t as i128) >= interval as i128,
    }
}

/// Whether the scheduler syncs a source at `now`: it is enabled and due,
/// with the interval its kind and configuration give.
pub open spec fn source_due(s: SourceView, now: i64) -> bool {
    s.enabled && is_due(
        s.last_synced_at,
        now,
        interval_secs(s.source_type, text_member(json_members(s.config_json), "poll_interval"@)),
    )
}

pub open spec fn due_pred(now: i64) -> spec_fn(SourceView) -> bool {
    |s: SourceView| source_due(s, now)
}

/// The ids of the sources the scheduler syncs at `now`, in order.
pub fn due_sources(db: &Database, now: i64) -> (r: Vec<i64>)
    ensures
        r@ == db@.sources.filter(due_pred(now)).map_values(|s: SourceView| s.id),
{
    let sources = db.get_all_sources();
    let ghost sv = db@.sources;
    let mut r: Vec<i64> = Vec::new();
    let mut i: usize = 0;
    proof {
        reveal(Seq::filter);
    }
    assert(sv.subrange(0, 0) =~= Seq::<SourceView>::empty());
    while i < sources.len()
        invariant
            i <= sources@.len(),
            sources@.map_values(|s: Source| s@) == sv,
            r@ == sv.subrange(0, i as int).filter(due_pred(now)).map_values(|s: SourceView| s.id),
        decreases sources@.len() - i,
    {
        let s = &sources[i];
        assert(sv[i as int] == s@);
        proof {
            crate::catalog::lemma_filter_step(sv, i as int, due_pred(now));
        }
        if s.enabled {
            let cfg = read_json_object(s.config_json.as_str());
            let pi = get_text_member(&cfg, "poll_interval");
            let interval = match &pi {
                Some(p) => poll_interval_secs(s.source_type.as_str(), Some(p.as_str())),
                None => poll_interval_secs(s.source_type.as_str(), None),
            };
            if should_sync(s.last_synced_at, now, interval) {
                r.push(s.id);
            }
        }
        let ghost f = sv.subrange(0, i + 1).filter(due_pred(now));
        assert(r@ =~= f.map_values(|s: SourceView| s.id));
        i += 1;
    }
    assert(sv.subrange(0, i as int) =~= sv);
    r
}

} // verus!
