use vstd::prelude::*;

use crate::catalog::lemma_filter_step;
use crate::model::{copy_opt, opt_view};

verus! {

/// An access token and the refresh token issued with it, if any.
#[derive(Debug, Clone)]
pub struct TokenPair {
    pub access_token: String,
    pub refresh_token: Option<String>,
}

pub struct TokenView {
    pub access_token: Seq<char>,
    pub refresh_token: Option<Seq<char>>,
}

impl View for TokenPair {
    type V = TokenView;

    open spec fn view(&self) -> TokenView {
        TokenView { access_token: self.access_token@, refresh_token: opt_view(self.refresh_token) }
    }
}

impl TokenPair {
    pub fn copy(&self) -> (r: TokenPair)
        ensures
            r@ == self@,
    {
        TokenPair { access_token: self.access_token.clone(), refresh_token: copy_opt(&self.refresh_token) }
    }
}

/// The token pair stored under a secret id: the last entry with that id.
pub open spec fn vault_get(entries: Seq<(i64, TokenView)>, id: i64) -> Option<TokenView>
    decreases entries.len(),
{
    if entries.len() == 0 {
        None
    } else if entries.last().0 == id {
        Some(entries.last().1)
    } else {
        vault_get(entries.drop_last(), id)
    }
}

pub open spec fn other_id(id: i64) -> spec_fn((i64, TokenView)) -> bool {
    |e: (i64, TokenView)| e.0 != id
}

/// The entries after storing `t` under `id`: any earlier entry for the id
/// is dropped and the new one appended.
pub open spec fn vault_put(entries: Seq<(i64, TokenView)>, id: i64, t: TokenView) -> Seq<(i64, TokenView)> {
    entries.filter(other_id(id)).push((id, t))
}

/// The entries after removing `id`.
pub open spec fn vault_del(entries: Seq<(i64, TokenView)>, id: i64) -> Seq<(i64, TokenView)> {
    entries.filter(other_id(id))
}

proof fn lemma_filter_other_get(entries: Seq<(i64, TokenView)>, id: i64, other: i64)
    ensures
        vault_get(entries.filter(other_id(id)), other) == (if other == id {
            None
        } else {
            vault_get(entries, other)
        }),
    decreases entries.len(),
{
    reveal(Seq::filter);
    if entries.len() > 0 {
        lemma_filter_other_get(entries.drop_last(), id, other);
        let f = entries.drop_last().filter(other_id(id));
        assert(f.push(entries.last()).drop_last() =~= f);
        assert(f.push(entries.last()).last() == entries.last());
    }
}

/// Storing a pair under an id makes it what the id holds, and leaves every
/// other id as it was.
pub proof fn lemma_vault_put(entries: Seq<(i64, TokenView)>, id: i64, t: TokenView, other: i64)
    ensures
        vault_get(vault_put(entries, id, t), id) == Some(t),
        other != id ==> vault_get(vault_put(entries, id, t), other) == vault_get(entries, other),
{
    let f = entries.filter(other_id(id));
    assert(f.push((id, t)).drop_last() =~= f);
    lemma_filter_other_get(entries, id, other);
}

/// Removing an id leaves it empty and every other id as it was.
pub proof fn lemma_vault_del(entries: Seq<(i64, TokenView)>, id: i64, other: i64)
    ensures
        vault_get(vault_del(entries, id), id) is None,
        other != id ==> vault_get(vault_del(entries, id), other) == vault_get(entries, other),
{
    lemma_filter_other_get(entries, id, id);
    lemma_filter_other_get(entries, id, other);
}

/// The credential vault: token pairs keyed by secret id. The file that
/// holds it is read and rewritten by the caller.
pub struct SecretStore {
    entries: Vec<(i64, TokenPair)>,
}

impl View for SecretStore {
    type V = Seq<(i64, TokenView)>;

    closed spec fn view(&self) -> Seq<(i64, TokenView)> {
        self.entries@.map_values(|e: (i64, TokenPair)| (e.0, e.1@))
    }
}

impl SecretStore {
    /// An empty vault.
    pub fn new() -> (r: SecretStore)
        ensures
            r@ == Seq::<(i64, TokenView)>::empty(),
    {
        let r = SecretStore { entries: Vec::new() };
        assert(r@ =~= Seq::<(i64, TokenView)>::empty());
        r
    }

    fn find(&self, id: i64) -> (r: Option<usize>)
        ensures
            r matches Some(k) ==> k < self@.len() && vault_get(self@, id) == Some(self@[k as int].1)
                && self@[k as int].0 == id,
            r is None ==> vault_get(self@, id) is None,
    {
        let ghost v = self@;
        assert(v.subrange(0, v.len() as int) =~= v);
        let mut i: usize = self.entries.len();
        while i > 0
            invariant
                i <= self.entries@.len(),
                v == self@,
                v == self.entries@.map_values(|e: (i64, TokenPair)| (e.0, e.1@)),
                vault_get(v, id) == vault_get(v.subrange(0, i as int), id),
            decreases i,
        {
            assert(v.subrange(0, i as int).last() == v[i - 1]);
            if self.entries[i - 1].0 == id {
                return Some(i - 1);
            }
            assert(v.subrange(0, i as int).drop_last() =~= v.subrange(0, i - 1));
            i -= 1;
        }
        None
    }

    /// The access token stored under a secret id.
    pub fn get(&self, secret_id: i64) -> (r: Option<String>)
        ensures
            opt_view(r) == (match vault_get(self@, secret_id) {
                Some(t) => Some(t.access_token),
                None => None,
            }),
    {
        match self.find(secret_id) {
            Some(k) => Some(self.entries[k].1.access_token.clone()),
            None => None,
        }
    }

    /// The refresh token stored under a secret id.
    pub fn get_refresh_token(&self, secret_id: i64) -> (r: Option<String>)
        ensures
            opt_view(r) == (match vault_get(self@, secret_id) {
                Some(t) => t.refresh_token,
                None => None,
            }),
    {
        match self.find(secret_id) {
            Some(k) => copy_opt(&self.entries[k].1.refresh_token),
            None => None,
        }
    }

    /// The token pair stored under a secret id.
    pub fn get_tokens(&self, secret_id: i64) -> (r: Option<TokenPair>)
        ensures
            match r {
                Some(p) => vault_get(self@, secret_id) == Some(p@),
                None => vault_get(self@, secret_id) is None,
            },
    {
        match self.find(secret_id) {
            Some(k) => Some(self.entries[k].1.copy()),
            None => None,
        }
    }

    fn put(&mut self, secret_id: i64, pair: TokenPair)
        ensures
            final(self)@ == vault_put(old(self)@, secret_id, pair@),
    {
        let ghost old_v = self@;
        let ghost pv = pair@;
        proof {
            reveal(Seq::filter);
        }
        let mut kept: Vec<(i64, TokenPair)> = Vec::new();
        let mut i: usize = 0;
        assert(old_v.subrange(0, 0) =~= Seq::<(i64, TokenView)>::empty());
        while i < self.entries.len()
            invariant
                i <= self.entries@.len(),
                old_v == self.entries@.map_values(|e: (i64, TokenPair)| (e.0, e.1@)),
                kept@.map_values(|e: (i64, TokenPair)| (e.0, e.1@)) == old_v.subrange(
                    0,
                    i as int,
                ).filter(other_id(secret_id)),
            decreases self.entries@.len() - i,
        {
            proof {
                lemma_filter_step(old_v, i as int, other_id(secret_id));
            }
            let ghost before = kept@;
            if self.entries[i].0 != secret_id {
                let e = (self.entries[i].0, self.entries[i].1.copy());
                kept.push(e);
                assert(kept@.map_values(|e: (i64, TokenPair)| (e.0, e.1@)) =~= before.map_values(
                    |e: (i64, TokenPair)| (e.0, e.1@),
                ).push(old_v[i as int]));
            }
            i += 1;
        }
        assert(old_v.subrange(0, i as int) =~= old_v);
        let ghost kv = kept@;
        kept.push((secret_id, pair));
        assert(kept@.map_values(|e: (i64, TokenPair)| (e.0, e.1@)) =~= kv.map_values(
            |e: (i64, TokenPair)| (e.0, e.1@),
        ).push((secret_id, pv)));
        self.entries = kept;
    }

    /// Stores both tokens under a secret id, replacing what it held.
    pub fn set_tokens(&mut self, secret_id: i64, access_token: &str, refresh_token: Option<&str>)
        ensures
            final(self)@ == vault_put(
                old(self)@,
                secret_id,
                TokenView {
                    access_token: access_token@,
                    refresh_token: match refresh_token {
                        Some(t) => Some(t@),
                        None => None,
                    },
                },
            ),
    {
        let refresh = match refresh_token {
            Some(t) => Some(t.to_owned()),
            None => None,
        };
        self.put(secret_id, TokenPair { access_token: access_token.to_owned(), refresh_token: refresh });
    }

    /// Stores an access token under a secret id, keeping the refresh token
    /// stored there, if any.
    pub fn set(&mut self, secret_id: i64, value: &str)
        ensures
            final(self)@ == vault_put(
                old(self)@,
                secret_id,
                TokenView {
                    access_token: value@,
                    refresh_token: match vault_get(old(self)@, secret_id) {
                        Some(t) => t.refresh_token,
                        None => None,
                    },
                },
            ),
    {
        let refresh = self.get_refresh_token(secret_id);
        self.put(secret_id, TokenPair { access_token: value.to_owned(), refresh_token: refresh });
    }

    /// Removes what is stored under a secret id.
    pub fn delete(&mut self, secret_id: i64)
        ensures
            final(self)@ == vault_del(old(self)@, secret_id),
    {
        let ghost old_v = self@;
        proof {
            reveal(Seq::filter);
        }
        let mut kept: Vec<(i64, TokenPair)> = Vec::new();
        let mut i: usize = 0;
        assert(old_v.subrange(0, 0) =~= Seq::<(i64, TokenView)>::empty());
        while i < self.entries.len()
            invariant
                i <= self.entries@.len(),
                old_v == self.entries@.map_values(|e: (i64, TokenPair)| (e.0, e.1@)),
                kept@.map_values(|e: (i64, TokenPair)| (e.0, e.1@)) == old_v.subrange(
                    0,
                    i as int,
                ).filter(other_id(secret_id)),
            decreases self.entries@.len() - i,
        {
            proof {
                lemma_filter_step(old_v, i as int, other_id(secret_id));
            }
            let ghost before = kept@;
            if self.entries[i].0 != secret_id {
                let e = (self.entries[i].0, self.entries[i].1.copy());
                kept.push(e);
                assert(kept@.map_values(|e: (i64, TokenPair)| (e.0, e.1@)) =~= before.map_values(
                    |e: (i64, TokenPair)| (e.0, e.1@),
                ).push(old_v[i as int]));
            }
            i += 1;
        }
        assert(old_v.subrange(0, i as int) =~= old_v);
        self.entries = kept;
    }

    /// The stored pairs with their secret ids, for writing the vault out.
    pub fn entries(&self) -> (r: Vec<(i64, TokenPair)>)
        ensures
            r@.map_values(|e: (i64, TokenPair)| (e.0, e.1@)) == self@,
    {
        let mut r: Vec<(i64, TokenPair)> = Vec::new();
        let mut i: usize = 0;
        while i < self.entries.len()
            invariant
                i <= self.entries@.len(),
                r@.map_values(|e: (i64, TokenPair)| (e.0, e.1@)) == self@.subrange(0, i as int),
            decreases self.entries@.len() - i,
        {
            let ghost before = r@;
            assert(self@[i as int] == (self.entries@[i as int].0, self.entries@[i as int].1@));
            let x = (self.entries[i].0, self.entries[i].1.copy());
            assert((x.0, x.1@) == self@[i as int]);
            r.push(x);
            assert(r@.map_values(|e: (i64, TokenPair)| (e.0, e.1@)) =~= before.map_values(
                |e: (i64, TokenPair)| (e.0, e.1@),
            ).push(self@[i as int]));
            assert(self@.subrange(0, i + 1) =~= self@.subrange(0, i as int).push(self@[i as int]));
            i += 1;
        }
        assert(self@.subrange(0, i as int) =~= self@);
        r
    }
}

} // verus!
