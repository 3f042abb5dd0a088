use vstd::prelude::*;

use crate::model::opt_view;
use crate::store::{lemma_source_index, source_index, Database, Item, ItemView, SourceView};

verus! {

/// The filters of an item listing; each one given narrows it.
#[derive(Debug, Clone)]
pub struct ItemFilter {
    /// Only items in this state.
    pub state: Option<String>,
    /// Only items whose source is in this group.
    pub group: Option<String>,
    /// Together with `group_names`: only items whose source is one of these...
    pub source_ids: Option<Vec<i64>>,
    /// ...or is in one of these groups.
    pub group_names: Option<Vec<String>>,
}

pub struct FilterView {
    pub state: Option<Seq<char>>,
    pub group: Option<Seq<char>>,
    pub source_ids: Option<Seq<i64>>,
    pub group_names: Option<Seq<Seq<char>>>,
}

impl View for ItemFilter {
    type V = FilterView;

    open spec fn view(&self) -> FilterView {
        FilterView {
            state: opt_view(self.state),
            group: opt_view(self.group),
            source_ids: match self.source_ids {
                Some(v) => Some(v@),
                None => None,
            },
            group_names: match self.group_names {
                Some(v) => Some(v.deep_view()),
                None => None,
            },
        }
    }
}

/// The groups of the source with an id; none where there is no such source.
pub open spec fn source_groups(sources: Seq<SourceView>, id: i64) -> Seq<Seq<char>> {
    let k = source_index(sources, id);
    if k >= 0 {
        sources[k].groups
    } else {
        Seq::empty()
    }
}

pub open spec fn shares_any(a: Seq<Seq<char>>, b: Seq<Seq<char>>) -> bool {
    exists|i: int| 0 <= i < a.len() && b.contains(#[trigger] a[i])
}

/// Whether a listing with filter `f` shows an item.
pub open spec fn selected(sources: Seq<SourceView>, it: ItemView, f: FilterView) -> bool {
    let groups = source_groups(sources, it.source_id);
    &&& match f.state {
        Some(s) => it.state == s,
        None => true,
    }
    &&& match f.group {
        Some(g) => groups.contains(g),
        None => true,
    }
    &&& (f.source_ids is None && f.group_names is None) || (match f.source_ids {
        Some(ids) => ids.contains(it.source_id),
        None => false,
    }) || (match f.group_names {
        Some(ns) => shares_any(groups, ns),
        None => false,
    })
}

/// Places an item into a newest-first list: before the first item that is
/// not newer.
pub open spec fn newest_first_insert(out: Seq<ItemView>, x: ItemView) -> Seq<ItemView>
    decreases out.len(),
{
    if out.len() == 0 {
        seq![x]
    } else if out[0].created_at <= x.created_at {
        seq![x] + out
    } else {
        seq![out[0]] + newest_first_insert(out.drop_first(), x)
    }
}

/// The items a listing shows, newest first; among items created at the
/// same time, the later stored first.
pub open spec fn listing(sources: Seq<SourceView>, items: Seq<ItemView>, f: FilterView) -> Seq<
    ItemView,
>
    decreases items.len(),
{
    if items.len() == 0 {
        Seq::empty()
    } else {
        let rest = listing(sources, items.drop_last(), f);
        if selected(sources, items.last(), f) {
            newest_first_insert(rest, items.last())
        } else {
            rest
        }
    }
}

pub open spec fn newest_first(s: Seq<ItemView>) -> bool {
    forall|j: int, k: int| 0 <= j < k < s.len() ==> s[j].created_at >= s[k].created_at
}

proof fn lemma_insert_position(out: Seq<ItemView>, x: ItemView, p: int)
    requires
        0 <= p <= out.len(),
        forall|j: int| 0 <= j < p ==> (#[trigger] out[j]).created_at > x.created_at,
        p == out.len() || out[p].created_at <= x.created_at,
    ensures
        out.insert(p, x) == newest_first_insert(out, x),
    decreases p,
{
    if p == 0 {
        if out.len() == 0 {
            assert(out.insert(0, x) =~= seq![x]);
        } else {
            assert(out.insert(0, x) =~= seq![x] + out);
        }
    } else {
        let t = out.drop_first();
        assert forall|j: int| 0 <= j < p - 1 implies (#[trigger] t[j]).created_at > x.created_at by {
            assert(t[j] == out[j + 1]);
        }
        if p < out.len() {
            assert(t[p - 1] == out[p]);
        }
        lemma_insert_position(t, x, p - 1);
        assert(out.insert(p, x) =~= seq![out[0]] + t.insert(p - 1, x));
    }
}

proof fn lemma_insert_keeps_order(out: Seq<ItemView>, x: ItemView)
    requires
        newest_first(out),
    ensures
        newest_first(newest_first_insert(out, x)),
        newest_first_insert(out, x).len() == out.len() + 1,
        forall|j: int|
            0 <= j < newest_first_insert(out, x).len() ==> newest_first_insert(out, x)[j] == x
                || out.contains(#[trigger] newest_first_insert(out, x)[j]),
    decreases out.len(),
{
    if out.len() > 0 && out[0].created_at > x.created_at {
        let t = out.drop_first();
        assert forall|j: int, k: int| 0 <= j < k < t.len() implies t[j].created_at
            >= t[k].created_at by {
            assert(t[j] == out[j + 1] && t[k] == out[k + 1]);
        }
        lemma_insert_keeps_order(t, x);
        let n = newest_first_insert(out, x);
        let m = newest_first_insert(t, x);
        assert(n == seq![out[0]] + m);
        assert forall|j: int| 0 <= j < n.len() implies n[j] == x || out.contains(#[trigger] n[j]) by {
            if j > 0 {
                assert(n[j] == m[j - 1]);
                if m[j - 1] != x {
                    let q = choose|q: int| 0 <= q < t.len() && t[q] == m[j - 1];
                    assert(out[q + 1] == t[q]);
                }
            } else {
                assert(out[0] == n[0]);
            }
        }
        assert forall|j: int, k: int| 0 <= j < k < n.len() implies n[j].created_at
            >= n[k].created_at by {
            if j == 0 {
                assert(n[k] == m[k - 1]);
                if m[k - 1] == x {
                } else {
                    let q = choose|q: int| 0 <= q < t.len() && t[q] == m[k - 1];
                    assert(out[q + 1] == t[q]);
                }
            } else {
                assert(n[j] == m[j - 1] && n[k] == m[k - 1]);
            }
        }
    } else if out.len() > 0 {
        let n = newest_first_insert(out, x);
        assert(n == seq![x] + out);
        assert forall|j: int| 0 <= j < n.len() implies n[j] == x || out.contains(#[trigger] n[j]) by {
            if j > 0 {
                assert(n[j] == out[j - 1]);
            }
        }
        assert forall|j: int, k: int| 0 <= j < k < n.len() implies n[j].created_at
            >= n[k].created_at by {
            if j > 0 {
                assert(n[j] == out[j - 1]);
            }
            assert(n[k] == out[k - 1]);
        }
    } else {
        assert(newest_first_insert(out, x) =~= seq![x]);
    }
}

/// A listing is ordered newest first, and shows only stored items that the
/// filter selects.
pub proof fn lemma_listing_sound(sources: Seq<SourceView>, items: Seq<ItemView>, f: FilterView)
    ensures
        newest_first(listing(sources, items, f)),
        forall|j: int|
            0 <= j < listing(sources, items, f).len() ==> items.contains(
                #[trigger] listing(sources, items, f)[j],
            ) && selected(sources, listing(sources, items, f)[j], f),
    decreases items.len(),
{
    if items.len() > 0 {
        let pre = items.drop_last();
        lemma_listing_sound(sources, pre, f);
        let rest = listing(sources, pre, f);
        let l = listing(sources, items, f);
        assert forall|q: int| 0 <= q < pre.len() implies items.contains(#[trigger] pre[q]) by {
            assert(items[q] == pre[q]);
        }
        if selected(sources, items.last(), f) {
            lemma_insert_keeps_order(rest, items.last());
            assert forall|j: int| 0 <= j < l.len() implies items.contains(#[trigger] l[j])
                && selected(sources, l[j], f) by {
                if l[j] == items.last() {
                    assert(items[items.len() - 1] == l[j]);
                } else {
                    let q = choose|q: int| 0 <= q < rest.len() && rest[q] == l[j];
                    let m = choose|m: int| 0 <= m < pre.len() && pre[m] == rest[q];
                    assert(items[m] == l[j]);
                }
            }
        } else {
            assert forall|j: int| 0 <= j < l.len() implies items.contains(#[trigger] l[j])
                && selected(sources, l[j], f) by {
                let m = choose|m: int| 0 <= m < pre.len() && pre[m] == rest[j];
                assert(items[m] == l[j]);
            }
        }
    }
}

fn contains_i64(v: &Vec<i64>, x: i64) -> (r: bool)
    ensures
        r == v@.contains(x),
{
    let mut i: usize = 0;
    while i < v.len()
        invariant
            i <= v@.len(),
            forall|j: int| 0 <= j < i ==> v@[j] != x,
        decreases v@.len() - i,
    {
        if v[i] == x {
            return true;
        }
        i += 1;
    }
    false
}

fn contains_text(v: &Vec<String>, x: &String) -> (r: bool)
    ensures
        r == v.deep_view().contains(x@),
{
    let mut i: usize = 0;
    while i < v.len()
        invariant
            i <= v@.len(),
            forall|j: int| 0 <= j < i ==> v.deep_view()[j] != x@,
        decreases v@.len() - i,
    {
        if v[i] == *x {
            assert(v.deep_view()[i as int] == x@);
            return true;
        }
        i += 1;
    }
    false
}

fn shares_group(a: &Vec<String>, b: &Vec<String>) -> (r: bool)
    ensures
        r == shares_any(a.deep_view(), b.deep_view()),
{
    let mut i: usize = 0;
    while i < a.len()
        invariant
            i <= a@.len(),
            forall|j: int| 0 <= j < i ==> !b.deep_view().contains(#[trigger] a.deep_view()[j]),
        decreases a@.len() - i,
    {
        if contains_text(b, &a[i]) {
            assert(b.deep_view().contains(a.deep_view()[i as int]));
            return true;
        }
        i += 1;
    }
    false
}

impl Database {
    fn is_selected(&self, it: &Item, f: &ItemFilter) -> (r: bool)
        ensures
            r == selected(self@.sources, it@, f@),
    {
        proof {
            self.lemma_view();
            lemma_source_index(self@.sources, it.source_id);
        }
        let empty: Vec<String> = Vec::new();
        let k = self.find_source(it.source_id);
        let groups: &Vec<String> = match k {
            Some(k) => &self.sources[k].groups,
            None => &empty,
        };
        assert(groups.deep_view() == source_groups(self@.sources, it.source_id)) by {
            if k is None {
                assert(groups.deep_view() =~= Seq::<Seq<char>>::empty());
            }
        }
        let state_ok = match &f.state {
            Some(s) => it.state == *s,
            None => true,
        };
        let group_ok = match &f.group {
            Some(g) => contains_text(groups, g),
            None => true,
        };
        let scope_ok = if f.source_ids.is_none() && f.group_names.is_none() {
            true
        } else {
            let by_id = match &f.source_ids {
                Some(ids) => contains_i64(ids, it.source_id),
                None => false,
            };
            let by_group = match &f.group_names {
                Some(ns) => shares_group(groups, ns),
                None => false,
            };
            by_id || by_group
        };
        state_ok && group_ok && scope_ok
    }

    /// The items that a filter selects, newest first.
    pub fn get_items(&self, filter: &ItemFilter) -> (r: Vec<Item>)
        ensures
            r@.map_values(|it: Item| it@) == listing(self@.sources, self@.items, filter@),
    {
        proof {
            self.lemma_view();
        }
        let ghost iv = self@.items;
        let mut out: Vec<Item> = Vec::new();
        let mut i: usize = 0;
        while i < self.items.len()
            invariant
                i <= self.items@.len(),
                iv == self@.items,
                iv == self.items@.map_values(|it: Item| it@),
                out@.map_values(|it: Item| it@) == listing(
                    self@.sources,
                    iv.subrange(0, i as int),
                    filter@,
                ),
            decreases self.items@.len() - i,
        {
            let it = &self.items[i];
            assert(iv[i as int] == it@);
            assert(iv.subrange(0, i + 1).drop_last() =~= iv.subrange(0, i as int));
            if self.is_selected(it, filter) {
                let ghost ov = out@.map_values(|x: Item| x@);
                let mut p: usize = 0;
                while p < out.len() && out[p].created_at > it.created_at
                    invariant
                        p <= out@.len(),
                        ov == out@.map_values(|x: Item| x@),
                        forall|j: int| 0 <= j < p ==> (#[trigger] ov[j]).created_at > it.created_at,
                    decreases out@.len() - p,
                {
                    p += 1;
                }
                proof {
                    lemma_insert_position(ov, it@, p as int);
                }
                out.insert(p, it.copy());
                assert(out@.map_values(|x: Item| x@) =~= ov.insert(p as int, it@));
            }
            i += 1;
        }
        assert(iv.subrange(0, i as int) =~= iv);
        out
    }
}

} // verus!
