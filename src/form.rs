use vstd::prelude::*;

use crate::model::opt_view;
use crate::text::{chars_of, find_char_from, first_index, lemma_first_index};

verus! {

/// A top-level value of a JSON object, as far as this library reads it.
#[derive(Debug, Clone)]
pub enum JsonScalar {
    Text(String),
    Uint(u64),
    /// An array: each element a string, or marked as something else.
    List(Vec<Option<String>>),
    Other,
}

pub enum ScalarView {
    Text(Seq<char>),
    Uint(u64),
    List(Seq<Option<Seq<char>>>),
    Other,
}

pub open spec fn list_view(v: Vec<Option<String>>) -> Seq<Option<Seq<char>>> {
    v@.map_values(|o: Option<String>| opt_view(o))
}

impl View for JsonScalar {
    type V = ScalarView;

    open spec fn view(&self) -> ScalarView {
        match self {
            JsonScalar::Text(s) => ScalarView::Text(s@),
            JsonScalar::Uint(u) => ScalarView::Uint(*u),
            JsonScalar::List(v) => ScalarView::List(list_view(*v)),
            JsonScalar::Other => ScalarView::Other,
        }
    }
}

pub open spec fn members_view(m: Option<Vec<(String, JsonScalar)>>) -> Option<
    Seq<(Seq<char>, ScalarView)>,
> {
    match m {
        Some(v) => Some(v@.map_values(|e: (String, JsonScalar)| (e.0@, e.1@))),
        None => None,
    }
}

/// The members of a JSON object text, in key order; none for a text that
/// is no JSON object.
pub uninterp spec fn json_members(body: Seq<char>) -> Option<Seq<(Seq<char>, ScalarView)>>;

/// Relies on `serde_json::from_str` into a `serde_json::Value`: for a JSON
/// object, its members, strings, unsigned integers and arrays (of strings,
/// other elements marked) kept and any other value marked as such; none for
/// any other text.
#[verifier::external_body]
pub fn read_json_object(body: &str) -> (r: Option<Vec<(String, JsonScalar)>>)
    ensures
        members_view(r) == json_members(body@),
{
    match serde_json::from_str::<serde_json::Value>(body) {
        Ok(serde_json::Value::Object(m)) => Some(m.into_iter().map(|(k, v)| (k, match v {
            serde_json::Value::String(s) => JsonScalar::Text(s),
            serde_json::Value::Number(n) => match n.as_u64() {
                Some(u) => JsonScalar::Uint(u),
                None => JsonScalar::Other,
            },
            serde_json::Value::Array(a) => JsonScalar::List(a.into_iter().map(|x| match x {
                serde_json::Value::String(s) => Some(s),
                _ => None,
            }).collect()),
            _ => JsonScalar::Other,
        })).collect()),
        _ => None,
    }
}

/// The value of the last member with a key.
pub open spec fn member(ms: Seq<(Seq<char>, ScalarView)>, key: Seq<char>) -> Option<ScalarView>
    decreases ms.len(),
{
    if ms.len() == 0 {
        None
    } else if ms.last().0 == key {
        Some(ms.last().1)
    } else {
        member(ms.drop_last(), key)
    }
}

/// The text member with a key, if the body is an object that has one.
pub open spec fn text_member(ms: Option<Seq<(Seq<char>, ScalarView)>>, key: Seq<char>) -> Option<
    Seq<char>,
> {
    match ms {
        Some(m) => match member(m, key) {
            Some(ScalarView::Text(t)) => Some(t),
            _ => None,
        },
        None => None,
    }
}

/// The unsigned integer member with a key, if the body is an object that
/// has one.
pub open spec fn uint_member(ms: Option<Seq<(Seq<char>, ScalarView)>>, key: Seq<char>) -> Option<
    u64,
> {
    match ms {
        Some(m) => match member(m, key) {
            Some(ScalarView::Uint(u)) => Some(u),
            _ => None,
        },
        None => None,
    }
}

/// The strings among the elements of an array.
pub open spec fn strings_of(v: Seq<Option<Seq<char>>>) -> Seq<Seq<char>>
    decreases v.len(),
{
    if v.len() == 0 {
        Seq::empty()
    } else {
        match v.last() {
            Some(t) => strings_of(v.drop_last()).push(t),
            None => strings_of(v.drop_last()),
        }
    }
}

/// The strings of the array member with a key; none where there is no such
/// array.
pub open spec fn text_list_member(ms: Option<Seq<(Seq<char>, ScalarView)>>, key: Seq<char>) -> Seq<
    Seq<char>,
> {
    match ms {
        Some(m) => match member(m, key) {
            Some(ScalarView::List(l)) => strings_of(l),
            _ => Seq::empty(),
        },
        None => Seq::empty(),
    }
}

fn find_member(ms: &Vec<(String, JsonScalar)>, key: &String) -> (r: Option<usize>)
    ensures
        r matches Some(k) ==> k < ms@.len() && member(
            ms@.map_values(|e: (String, JsonScalar)| (e.0@, e.1@)),
            key@,
        ) == Some(ms@[k as int].1@),
        r is None ==> member(ms@.map_values(|e: (String, JsonScalar)| (e.0@, e.1@)), key@) is None,
{
    let ghost v = ms@.map_values(|e: (String, JsonScalar)| (e.0@, e.1@));
    assert(v.subrange(0, v.len() as int) =~= v);
    let mut i: usize = ms.len();
    while i > 0
        invariant
            i <= ms@.len(),
            v == ms@.map_values(|e: (String, JsonScalar)| (e.0@, e.1@)),
            member(v, key@) == member(v.subrange(0, i as int), key@),
        decreases i,
    {
        assert(v.subrange(0, i as int).last() == v[i - 1]);
        if ms[i - 1].0 == *key {
            return Some(i - 1);
        }
        assert(v.subrange(0, i as int).drop_last() =~= v.subrange(0, i - 1));
        i -= 1;
    }
    None
}

/// The text member with a key.
pub fn get_text_member(ms: &Option<Vec<(String, JsonScalar)>>, key: &str) -> (r: Option<String>)
    ensures
        opt_view(r) == text_member(members_view(*ms), key@),
{
    match ms {
        Some(m) => {
            let k = String::from_str(key);
            match find_member(m, &k) {
                Some(i) => match &m[i].1 {
                    JsonScalar::Text(t) => Some(t.clone()),
                    _ => None,
                },
                None => None,
            }
        },
        None => None,
    }
}

/// The strings of the array member with a key.
pub fn get_text_list(ms: &Option<Vec<(String, JsonScalar)>>, key: &str) -> (r: Vec<String>)
    ensures
        r.deep_view() == text_list_member(members_view(*ms), key@),
{
    let mut r: Vec<String> = Vec::new();
    match ms {
        Some(m) => {
            let k = String::from_str(key);
            match find_member(m, &k) {
                Some(i) => match &m[i].1 {
                    JsonScalar::List(l) => {
                        let ghost lv = list_view(*l);
                        let mut j: usize = 0;
                        assert(lv.subrange(0, 0) =~= Seq::<Option<Seq<char>>>::empty());
                        assert(r.deep_view() =~= Seq::<Seq<char>>::empty());
                        while j < l.len()
                            invariant
                                j <= l@.len(),
                                lv == list_view(*l),
                                r.deep_view() == strings_of(lv.subrange(0, j as int)),
                            decreases l@.len() - j,
                        {
                            let ghost before = r.deep_view();
                            assert(lv.subrange(0, j + 1).drop_last() =~= lv.subrange(0, j as int));
                            assert(lv.subrange(0, j + 1).last() == opt_view(l@[j as int]));
                            match &l[j] {
                                Some(t) => {
                                    r.push(t.clone());
                                    assert(r.deep_view() =~= before.push(t@));
                                },
                                None => {},
                            }
                            j += 1;
                        }
                        assert(lv.subrange(0, j as int) =~= lv);
                    },
                    _ => {},
                },
                None => {},
            }
        },
        None => {},
    }
    r
}

/// The unsigned integer member with a key.
pub fn get_uint_member(ms: &Option<Vec<(String, JsonScalar)>>, key: &str) -> (r: Option<u64>)
    ensures
        r == uint_member(members_view(*ms), key@),
{
    match ms {
        Some(m) => {
            let k = String::from_str(key);
            match find_member(m, &k) {
                Some(i) => match &m[i].1 {
                    JsonScalar::Uint(u) => Some(*u),
                    _ => None,
                },
                None => None,
            }
        },
        None => None,
    }
}

/// The text that percent-decoding gives, read as UTF-8; none where the
/// decoded bytes are no UTF-8.
pub uninterp spec fn url_decoded(s: Seq<char>) -> Option<Seq<char>>;

/// Relies on `urlencoding::decode`: the percent-decoded text, or none where
/// the decoded bytes are no UTF-8; a text without `%` comes back as it is.
#[verifier::external_body]
fn percent_decode(s: &str) -> (r: Option<String>)
    ensures
        opt_view(r) == url_decoded(s@),
        !s@.contains('%') ==> opt_view(r) == Some(s@),
{
    urlencoding::decode(s).ok().map(|c| c.into_owned())
}

/// A form value as stored: decoded where `decode` is set and decoding
/// succeeds, else as written.
pub open spec fn form_text(v: Seq<char>, decode: bool) -> Seq<char> {
    if decode {
        match url_decoded(v) {
            Some(d) => d,
            None => v,
        }
    } else {
        v
    }
}

/// The value of the last `key=value` pair with the given key in a
/// form-encoded text, from `s` on, where `acc` is what earlier pairs gave.
/// Pairs are separated by `&`; a pair without `=` is skipped.
pub open spec fn form_value_from(s: Seq<char>, key: Seq<char>, decode: bool, acc: Option<Seq<char>>) -> Option<
    Seq<char>,
>
    decreases s.len(),
{
    let i = first_index(s, '&');
    let seg = if i < 0 {
        s
    } else {
        s.subrange(0, i)
    };
    let e = first_index(seg, '=');
    let acc2 = if 0 <= e < seg.len() && seg.subrange(0, e) == key {
        Some(form_text(seg.subrange(e + 1, seg.len() as int), decode))
    } else {
        acc
    };
    if i < 0 || i >= s.len() {
        acc2
    } else {
        form_value_from(s.subrange(i + 1, s.len() as int), key, decode, acc2)
    }
}

/// The value of the last pair with a key in a form-encoded text.
pub open spec fn form_value(s: Seq<char>, key: Seq<char>, decode: bool) -> Option<Seq<char>> {
    form_value_from(s, key, decode, None)
}

fn range_equals(s: &Vec<char>, a: usize, b: usize, k: &Vec<char>) -> (r: bool)
    requires
        a <= b <= s@.len(),
    ensures
        r == (s@.subrange(a as int, b as int) == k@),
{
    if b - a != k.len() {
        return false;
    }
    let mut j: usize = 0;
    while j < k.len()
        invariant
            a <= b <= s@.len(),
            b - a == k@.len(),
            j <= k@.len(),
            forall|m: int| 0 <= m < j ==> s@[a + m] == k@[m],
        decreases k@.len() - j,
    {
        if s[a + j] != k[j] {
            assert(s@.subrange(a as int, b as int)[j as int] != k@[j as int]);
            return false;
        }
        j += 1;
    }
    assert(s@.subrange(a as int, b as int) =~= k@);
    true
}

/// The value of the last pair with a key in a form-encoded text; decoded
/// where `decode` is set.
pub fn get_form_value(text: &str, key: &str, decode: bool) -> (r: Option<String>)
    ensures
        opt_view(r) == form_value(text@, key@, decode),
{
    let s = chars_of(text);
    let k = chars_of(key);
    let n = s.len();
    let mut pos: usize = 0;
    let mut acc: Option<String> = None;
    assert(s@.subrange(0, n as int) =~= s@);
    loop
        invariant
            n == s@.len(),
            s@ == text@,
            pos <= n,
            form_value(text@, key@, decode) == form_value_from(
                s@.subrange(pos as int, n as int),
                k@,
                decode,
                opt_view(acc),
            ),
            k@ == key@,
        decreases n - pos,
    {
        let ghost rest = s@.subrange(pos as int, n as int);
        let amp = find_char_from(&s, '&', pos);
        let eq = find_char_from(&s, '=', pos);
        let ghost i = first_index(rest, '&');
        let ghost seg = if i < 0 {
            rest
        } else {
            rest.subrange(0, i)
        };
        assert(seg =~= s@.subrange(pos as int, amp as int));
        let stop = if eq < amp {
            eq
        } else {
            amp
        };
        proof {
            assert forall|j: int| 0 <= j < stop - pos implies seg[j] != '=' by {
                assert(seg[j] == s@[pos + j]);
            }
            if stop < amp {
                assert(seg[stop - pos] == s@[stop as int]);
            }
            lemma_first_index(seg, '=', stop - pos);
        }
        if eq < amp && range_equals(&s, pos, eq, &k) {
            assert(seg.subrange(0, eq - pos) =~= s@.subrange(pos as int, eq as int));
            let raw = text.substring_char(eq + 1, amp);
            assert(seg.subrange(eq - pos + 1, seg.len() as int) =~= raw@);
            let value = if decode {
                match percent_decode(raw) {
                    Some(d) => d,
                    None => raw.to_owned(),
                }
            } else {
                raw.to_owned()
            };
            acc = Some(value);
        } else {
            proof {
                if eq < amp {
                    assert(seg.subrange(0, eq - pos) =~= s@.subrange(pos as int, eq as int));
                }
            }
        }
        if amp == n {
            return acc;
        }
        assert(rest.subrange(i + 1, rest.len() as int) =~= s@.subrange(amp + 1, n as int));
        pos = amp + 1;
    }
}

} // verus!
