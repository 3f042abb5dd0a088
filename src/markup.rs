use vstd::prelude::*;

use crate::text::{chars_of, first_index, lemma_first_index, trim_chars, trimmed};

verus! {

/// The text with every match of the pattern `<[^>]*>` removed, left to
/// right: each match runs from a `<` to the next `>`.
pub open spec fn tags_removed(s: Seq<char>) -> Seq<char>
    decreases s.len(),
{
    let i = first_index(s, '<');
    if i < 0 || i >= s.len() {
        s
    } else {
        let rest = s.subrange(i + 1, s.len() as int);
        let j = first_index(rest, '>');
        if j < 0 || j >= rest.len() {
            s
        } else {
            s.subrange(0, i) + tags_removed(rest.subrange(j + 1, rest.len() as int))
        }
    }
}

/// The text in lower case, as `str::to_lowercase` gives it.
pub uninterp spec fn lower_of(s: Seq<char>) -> Seq<char>;

/// Relies on `regex::Regex::replace_all` with the pattern `<[^>]*>` and an
/// empty replacement: the text without its tags.
#[verifier::external_body]
fn remove_tags(s: &str) -> (r: String)
    ensures
        r@ == tags_removed(s@),
{
    regex::Regex::new(r"<[^>]*>").unwrap().replace_all(s, "").into_owned()
}

/// Relies on `str::to_lowercase`: the text in lower case.
#[verifier::external_body]
fn lowercase(s: &str) -> (r: String)
    ensures
        r@ == lower_of(s@),
{
    s.to_lowercase()
}

/// Relies on collecting characters into a `String`: the text they spell.
#[verifier::external_body]
pub fn text_of_chars(c: &Vec<char>) -> (r: String)
    ensures
        r@ == c@,
{
    c.iter().collect()
}

/// Every occurrence of `from` replaced by `to`, scanning left to right, as
/// `str::replace` does.
pub open spec fn replace_all(s: Seq<char>, from: Seq<char>, to: Seq<char>) -> Seq<char>
    decreases s.len(),
{
    if from.len() == 0 || s.len() < from.len() {
        s
    } else if s.subrange(0, from.len() as int) == from {
        to + replace_all(s.subrange(from.len() as int, s.len() as int), from, to)
    } else {
        seq![s[0]] + replace_all(s.drop_first(), from, to)
    }
}

/// The common HTML entities decoded, in this order.
pub open spec fn decode_entities(s: Seq<char>) -> Seq<char> {
    let a = replace_all(s, "&lt;"@, "<"@);
    let b = replace_all(a, "&gt;"@, ">"@);
    let c = replace_all(b, "&amp;"@, "&"@);
    let d = replace_all(c, "&quot;"@, "\""@);
    let e = replace_all(d, "&#39;"@, "'"@);
    let f = replace_all(e, "&nbsp;"@, " "@);
    replace_all(f, "&apos;"@, "'"@)
}

/// The lines of a text, as `str::lines` gives them: split at `\n`, a `\r`
/// before it dropped, no empty last line after a final `\n`.
pub open spec fn lines_of(s: Seq<char>) -> Seq<Seq<char>>
    decreases s.len(),
{
    if s.len() == 0 {
        Seq::empty()
    } else {
        let i = first_index(s, '\n');
        if i < 0 || i >= s.len() {
            seq![s]
        } else {
            seq![strip_cr(s.subrange(0, i))] + lines_of(s.subrange(i + 1, s.len() as int))
        }
    }
}

pub open spec fn strip_cr(l: Seq<char>) -> Seq<char> {
    if l.len() > 0 && l.last() == '\r' {
        l.drop_last()
    } else {
        l
    }
}

pub open spec fn starts_with(s: Seq<char>, p: Seq<char>) -> bool {
    s.len() >= p.len() && s.subrange(0, p.len() as int) == p
}

/// A line worth keeping in a summary: not empty and no "comments" or
/// "read more" link text.
pub open spec fn keep_line(l: Seq<char>) -> bool {
    let t = lower_of(trimmed(l));
    &&& !starts_with(t, "comments"@)
    &&& t != "read more"@
    &&& t.len() != 0
}

/// The lines kept, after those already kept in `acc`.
pub open spec fn kept_lines(ls: Seq<Seq<char>>) -> Seq<Seq<char>>
    decreases ls.len(),
{
    if ls.len() == 0 {
        Seq::empty()
    } else if keep_line(ls[0]) {
        seq![ls[0]] + kept_lines(ls.drop_first())
    } else {
        kept_lines(ls.drop_first())
    }
}

/// Lines joined with single spaces.
pub open spec fn join_space(ls: Seq<Seq<char>>) -> Seq<char>
    decreases ls.len(),
{
    if ls.len() == 0 {
        Seq::empty()
    } else if ls.len() == 1 {
        ls[0]
    } else {
        join_space(ls.drop_last()) + seq![' '] + ls.last()
    }
}

/// Plain text from HTML: tags removed, common entities decoded, empty and
/// "comments" / "read more" lines dropped, the rest joined by spaces and
/// trimmed; empty where nothing, or only "comments", is left.
pub open spec fn stripped(html: Seq<char>) -> Seq<char> {
    let text = decode_entities(tags_removed(html));
    let cleaned = trimmed(join_space(kept_lines(lines_of(text))));
    if trimmed(lower_of(cleaned)) == "comments"@ || trimmed(cleaned).len() == 0 {
        Seq::empty()
    } else {
        cleaned
    }
}

fn matches_at(s: &Vec<char>, i: usize, p: &Vec<char>) -> (r: bool)
    requires
        i <= s@.len(),
    ensures
        r == (s@.len() - i >= p@.len() && s@.subrange(i as int, i + p@.len()) == p@),
{
    if s.len() - i < p.len() {
        return false;
    }
    let mut j: usize = 0;
    while j < p.len()
        invariant
            i + p@.len() <= s@.len(),
            s@.len() == s.len(),
            j <= p@.len(),
            forall|m: int| 0 <= m < j ==> s@[i + m] == p@[m],
        decreases p@.len() - j,
    {
        if s[i + j] != p[j] {
            assert(s@.subrange(i as int, i + p@.len())[j as int] != p@[j as int]);
            return false;
        }
        j += 1;
    }
    assert(s@.subrange(i as int, i + p@.len()) =~= p@);
    true
}

fn replace_chars(s: &Vec<char>, from: &str, to: &str) -> (r: Vec<char>)
    ensures
        r@ == replace_all(s@, from@, to@),
{
    let f = chars_of(from);
    let t = chars_of(to);
    if f.len() == 0 {
        let mut r: Vec<char> = Vec::new();
        let mut k: usize = 0;
        while k < s.len()
            invariant
                k <= s@.len(),
                r@ == s@.subrange(0, k as int),
            decreases s@.len() - k,
        {
            r.push(s[k]);
            k += 1;
            assert(r@ =~= s@.subrange(0, k as int));
        }
        assert(r@ =~= s@);
        return r;
    }
    let mut out: Vec<char> = Vec::new();
    let mut i: usize = 0;
    let n = s.len();
    assert(s@.subrange(0, n as int) =~= s@);
    while i < n
        invariant
            n == s@.len(),
            i <= n,
            f@ == from@,
            t@ == to@,
            f@.len() > 0,
            out@ + replace_all(s@.subrange(i as int, n as int), f@, t@) == replace_all(s@, f@, t@),
        decreases n - i,
    {
        let ghost rest = s@.subrange(i as int, n as int);
        if matches_at(s, i, &f) {
            assert(rest.subrange(0, f@.len() as int) =~= s@.subrange(i as int, i + f@.len()));
            assert(rest.subrange(f@.len() as int, rest.len() as int) =~= s@.subrange(
                i + f@.len(),
                n as int,
            ));
            let ghost before = out@;
            let mut k: usize = 0;
            while k < t.len()
                invariant
                    k <= t@.len(),
                    out@ == before + t@.subrange(0, k as int),
                decreases t@.len() - k,
            {
                out.push(t[k]);
                k += 1;
                assert(out@ =~= before + t@.subrange(0, k as int));
            }
            assert(t@.subrange(0, k as int) =~= t@);
            assert(out@ + replace_all(s@.subrange(i + f@.len(), n as int), f@, t@) =~= before
                + replace_all(rest, f@, t@));
            i = i + f.len();
        } else {
            proof {
                if rest.len() >= f@.len() {
                    assert(rest.subrange(0, f@.len() as int) =~= s@.subrange(
                        i as int,
                        i + f@.len(),
                    ));
                }
            }
            assert(rest.drop_first() =~= s@.subrange(i + 1, n as int));
            let ghost before = out@;
            out.push(s[i]);
            proof {
                if rest.len() >= f@.len() {
                    assert(out@ + replace_all(s@.subrange(i + 1, n as int), f@, t@) =~= before
                        + replace_all(rest, f@, t@));
                } else {
                    assert(replace_all(rest, f@, t@) == rest);
                    assert(replace_all(rest.drop_first(), f@, t@) == rest.drop_first());
                    assert(out@ + replace_all(s@.subrange(i + 1, n as int), f@, t@) =~= before
                        + rest);
                }
            }
            i = i + 1;
        }
    }
    assert(s@.subrange(n as int, n as int) =~= Seq::<char>::empty());
    assert(replace_all(Seq::<char>::empty(), f@, t@) == Seq::<char>::empty());
    assert(out@ =~= out@ + Seq::<char>::empty());
    out
}

fn keep(line: &Vec<char>) -> (r: bool)
    ensures
        r == keep_line(line@),
{
    let t = trim_chars(line);
    let lower = chars_of(lowercase(text_of_chars(&t).as_str()).as_str());
    let comments = chars_of("comments");
    let read_more = chars_of("read more");
    let starts = matches_at(&lower, 0, &comments);
    let is_read_more = lower.len() == read_more.len() && matches_at(&lower, 0, &read_more);
    proof {
        if lower@.len() == read_more@.len() {
            assert(lower@.subrange(0, read_more@.len() as int) =~= lower@);
        }
    }
    !starts && !is_read_more && lower.len() != 0
}

/// Strips tags from HTML and cleans the text for a summary.
pub fn strip_html(html: &str) -> (r: String)
    ensures
        r@ == stripped(html@),
{
    let tagless = remove_tags(html);
    let c0 = chars_of(tagless.as_str());
    let c1 = replace_chars(&c0, "&lt;", "<");
    let c2 = replace_chars(&c1, "&gt;", ">");
    let c3 = replace_chars(&c2, "&amp;", "&");
    let c4 = replace_chars(&c3, "&quot;", "\"");
    let c5 = replace_chars(&c4, "&#39;", "'");
    let c6 = replace_chars(&c5, "&nbsp;", " ");
    let text = replace_chars(&c6, "&apos;", "'");
    let ghost tv = text@;
    assert(tv == decode_entities(tags_removed(html@)));
    let n = text.len();
    let mut kept: Vec<Vec<char>> = Vec::new();
    let mut pos: usize = 0;
    assert(tv.subrange(0, n as int) =~= tv);
    while pos < n
        invariant
            n == tv.len(),
            tv == text@,
            pos <= n,
            kept@.map_values(|l: Vec<char>| l@) + kept_lines(lines_of(tv.subrange(pos as int, n as int)))
                == kept_lines(lines_of(tv)),
        decreases n - pos,
    {
        let ghost rest = tv.subrange(pos as int, n as int);
        let mut e: usize = pos;
        while e < n && text[e] != '\n'
            invariant
                pos <= e <= n,
                n == text@.len(),
                forall|j: int| pos <= j < e ==> text@[j] != '\n',
            decreases n - e,
        {
            e += 1;
        }
        proof {
            assert forall|j: int| 0 <= j < e - pos implies rest[j] != '\n' by {
                assert(rest[j] == tv[pos + j]);
            }
            if e < n {
                assert(rest[e - pos] == tv[e as int]);
            }
            lemma_first_index(rest, '\n', e - pos);
        }
        let mut line: Vec<char> = Vec::new();
        let mut k: usize = pos;
        while k < e
            invariant
                pos <= k <= e <= n,
                n == text@.len(),
                line@ == text@.subrange(pos as int, k as int),
            decreases e - k,
        {
            line.push(text[k]);
            k += 1;
            assert(line@ =~= text@.subrange(pos as int, k as int));
        }
        if e < n && line.len() > 0 && line[line.len() - 1] == '\r' {
            line.pop();
        }
        let ghost lv = line@;
        proof {
            if e < n {
                assert(rest.subrange(0, e - pos) =~= tv.subrange(pos as int, e as int));
                assert(lv == strip_cr(rest.subrange(0, e - pos)));
                assert(rest.subrange(e - pos + 1, rest.len() as int) =~= tv.subrange(
                    e + 1,
                    n as int,
                ));
                assert(lines_of(rest) == seq![lv] + lines_of(tv.subrange(e + 1, n as int)));
            } else {
                assert(lv =~= rest);
                assert(lines_of(rest) == seq![lv]);
                assert(tv.subrange(n as int, n as int) =~= Seq::<char>::empty());
                assert(seq![lv].drop_first() =~= Seq::<Seq<char>>::empty());
            }
        }
        let ghost before = kept@.map_values(|l: Vec<char>| l@);
        let ghost ls = lines_of(rest);
        assert(ls[0] == lv);
        if keep(&line) {
            kept.push(line);
            assert(kept@.map_values(|l: Vec<char>| l@) =~= before.push(lv));
            assert(kept_lines(ls) == seq![lv] + kept_lines(ls.drop_first()));
            assert(before.push(lv) + kept_lines(ls.drop_first()) =~= before + (seq![lv]
                + kept_lines(ls.drop_first())));
        } else {
            assert(kept_lines(ls) == kept_lines(ls.drop_first()));
        }
        if e < n {
            assert(ls.drop_first() =~= lines_of(tv.subrange(e + 1, n as int)));
            pos = e + 1;
        } else {
            assert(ls.drop_first() =~= Seq::<Seq<char>>::empty());
            assert(lines_of(tv.subrange(n as int, n as int)) =~= Seq::<Seq<char>>::empty());
            pos = n;
        }
    }
    assert(tv.subrange(n as int, n as int) =~= Seq::<char>::empty());
    let ghost kv = kept@.map_values(|l: Vec<char>| l@);
    assert(kv + kept_lines(lines_of(Seq::<char>::empty())) =~= kv);
    let mut joined: Vec<char> = Vec::new();
    let mut i: usize = 0;
    assert(kv.subrange(0, 0) =~= Seq::<Seq<char>>::empty());
    while i < kept.len()
        invariant
            i <= kept@.len(),
            kv == kept@.map_values(|l: Vec<char>| l@),
            joined@ == join_space(kv.subrange(0, i as int)),
        decreases kept@.len() - i,
    {
        let ghost before = joined@;
        let ghost sub = kv.subrange(0, i + 1);
        assert(sub.drop_last() =~= kv.subrange(0, i as int));
        assert(sub.last() == kept@[i as int]@);
        if i > 0 {
            joined.push(' ');
        }
        let line = &kept[i];
        let mut k: usize = 0;
        let ghost mid = joined@;
        while k < line.len()
            invariant
                k <= line@.len(),
                joined@ == mid + line@.subrange(0, k as int),
            decreases line@.len() - k,
        {
            joined.push(line[k]);
            k += 1;
            assert(joined@ =~= mid + line@.subrange(0, k as int));
        }
        assert(line@.subrange(0, k as int) =~= line@);
        if i == 0 {
            assert(joined@ =~= sub[0]);
        } else {
            assert(joined@ =~= before + seq![' '] + sub.last());
        }
        i += 1;
    }
    assert(kv.subrange(0, i as int) =~= kv);
    let cleaned = trim_chars(&joined);
    let cleaned_text = text_of_chars(&cleaned);
    let lower = chars_of(lowercase(cleaned_text.as_str()).as_str());
    let lower_trim = trim_chars(&lower);
    let comments = chars_of("comments");
    let only_comments = lower_trim.len() == comments.len() && matches_at(&lower_trim, 0, &comments);
    proof {
        if lower_trim@.len() == comments@.len() {
            assert(lower_trim@.subrange(0, comments@.len() as int) =~= lower_trim@);
        }
    }
    let again = trim_chars(&cleaned);
    if only_comments || again.len() == 0 {
        String::new()
    } else {
        cleaned_text
    }
}

} // verus!
