use vstd::prelude::*;
use vstd::string::StringSliceAdditionalSpecFns;
use vstd::utf8::encode_utf8;

use crate::model::IngestedItem;
use crate::text::first_index;

verus! {

/// The classifier's verdict on whether a feed delivered a whole article.
#[derive(Debug, Clone, Copy, PartialEq, Eq, Structural)]
pub enum ContentCompleteness {
    Full,
    Partial,
    Unknown,
}

/// How sure the classifier is of its verdict.
#[derive(Debug, Clone, Copy, PartialEq, Eq, Structural)]
pub enum Confidence {
    High,
    Medium,
    Low,
}

pub open spec fn completeness_word(c: ContentCompleteness) -> Seq<char> {
    match c {
        ContentCompleteness::Full => seq!['f', 'u', 'l', 'l'],
        ContentCompleteness::Partial => seq!['p', 'a', 'r', 't', 'i', 'a', 'l'],
        ContentCompleteness::Unknown => seq!['u', 'n', 'k', 'n', 'o', 'w', 'n'],
    }
}

pub open spec fn confidence_word(c: Confidence) -> Seq<char> {
    match c {
        Confidence::High => seq!['h', 'i', 'g', 'h'],
        Confidence::Medium => seq!['m', 'e', 'd', 'i', 'u', 'm'],
        Confidence::Low => seq!['l', 'o', 'w'],
    }
}

impl ContentCompleteness {
    pub fn as_str(&self) -> (r: &'static str)
        ensures
            r@ == completeness_word(*self),
    {
        match self {
            ContentCompleteness::Full => {
                proof {
                    reveal_strlit("full");
                }
                "full"
            },
            ContentCompleteness::Partial => {
                proof {
                    reveal_strlit("partial");
                }
                "partial"
            },
            ContentCompleteness::Unknown => {
                proof {
                    reveal_strlit("unknown");
                }
                "unknown"
            },
        }
    }
}

impl Confidence {
    pub fn as_str(&self) -> (r: &'static str)
        ensures
            r@ == confidence_word(*self),
    {
        match self {
            Confidence::High => {
                proof {
                    reveal_strlit("high");
                }
                "high"
            },
            Confidence::Medium => {
                proof {
                    reveal_strlit("medium");
                }
                "medium"
            },
            Confidence::Low => {
                proof {
                    reveal_strlit("low");
                }
                "low"
            },
        }
    }
}

/// The classifier's answer: the verdict, its confidence as a word
/// (`high`, `medium`, `low`) and a short human-readable reason.
#[derive(Debug, Clone)]
pub struct DetectionResult {
    pub completeness: ContentCompleteness,
    pub confidence: String,
    pub reason: String,
}

/// The bytes `<![CDATA[`.
pub open spec fn cdata_open() -> Seq<u8> {
    seq![60u8, 33u8, 91u8, 67u8, 68u8, 65u8, 84u8, 65u8, 91u8]
}

pub open spec fn starts_with_bytes(b: Seq<u8>, p: Seq<u8>) -> bool {
    b.len() >= p.len() && b.subrange(0, p.len() as int) == p
}

/// Text that opens a CDATA section and is shorter than 200 bytes.
pub open spec fn is_cdata_only(b: Seq<u8>) -> bool {
    starts_with_bytes(b, cdata_open()) && b.len() < 200
}

/// Text holding both `<` and `>`.
pub open spec fn has_markup(b: Seq<u8>) -> bool {
    b.contains(60u8) && b.contains(62u8)
}

/// The classifier's decision ladder over the delivered content `c` and
/// summary `s` (as UTF-8 bytes), whether the item has a URL, the number of
/// HTML tags in `c` and the number of its bytes that lie in anchor markup.
/// The first rule that applies decides.
pub open spec fn verdict(c: Seq<u8>, s: Seq<u8>, has_url: bool, tags: nat, link_len: nat) -> (
    ContentCompleteness,
    Confidence,
) {
    let cl = c.len();
    let sl = s.len();
    let cdata = is_cdata_only(c);
    let mostly_link = cl > 0 && link_len > 0 && 10 * link_len > 7 * cl;
    let much_longer = if sl > 0 {
        cl > 3 * sl
    } else {
        cl > 0
    };
    if cl > 500 && has_markup(c) && tags > 5 {
        (ContentCompleteness::Full, Confidence::High)
    } else if cdata || is_cdata_only(s) || mostly_link {
        (ContentCompleteness::Partial, Confidence::High)
    } else if cl < 100 && sl > 0 {
        (ContentCompleteness::Partial, Confidence::High)
    } else if has_url && cl < 150 && (cl == 0 || cdata) {
        (ContentCompleteness::Partial, Confidence::High)
    } else if cl == 0 && sl > 0 {
        (ContentCompleteness::Partial, Confidence::Medium)
    } else if cl > 300 && sl == 0 && has_markup(c) {
        (ContentCompleteness::Full, Confidence::Medium)
    } else if much_longer && cl > 200 {
        (ContentCompleteness::Full, Confidence::Medium)
    } else if cl > 0 && cl < 300 {
        (ContentCompleteness::Partial, Confidence::Low)
    } else {
        (ContentCompleteness::Unknown, Confidence::Low)
    }
}

/// The number of matches of the pattern `<[^>]+>` in a text, found left to
/// right without overlap: each runs from a `<` to the next `>`, with at
/// least one character between them.
pub open spec fn html_tag_count(s: Seq<char>) -> nat
    decreases s.len(),
{
    let i = first_index(s, '<');
    if i < 0 || i >= s.len() {
        0
    } else {
        let rest = s.subrange(i + 1, s.len() as int);
        let j = first_index(rest, '>');
        if j < 0 || j >= rest.len() {
            0
        } else if j == 0 {
            html_tag_count(rest)
        } else {
            1 + html_tag_count(rest.subrange(j + 1, rest.len() as int))
        }
    }
}

/// The byte spans of the matches of the pattern `<a[^>]*>.*?</a>` in a text.
pub uninterp spec fn link_spans(s: Seq<char>) -> Seq<(usize, usize)>;

/// The total length of a list of spans.
pub open spec fn spans_total(sp: Seq<(usize, usize)>) -> nat
    decreases sp.len(),
{
    if sp.len() == 0 {
        0
    } else {
        spans_total(sp.drop_last()) + (sp.last().1 - sp.last().0) as nat
    }
}

/// Relies on `regex::Regex::find_iter` for the pattern `<[^>]+>`: the
/// number of successive non-overlapping matches.
#[verifier::external_body]
fn count_html_tags(s: &str) -> (r: usize)
    ensures
        r as nat == html_tag_count(s@),
{
    regex::Regex::new(r"<[^>]+>").unwrap().find_iter(s).count()
}

/// Relies on `regex::Regex::find_iter` for the pattern `<a[^>]*>.*?</a>`:
/// the byte offsets of the successive non-overlapping matches, in order.
#[verifier::external_body]
fn find_link_spans(s: &str) -> (r: Vec<(usize, usize)>)
    ensures
        r@ == link_spans(s@),
        forall|i: int| 0 <= i < r@.len() ==> r@[i].0 <= r@[i].1 && r@[i].1 <= s.spec_bytes().len(),
        forall|i: int| 0 < i < r@.len() ==> r@[i - 1].1 <= r@[i].0,
{
    regex::Regex::new(r"<a[^>]*>.*?</a>").unwrap().find_iter(s).map(|m| (m.start(), m.end())).collect()
}

fn contains_byte(b: &[u8], x: u8) -> (r: bool)
    ensures
        r == b@.contains(x),
{
    let mut i: usize = 0;
    while i < b.len()
        invariant
            i <= b@.len(),
            forall|j: int| 0 <= j < i ==> b@[j] != x,
        decreases b@.len() - i,
    {
        if b[i] == x {
            return true;
        }
        i += 1;
    }
    false
}

fn starts_with_cdata(b: &[u8]) -> (r: bool)
    ensures
        r == starts_with_bytes(b@, cdata_open()),
{
    let p: Vec<u8> = vec![60u8, 33u8, 91u8, 67u8, 68u8, 65u8, 84u8, 65u8, 91u8];
    assert(p@ =~= cdata_open());
    if b.len() < p.len() {
        return false;
    }
    let mut i: usize = 0;
    while i < p.len()
        invariant
            p@ == cdata_open(),
            p@.len() <= b@.len(),
            i <= p@.len(),
            forall|j: int| 0 <= j < i ==> b@[j] == p@[j],
        decreases p@.len() - i,
    {
        if b[i] != p[i] {
            assert(b@.subrange(0, p@.len() as int)[i as int] != p@[i as int]);
            return false;
        }
        i += 1;
    }
    assert(b@.subrange(0, p@.len() as int) =~= p@);
    true
}

fn result_of(completeness: ContentCompleteness, confidence: Confidence, reason: &str) -> (r:
    DetectionResult)
    ensures
        r.completeness == completeness,
        r.confidence@ == confidence_word(confidence),
{
    DetectionResult {
        completeness,
        confidence: String::from_str(confidence.as_str()),
        reason: String::from_str(reason),
    }
}

/// Applies the decision ladder to a content text, a summary text, the URL,
/// the number of HTML tags in the content and the number of content bytes
/// in anchor markup.
pub fn classify_content(
    content: &str,
    summary: &str,
    url: &str,
    tag_count: usize,
    link_len: usize,
) -> (r: DetectionResult)
    ensures
        r.completeness == verdict(
            content.spec_bytes(),
            summary.spec_bytes(),
            url@.len() > 0,
            tag_count as nat,
            link_len as nat,
        ).0,
        r.confidence@ == confidence_word(
            verdict(
                content.spec_bytes(),
                summary.spec_bytes(),
                url@.len() > 0,
                tag_count as nat,
                link_len as nat,
            ).1,
        ),
{
    let c = content.as_bytes();
    let s = summary.as_bytes();
    let cl = c.len();
    let sl = s.len();
    let has_url = !url.is_empty();
    let has_tags = contains_byte(c, 60u8) && contains_byte(c, 62u8);
    let cdata = starts_with_cdata(c) && cl < 200;
    let summary_cdata = starts_with_cdata(s) && sl < 200;
    let mostly_link = cl > 0 && link_len > 0 && 10 * (link_len as u128) > 7 * (cl as u128);
    let much_longer = if sl > 0 {
        (cl as u128) > 3 * (sl as u128)
    } else {
        cl > 0
    };
    if cl > 500 && has_tags && tag_count > 5 {
        result_of(
            ContentCompleteness::Full,
            Confidence::High,
            "content is long with substantial HTML structure",
        )
    } else if cdata || summary_cdata || mostly_link {
        result_of(
            ContentCompleteness::Partial,
            Confidence::High,
            "content is CDATA-only or mostly links; the item URL is fetched",
        )
    } else if cl < 100 && sl > 0 {
        result_of(
            ContentCompleteness::Partial,
            Confidence::High,
            "content is very short and a summary exists",
        )
    } else if has_url && cl < 150 && (cl == 0 || cdata) {
        result_of(
            ContentCompleteness::Partial,
            Confidence::High,
            "a URL is available but the content is minimal or empty",
        )
    } else if cl == 0 && sl > 0 {
        result_of(
            ContentCompleteness::Partial,
            Confidence::Medium,
            "no content, only a summary",
        )
    } else if cl > 300 && sl == 0 && has_tags {
        result_of(
            ContentCompleteness::Full,
            Confidence::Medium,
            "content has HTML structure and no summary",
        )
    } else if much_longer && cl > 200 {
        result_of(
            ContentCompleteness::Full,
            Confidence::Medium,
            "content is much longer than the summary",
        )
    } else if cl > 0 && cl < 300 {
        result_of(
            ContentCompleteness::Partial,
            Confidence::Low,
            "content exists but is short",
        )
    } else {
        result_of(
            ContentCompleteness::Unknown,
            Confidence::Low,
            "completeness could not be determined",
        )
    }
}

/// The characters of an optional text; none where it is absent.
pub open spec fn text_of(o: Option<String>) -> Seq<char> {
    match o {
        Some(s) => s@,
        None => Seq::empty(),
    }
}

/// The verdict on an item's delivered fields.
pub open spec fn item_verdict(item: IngestedItem) -> (ContentCompleteness, Confidence) {
    let c = text_of(item.content_html);
    verdict(
        encode_utf8(c),
        encode_utf8(text_of(item.summary)),
        item.url@.len() > 0,
        html_tag_count(c),
        spans_total(link_spans(c)),
    )
}

fn link_markup_len(content: &str) -> (r: usize)
    ensures
        r as nat == spans_total(link_spans(content@)),
{
    let sp = find_link_spans(content);
    let mut total: usize = 0;
    let mut i: usize = 0;
    while i < sp.len()
        invariant
            i <= sp@.len(),
            sp@ == link_spans(content@),
            forall|j: int| 0 <= j < sp@.len() ==> sp@[j].0 <= sp@[j].1 && sp@[j].1 <= content.spec_bytes().len(),
            forall|j: int| 0 < j < sp@.len() ==> sp@[j - 1].1 <= sp@[j].0,
            total as nat == spans_total(sp@.subrange(0, i as int)),
            i > 0 ==> total <= sp@[i - 1].1,
        decreases sp@.len() - i,
    {
        let (a, b) = sp[i];
        assert(sp@.subrange(0, i + 1).drop_last() =~= sp@.subrange(0, i as int));
        total = total + (b - a);
        i += 1;
    }
    assert(sp@.subrange(0, sp@.len() as int) =~= sp@);
    total
}

/// Decides whether an item's delivered content is the whole article. The
/// decision depends on the item's fields alone; the URL that extraction
/// later fetches is always the item's own `url`.
pub fn detect_content_completeness(item: &IngestedItem) -> (r: DetectionResult)
    ensures
        r.completeness == item_verdict(*item).0,
        r.confidence@ == confidence_word(item_verdict(*item).1),
{
    let empty = String::new();
    let content: &str = match &item.content_html {
        Some(c) => c.as_str(),
        None => empty.as_str(),
    };
    let summary: &str = match &item.summary {
        Some(s) => s.as_str(),
        None => empty.as_str(),
    };
    let c = content.as_bytes();
    let has_tags = contains_byte(c, 60u8) && contains_byte(c, 62u8);
    let tags: usize = if has_tags {
        count_html_tags(content)
    } else {
        0
    };
    let links: usize = if c.len() > 0 {
        link_markup_len(content)
    } else {
        0
    };
    classify_content(content, summary, item.url.as_str(), tags, links)
}

/// The classifier is a function of the item's fields: two items with the
/// same delivered fields get the same verdict and confidence.
pub proof fn lemma_verdict_stable(a: IngestedItem, b: IngestedItem)
    requires
        text_of(a.content_html) == text_of(b.content_html),
        text_of(a.summary) == text_of(b.summary),
        a.url@ == b.url@,
    ensures
        item_verdict(a) == item_verdict(b),
{
}

} // verus!
