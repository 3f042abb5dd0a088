use vstd::prelude::*;

use crate::clock::{parse_rfc2822, parse_rfc3339, rfc2822_seconds, rfc3339_seconds};
use crate::markup::{starts_with, strip_html, stripped};
use crate::model::{copy_opt, copy_texts, opt_view, IngestedItem, IngestedView};
use crate::text::{chars_of, decimal_text, push_decimal};
use vstd::utf8::{encode_scalar, encode_utf8};
use vstd::string::StringSliceAdditionalSpecFns;

verus! {

/// A link of an Atom entry.
#[derive(Debug, Clone)]
pub struct AtomLink {
    pub rel: String,
    pub href: String,
    pub mime_type: Option<String>,
}

pub struct AtomLinkView {
    pub rel: Seq<char>,
    pub href: Seq<char>,
    pub mime_type: Option<Seq<char>>,
}

impl View for AtomLink {
    type V = AtomLinkView;

    open spec fn view(&self) -> AtomLinkView {
        AtomLinkView { rel: self.rel@, href: self.href@, mime_type: opt_view(self.mime_type) }
    }
}

/// The parts of an Atom entry that become an item.
#[derive(Debug, Clone)]
pub struct AtomEntry {
    pub id: String,
    pub title: String,
    /// The `updated` time, in seconds since the epoch.
    pub updated: i64,
    pub summary: Option<String>,
    /// The text of the `content` element, where it has one.
    pub content_value: Option<String>,
    /// The `src` of the `content` element, where it has one.
    pub content_src: Option<String>,
    pub links: Vec<AtomLink>,
    pub authors: Vec<String>,
    pub categories: Vec<String>,
}

pub open spec fn links_view(links: Seq<AtomLink>) -> Seq<AtomLinkView> {
    links.map_values(|l: AtomLink| l@)
}

/// Which link an entry's field comes from: 0 the page, 1 the image, 2 the
/// comments.
pub open spec fn link_matches(kind: u8, l: AtomLinkView) -> bool {
    if kind == 0 {
        is_page_link(l)
    } else if kind == 1 {
        is_image_enclosure(l)
    } else {
        is_comments_link(l)
    }
}

/// The position of the first link of a kind, or -1.
pub open spec fn first_link(links: Seq<AtomLinkView>, p: u8) -> int
    decreases links.len(),
{
    if links.len() == 0 {
        -1
    } else if link_matches(p, links[0]) {
        0
    } else {
        let r = first_link(links.drop_first(), p);
        if r < 0 {
            -1
        } else {
            r + 1
        }
    }
}

proof fn lemma_first_link(links: Seq<AtomLinkView>, p: u8, e: int)
    requires
        0 <= e <= links.len(),
        forall|j: int| 0 <= j < e ==> !link_matches(p, #[trigger] links[j]),
        e == links.len() || link_matches(p, links[e]),
    ensures
        first_link(links, p) == (if e == links.len() {
            -1
        } else {
            e
        }),
    decreases e,
{
    if e > 0 {
        let t = links.drop_first();
        assert forall|j: int| 0 <= j < e - 1 implies !link_matches(p, #[trigger] t[j]) by {
            assert(t[j] == links[j + 1]);
        }
        if e < links.len() {
            assert(t[e - 1] == links[e]);
        }
        lemma_first_link(t, p, e - 1);
    }
}

pub open spec fn link_href(links: Seq<AtomLinkView>, p: u8) -> Option<
    Seq<char>,
> {
    let i = first_link(links, p);
    if 0 <= i < links.len() {
        Some(links[i].href)
    } else {
        None
    }
}

pub open spec fn is_page_link(l: AtomLinkView) -> bool {
    l.rel == "alternate"@ || l.rel == "self"@
}

pub open spec fn is_image_enclosure(l: AtomLinkView) -> bool {
    l.rel == "enclosure"@ && (l.mime_type matches Some(m) && starts_with(m, "image/"@))
}

pub open spec fn is_comments_link(l: AtomLinkView) -> bool {
    l.rel == "replies"@ || l.rel == "comments"@
}

/// The content of an entry: the `content` text where it is not empty, else
/// the `content` source, else the summary.
pub open spec fn entry_content(e: AtomEntry) -> Option<Seq<char>> {
    if e.content_value matches Some(v) && v@.len() > 0 {
        Some(e.content_value->0@)
    } else if e.content_src is Some {
        Some(e.content_src->0@)
    } else {
        opt_view(e.summary)
    }
}

pub open spec fn looks_like_url(s: Seq<char>) -> bool {
    starts_with(s, "http://"@) || starts_with(s, "https://"@)
}

/// A summary as stored: the text stripped of markup, none where nothing
/// is left.
pub open spec fn clean_summary(s: Option<Seq<char>>) -> Option<Seq<char>> {
    match s {
        Some(v) => if v.len() == 0 || stripped(v).len() == 0 {
            None
        } else {
            Some(stripped(v))
        },
        None => None,
    }
}

pub open spec fn nonempty_list(v: Seq<Seq<char>>) -> Option<Seq<Seq<char>>> {
    if v.len() == 0 {
        None
    } else {
        Some(v)
    }
}

/// The item an Atom entry becomes.
pub open spec fn atom_item(e: AtomEntry) -> IngestedView {
    let links = links_view(e.links@);
    IngestedView {
        external_id: e.id@,
        title: if e.title@.len() == 0 {
            "Untitled"@
        } else {
            e.title@
        },
        summary: clean_summary(opt_view(e.summary)),
        url: match link_href(links, 0) {
            Some(h) => h,
            None => if looks_like_url(e.id@) {
                e.id@
            } else {
                Seq::empty()
            },
        },
        item_type: "atom"@,
        occurred_at: Some(e.updated),
        image_url: link_href(links, 1),
        content_html: entry_content(e),
        author: if e.authors@.len() > 0 {
            Some(e.authors@[0]@)
        } else {
            None
        },
        category: nonempty_list(e.categories.deep_view()),
        comments: link_href(links, 2),
        thread_id: None,
    }
}

fn text(s: &str) -> (r: String)
    ensures
        r@ == s@,
{
    String::from_str(s)
}

fn has_prefix(s: &str, p: &str) -> (r: bool)
    ensures
        r == starts_with(s@, p@),
{
    let c = chars_of(s);
    let q = chars_of(p);
    if c.len() < q.len() {
        return false;
    }
    let mut j: usize = 0;
    while j < q.len()
        invariant
            c@ == s@,
            q@ == p@,
            q@.len() <= c@.len(),
            j <= q@.len(),
            forall|m: int| 0 <= m < j ==> c@[m] == q@[m],
        decreases q@.len() - j,
    {
        if c[j] != q[j] {
            assert(c@.subrange(0, q@.len() as int)[j as int] != q@[j as int]);
            return false;
        }
        j += 1;
    }
    assert(c@.subrange(0, q@.len() as int) =~= q@);
    true
}

fn summary_of(s: &Option<String>) -> (r: Option<String>)
    ensures
        opt_view(r) == clean_summary(opt_view(*s)),
{
    match s {
        Some(v) => {
            if v.as_str().is_empty() {
                None
            } else {
                let c = strip_html(v.as_str());
                if c.as_str().is_empty() {
                    None
                } else {
                    Some(c)
                }
            }
        },
        None => None,
    }
}

fn find_link(links: &Vec<AtomLink>, kind: u8) -> (r: Option<String>)
    requires
        kind < 3,
    ensures
        opt_view(r) == link_href(links_view(links@), kind),
{
    let ghost p = kind;
    let ghost lv = links_view(links@);
    let mut i: usize = 0;
    while i < links.len()
        invariant
            i <= links@.len(),
            lv == links_view(links@),
            p == kind,
            forall|j: int| 0 <= j < i ==> !link_matches(p, #[trigger] lv[j]),
        decreases links@.len() - i,
    {
        let l = &links[i];
        assert(lv[i as int] == l@);
        let hit = if kind == 0 {
            l.rel == text("alternate") || l.rel == text("self")
        } else if kind == 1 {
            l.rel == text("enclosure") && match &l.mime_type {
                Some(m) => has_prefix(m.as_str(), "image/"),
                None => false,
            }
        } else {
            l.rel == text("replies") || l.rel == text("comments")
        };
        assert(hit == link_matches(p, lv[i as int]));
        if hit {
            proof {
                lemma_first_link(lv, p, i as int);
            }
            return Some(l.href.clone());
        }
        i += 1;
    }
    proof {
        lemma_first_link(lv, p, i as int);
    }
    None
}

/// Turns an Atom entry into an item.
pub fn atom_entry_to_item(entry: &AtomEntry) -> (r: IngestedItem)
    ensures
        r@ == atom_item(*entry),
{
    let title = if entry.title.as_str().is_empty() {
        text("Untitled")
    } else {
        entry.title.clone()
    };
    let url = match find_link(&entry.links, 0) {
        Some(h) => h,
        None => if has_prefix(entry.id.as_str(), "http://") || has_prefix(
            entry.id.as_str(),
            "https://",
        ) {
            entry.id.clone()
        } else {
            String::new()
        },
    };
    let content_html = match &entry.content_value {
        Some(v) => {
            if !v.as_str().is_empty() {
                Some(v.clone())
            } else {
                match &entry.content_src {
                    Some(s) => Some(s.clone()),
                    None => copy_opt(&entry.summary),
                }
            }
        },
        None => match &entry.content_src {
            Some(s) => Some(s.clone()),
            None => copy_opt(&entry.summary),
        },
    };
    let author = if entry.authors.len() > 0 {
        Some(entry.authors[0].clone())
    } else {
        None
    };
    let category = if entry.categories.len() > 0 {
        let c = copy_texts(&entry.categories);
        assert(c.deep_view() =~= entry.categories.deep_view());
        Some(c)
    } else {
        None
    };
    IngestedItem {
        external_id: entry.id.clone(),
        title,
        summary: summary_of(&entry.summary),
        url,
        item_type: text("atom"),
        occurred_at: Some(entry.updated),
        image_url: find_link(&entry.links, 1),
        content_html,
        author,
        category,
        comments: find_link(&entry.links, 2),
        thread_id: None,
    }
}

/// The parts of an RSS item that become an item.
#[derive(Debug, Clone)]
pub struct RssEntry {
    pub guid: Option<String>,
    pub title: Option<String>,
    pub link: Option<String>,
    pub description: Option<String>,
    /// The `content:encoded` text, where there is one.
    pub content_encoded: Option<String>,
    pub pub_date: Option<String>,
    /// A `media:content` or image-typed `enclosure` URL, where there is one.
    pub image_url: Option<String>,
    pub author: Option<String>,
    pub categories: Vec<String>,
    pub comments: Option<String>,
}

/// The item an RSS item becomes: identified by its GUID, else its link.
pub open spec fn rss_item(e: RssEntry) -> IngestedView {
    IngestedView {
        external_id: match opt_view(e.guid) {
            Some(g) => g,
            None => match opt_view(e.link) {
                Some(l) => l,
                None => Seq::empty(),
            },
        },
        title: match opt_view(e.title) {
            Some(t) => t,
            None => "Untitled"@,
        },
        summary: clean_summary(opt_view(e.description)),
        url: match opt_view(e.link) {
            Some(l) => l,
            None => Seq::empty(),
        },
        item_type: "rss"@,
        occurred_at: match opt_view(e.pub_date) {
            Some(d) => rfc2822_seconds(d),
            None => None,
        },
        image_url: opt_view(e.image_url),
        content_html: match opt_view(e.content_encoded) {
            Some(c) => Some(c),
            None => opt_view(e.description),
        },
        author: opt_view(e.author),
        category: nonempty_list(e.categories.deep_view()),
        comments: opt_view(e.comments),
        thread_id: None,
    }
}

/// Turns an RSS item into an item.
pub fn rss_entry_to_item(entry: &RssEntry) -> (r: IngestedItem)
    ensures
        r@ == rss_item(*entry),
{
    let external_id = match &entry.guid {
        Some(g) => g.clone(),
        None => match &entry.link {
            Some(l) => l.clone(),
            None => String::new(),
        },
    };
    let title = match &entry.title {
        Some(t) => t.clone(),
        None => text("Untitled"),
    };
    let url = match &entry.link {
        Some(l) => l.clone(),
        None => String::new(),
    };
    let occurred_at = match &entry.pub_date {
        Some(d) => parse_rfc2822(d.as_str()),
        None => None,
    };
    let content_html = match &entry.content_encoded {
        Some(c) => Some(c.clone()),
        None => copy_opt(&entry.description),
    };
    let category = if entry.categories.len() > 0 {
        let c = copy_texts(&entry.categories);
        assert(c.deep_view() =~= entry.categories.deep_view());
        Some(c)
    } else {
        None
    };
    IngestedItem {
        external_id,
        title,
        summary: summary_of(&entry.description),
        url,
        item_type: text("rss"),
        occurred_at,
        image_url: copy_opt(&entry.image_url),
        content_html,
        author: copy_opt(&entry.author),
        category,
        comments: copy_opt(&entry.comments),
        thread_id: None,
    }
}

/// The parts of a code-forge notification that become an item.
#[derive(Debug, Clone)]
pub struct NotificationFields {
    pub id: Option<String>,
    /// Whether the notification has a `subject` at all.
    pub has_subject: bool,
    pub title: Option<String>,
    pub subject_type: Option<String>,
    pub subject_url: Option<String>,
    pub reason: Option<String>,
    pub repo_full_name: Option<String>,
    pub updated_at: Option<String>,
}

pub open spec fn or_default(o: Option<String>, d: Seq<char>) -> Seq<char> {
    match o {
        Some(s) => s@,
        None => d,
    }
}

/// The web page of a notification: API URLs are rewritten to web URLs,
/// web URLs kept, anything else (or nothing) replaced by the thread page.
pub open spec fn notification_url(subject_url: Option<Seq<char>>, id: Seq<char>) -> Seq<char> {
    let api = "https://api.github.com/repos/"@;
    let thread = "https://github.com/notifications/threads/"@ + id;
    match subject_url {
        Some(s) => if starts_with(s, api) {
            "https://github.com/"@ + s.subrange(api.len() as int, s.len() as int)
        } else if starts_with(s, "https://github.com/"@) {
            s
        } else {
            thread
        },
        None => thread,
    }
}

/// The item a notification becomes; none without an id or a subject.
pub open spec fn notification_item(n: NotificationFields) -> Option<IngestedView> {
    let id = or_default(n.id, Seq::empty());
    if id.len() == 0 || !n.has_subject {
        None
    } else {
        Some(
            IngestedView {
                external_id: "notification_"@ + id,
                title: or_default(n.title, "Untitled"@),
                summary: Some(
                    or_default(n.subject_type, "unknown"@) + " - "@ + or_default(n.reason, "unknown"@),
                ),
                url: notification_url(opt_view(n.subject_url), id),
                item_type: "notification"@,
                occurred_at: match opt_view(n.updated_at) {
                    Some(t) => rfc3339_seconds(t),
                    None => None,
                },
                image_url: None,
                content_html: None,
                author: None,
                category: Some(seq![or_default(n.repo_full_name, "unknown"@)]),
                comments: None,
                thread_id: Some(id),
            },
        )
    }
}

fn value_or(o: &Option<String>, d: &str) -> (r: String)
    ensures
        r@ == or_default(*o, d@),
{
    match o {
        Some(s) => s.clone(),
        None => text(d),
    }
}

/// Turns a notification into an item, keeping its thread id.
pub fn notification_to_item(n: &NotificationFields) -> (r: Option<IngestedItem>)
    ensures
        match r {
            Some(it) => notification_item(*n) == Some(it@),
            None => notification_item(*n) is None,
        },
{
    let id = value_or(&n.id, "");
    proof {
        reveal_strlit("");
    }
    if id.as_str().is_empty() || !n.has_subject {
        return None;
    }
    let mut external_id = text("notification_");
    external_id.append(id.as_str());
    let mut summary = value_or(&n.subject_type, "unknown");
    summary.append(" - ");
    summary.append(value_or(&n.reason, "unknown").as_str());
    let mut thread = text("https://github.com/notifications/threads/");
    thread.append(id.as_str());
    let url = match &n.subject_url {
        Some(s) => {
            let api = "https://api.github.com/repos/";
            if has_prefix(s.as_str(), api) {
                let n_api = chars_of(api).len();
                let rest = s.as_str().substring_char(n_api, s.as_str().unicode_len());
                let mut u = text("https://github.com/");
                u.append(rest);
                u
            } else if has_prefix(s.as_str(), "https://github.com/") {
                s.clone()
            } else {
                thread
            }
        },
        None => thread,
    };
    let occurred_at = match &n.updated_at {
        Some(t) => parse_rfc3339(t.as_str()),
        None => None,
    };
    let mut category: Vec<String> = Vec::new();
    category.push(value_or(&n.repo_full_name, "unknown"));
    let ghost cv = category.deep_view();
    assert(cv =~= seq![or_default(n.repo_full_name, "unknown"@)]);
    Some(
        IngestedItem {
            external_id,
            title: value_or(&n.title, "Untitled"),
            summary: Some(summary),
            url,
            item_type: text("notification"),
            occurred_at,
            image_url: None,
            content_html: None,
            author: None,
            category: Some(category),
            comments: None,
            thread_id: Some(id),
        },
    )
}

/// The parts of a code-forge issue or pull request that become an item.
#[derive(Debug, Clone)]
pub struct IssueFields {
    pub number: u64,
    pub title: String,
    pub body: Option<String>,
    pub html_url: String,
    pub is_pull_request: bool,
    pub updated_at: String,
}

/// The most characters of an issue body kept in a summary.
pub const SUMMARY_LIMIT: usize = 500;

/// The number of bytes a character takes in UTF-8.
pub open spec fn char_width(c: char) -> int {
    encode_scalar(c as u32).len() as int
}

/// How many leading characters of `b` fit, encoded in UTF-8, into `limit`
/// bytes.
pub open spec fn fitting_chars(b: Seq<char>, limit: int) -> int
    decreases b.len(),
{
    if b.len() == 0 || char_width(b[0]) > limit {
        0
    } else {
        1 + fitting_chars(b.drop_first(), limit - char_width(b[0]))
    }
}

/// An issue body as a summary: where its UTF-8 encoding is longer than 500
/// bytes (not every character fits), the longest prefix that fits in 500
/// bytes, marked by `...`.
pub open spec fn body_summary(b: Seq<char>) -> Seq<char> {
    if fitting_chars(b, SUMMARY_LIMIT as int) < b.len() {
        b.subrange(0, fitting_chars(b, SUMMARY_LIMIT as int)) + "..."@
    } else {
        b
    }
}

proof fn lemma_prefix_encoding(b: Seq<char>, k: int)
    requires
        0 <= k <= b.len(),
    ensures
        encode_utf8(b.subrange(0, k)).len() <= encode_utf8(b).len(),
    decreases b.len(),
{
    if k == 0 {
        assert(b.subrange(0, 0) =~= Seq::<char>::empty());
    } else {
        let p = b.subrange(0, k);
        assert(p[0] == b[0]);
        assert(p.drop_first() =~= b.drop_first().subrange(0, k - 1));
        lemma_prefix_encoding(b.drop_first(), k - 1);
    }
}

/// A body is cut exactly where its UTF-8 encoding is longer than the limit.
pub proof fn lemma_cut_iff_longer(b: Seq<char>, limit: int)
    requires
        limit >= 0,
    ensures
        (fitting_chars(b, limit) < b.len()) == (encode_utf8(b).len() > limit),
{
    lemma_fitting_chars(b, limit);
    let f = fitting_chars(b, limit);
    if f < b.len() {
        lemma_prefix_encoding(b, f + 1);
    } else {
        assert(b.subrange(0, f) =~= b);
    }
}

/// The cut of a summary is the longest prefix whose UTF-8 encoding fits
/// the limit: it fits, and one more character would not.
pub proof fn lemma_fitting_chars(b: Seq<char>, limit: int)
    requires
        limit >= 0,
    ensures
        0 <= fitting_chars(b, limit) <= b.len(),
        encode_utf8(b.subrange(0, fitting_chars(b, limit))).len() <= limit,
        fitting_chars(b, limit) < b.len() ==> encode_utf8(
            b.subrange(0, fitting_chars(b, limit) + 1),
        ).len() > limit,
    decreases b.len(),
{
    let f = fitting_chars(b, limit);
    if b.len() == 0 || char_width(b[0]) > limit {
        assert(b.subrange(0, 0) =~= Seq::<char>::empty());
        if b.len() > 0 {
            let one = b.subrange(0, 1);
            assert(one.drop_first() =~= Seq::<char>::empty());
            assert(one[0] == b[0]);
        }
    } else {
        let t = b.drop_first();
        let w = char_width(b[0]);
        lemma_fitting_chars(t, limit - w);
        let g = fitting_chars(t, limit - w);
        let p = b.subrange(0, f);
        assert(p[0] == b[0]);
        assert(p.drop_first() =~= t.subrange(0, g));
        if f < b.len() {
            let q = b.subrange(0, f + 1);
            assert(q[0] == b[0]);
            assert(q.drop_first() =~= t.subrange(0, g + 1));
        }
    }
}

/// The item an issue of repository `owner/repo` becomes.
pub open spec fn issue_item(owner: Seq<char>, repo: Seq<char>, i: IssueFields) -> IngestedView {
    IngestedView {
        external_id: owner + "/"@ + repo + "#"@ + decimal_text(i.number as nat),
        title: i.title@,
        summary: match opt_view(i.body) {
            Some(b) => Some(body_summary(b)),
            None => None,
        },
        url: i.html_url@,
        item_type: if i.is_pull_request {
            "pr"@
        } else {
            "issue"@
        },
        occurred_at: rfc3339_seconds(i.updated_at@),
        image_url: None,
        content_html: None,
        author: None,
        category: Some(seq![owner + "/"@ + repo]),
        comments: None,
        thread_id: None,
    }
}

fn width_of(c: char) -> (r: usize)
    ensures
        r == char_width(c),
{
    let u = c as u32;
    if u <= 0x7F {
        1
    } else if u <= 0x7FF {
        2
    } else if u <= 0xFFFF && !(0xD800 <= u && u <= 0xDFFF) {
        3
    } else {
        4
    }
}

/// How many leading characters of `s` fit, in UTF-8, into `limit` bytes.
fn fitting_prefix(s: &str, limit: usize) -> (r: usize)
    ensures
        r == fitting_chars(s@, limit as int),
        r <= s@.len(),
{
    let c = chars_of(s);
    let n = c.len();
    let mut i: usize = 0;
    let mut used: usize = 0;
    assert(c@.subrange(0, n as int) =~= c@);
    while i < n && width_of(c[i]) <= limit - used
        invariant
            n == c@.len(),
            c@ == s@,
            i <= n,
            used <= limit,
            fitting_chars(s@, limit as int) == i + fitting_chars(
                c@.subrange(i as int, n as int),
                limit - used,
            ),
        decreases n - i,
    {
        let w = width_of(c[i]);
        let ghost rest = c@.subrange(i as int, n as int);
        assert(rest[0] == c@[i as int]);
        assert(rest.drop_first() =~= c@.subrange(i + 1, n as int));
        used = used + w;
        i += 1;
    }
    proof {
        let rest = c@.subrange(i as int, n as int);
        if i < n {
            assert(rest[0] == c@[i as int]);
        }
    }
    i
}

/// Turns an issue or pull request of `owner/repo` into an item.
pub fn issue_to_item(owner: &str, repo: &str, issue: &IssueFields) -> (r: IngestedItem)
    ensures
        r@ == issue_item(owner@, repo@, *issue),
{
    let mut full = text(owner);
    full.append("/");
    full.append(repo);
    let mut external_id = full.clone();
    external_id.append("#");
    push_decimal(&mut external_id, issue.number);
    let summary = match &issue.body {
        Some(b) => {
            let cut = fitting_prefix(b.as_str(), SUMMARY_LIMIT);
            if cut < b.as_str().unicode_len() {
                let mut s = text(b.as_str().substring_char(0, cut));
                s.append("...");
                Some(s)
            } else {
                Some(b.clone())
            }
        },
        None => None,
    };
    let mut category: Vec<String> = Vec::new();
    category.push(full);
    let ghost cv = category.deep_view();
    assert(cv =~= seq![owner@ + "/"@ + repo@]);
    IngestedItem {
        external_id,
        title: issue.title.clone(),
        summary,
        url: issue.html_url.clone(),
        item_type: if issue.is_pull_request {
            text("pr")
        } else {
            text("issue")
        },
        occurred_at: parse_rfc3339(issue.updated_at.as_str()),
        image_url: None,
        content_html: None,
        author: None,
        category: Some(category),
        comments: None,
        thread_id: None,
    }
}

/// What a paginating adapter does with one page it fetched.
#[derive(Debug, Clone, Copy, PartialEq, Eq, Structural)]
pub enum PageStep {
    /// Keep the page's entries and fetch the next page.
    TakeAndContinue,
    /// Keep the page's entries; it is the last.
    TakeAndStop,
    /// Nothing more to fetch.
    Stop,
    /// The endpoint is not available here; go on without it.
    Skip,
    /// The credential was refused (HTTP 401).
    Unauthorized,
    /// Access was denied (HTTP 403).
    Forbidden,
    /// The server answered with another error status.
    Failed(u16),
}

/// The page size that every paginated request asks for.
pub const PER_PAGE: usize = 100;

pub open spec fn success(status: u16) -> bool {
    200 <= status && status < 300
}

/// A page of notifications: "not modified" and an empty page end the walk,
/// a short page is the last.
pub open spec fn notification_step(status: u16, count: usize) -> PageStep {
    if status == 304 {
        PageStep::Stop
    } else if status == 401 {
        PageStep::Unauthorized
    } else if status == 403 {
        PageStep::Forbidden
    } else if !success(status) {
        PageStep::Failed(status)
    } else if count == 0 {
        PageStep::Stop
    } else if count < PER_PAGE {
        PageStep::TakeAndStop
    } else {
        PageStep::TakeAndContinue
    }
}

pub fn notification_page_step(status: u16, count: usize) -> (r: PageStep)
    ensures
        r == notification_step(status, count),
{
    if status == 304 {
        PageStep::Stop
    } else if status == 401 {
        PageStep::Unauthorized
    } else if status == 403 {
        PageStep::Forbidden
    } else if !(200 <= status && status < 300) {
        PageStep::Failed(status)
    } else if count == 0 {
        PageStep::Stop
    } else if count < PER_PAGE {
        PageStep::TakeAndStop
    } else {
        PageStep::TakeAndContinue
    }
}

/// The repository endpoints that not every repository offers.
pub open spec fn optional_endpoint(tag: Seq<char>) -> bool {
    tag == "discussions"@ || tag == "code_scanning_alerts"@ || tag == "packages"@ || tag
        == "projects"@
}

pub fn is_optional_endpoint(tag: &str) -> (r: bool)
    ensures
        r == optional_endpoint(tag@),
{
    let t = text(tag);
    t == text("discussions") || t == text("code_scanning_alerts") || t == text("packages") || t
        == text("projects")
}

/// Whether an entry of the issues listing belongs to an endpoint: pull
/// requests to `prs`, the other entries to `issues`.
pub open spec fn endpoint_keeps(tag: Seq<char>, is_pull_request: bool) -> bool {
    if is_pull_request {
        tag == "prs"@
    } else {
        tag == "issues"@
    }
}

pub fn keeps_entry(tag: &str, is_pull_request: bool) -> (r: bool)
    ensures
        r == endpoint_keeps(tag@, is_pull_request),
{
    let t = text(tag);
    if is_pull_request {
        t == text("prs")
    } else {
        t == text("issues")
    }
}

/// A page of a repository endpoint: 401 and 403 stop the sync, a missing
/// optional endpoint (404 or 410) is skipped, a short page is the last.
pub open spec fn endpoint_step(tag: Seq<char>, status: u16, count: usize) -> PageStep {
    if status == 401 {
        PageStep::Unauthorized
    } else if status == 403 {
        PageStep::Forbidden
    } else if (status == 404 || status == 410) && optional_endpoint(tag) {
        PageStep::Skip
    } else if !success(status) {
        PageStep::Failed(status)
    } else if count < PER_PAGE {
        PageStep::TakeAndStop
    } else {
        PageStep::TakeAndContinue
    }
}

pub fn endpoint_page_step(tag: &str, status: u16, count: usize) -> (r: PageStep)
    ensures
        r == endpoint_step(tag@, status, count),
{
    if status == 401 {
        PageStep::Unauthorized
    } else if status == 403 {
        PageStep::Forbidden
    } else if (status == 404 || status == 410) && is_optional_endpoint(tag) {
        PageStep::Skip
    } else if !(200 <= status && status < 300) {
        PageStep::Failed(status)
    } else if count < PER_PAGE {
        PageStep::TakeAndStop
    } else {
        PageStep::TakeAndContinue
    }
}

/// A page of the user's repositories: an empty page ends the walk, a short
/// page is the last.
pub open spec fn repos_step(status: u16, count: usize) -> PageStep {
    if !success(status) {
        PageStep::Failed(status)
    } else if count == 0 {
        PageStep::Stop
    } else if count < PER_PAGE {
        PageStep::TakeAndStop
    } else {
        PageStep::TakeAndContinue
    }
}

pub fn repos_page_step(status: u16, count: usize) -> (r: PageStep)
    ensures
        r == repos_step(status, count),
{
    if !(200 <= status && status < 300) {
        PageStep::Failed(status)
    } else if count == 0 {
        PageStep::Stop
    } else if count < PER_PAGE {
        PageStep::TakeAndStop
    } else {
        PageStep::TakeAndContinue
    }
}

/// Why a feed could not be fetched.
#[derive(Debug, Clone, Copy, PartialEq, Eq, Structural)]
pub enum FeedFetchError {
    /// HTTP 504: the server took too long.
    GatewayTimeout,
    /// HTTP 404: no feed at that address.
    NotFound,
    /// HTTP 403: access denied or authentication required.
    Forbidden,
    /// Another error status.
    Http(u16),
}

pub open spec fn fetch_error_of(status: u16) -> Option<FeedFetchError> {
    if success(status) {
        None
    } else if status == 504 {
        Some(FeedFetchError::GatewayTimeout)
    } else if status == 404 {
        Some(FeedFetchError::NotFound)
    } else if status == 403 {
        Some(FeedFetchError::Forbidden)
    } else {
        Some(FeedFetchError::Http(status))
    }
}

/// The error that a feed fetch's status means, if any.
pub fn feed_fetch_error(status: u16) -> (r: Option<FeedFetchError>)
    ensures
        r == fetch_error_of(status),
{
    if 200 <= status && status < 300 {
        None
    } else if status == 504 {
        Some(FeedFetchError::GatewayTimeout)
    } else if status == 404 {
        Some(FeedFetchError::NotFound)
    } else if status == 403 {
        Some(FeedFetchError::Forbidden)
    } else {
        Some(FeedFetchError::Http(status))
    }
}

impl FeedFetchError {
    /// A message for the user that names the feed's address.
    pub fn message(&self, url: &str) -> (r: String)
        ensures
            r@ == (match *self {
                FeedFetchError::GatewayTimeout => "Server timeout (504) fetching "@ + url@,
                FeedFetchError::NotFound => "Feed not found (404) at "@ + url@,
                FeedFetchError::Forbidden => "Access denied (403) to "@ + url@
                    + "; the feed may require authentication"@,
                FeedFetchError::Http(s) => "HTTP error "@ + decimal_text(s as nat) + " fetching "@
                    + url@,
            }),
    {
        match self {
            FeedFetchError::GatewayTimeout => {
                let mut m = text("Server timeout (504) fetching ");
                m.append(url);
                m
            },
            FeedFetchError::NotFound => {
                let mut m = text("Feed not found (404) at ");
                m.append(url);
                m
            },
            FeedFetchError::Forbidden => {
                let mut m = text("Access denied (403) to ");
                m.append(url);
                m.append("; the feed may require authentication");
                m
            },
            FeedFetchError::Http(s) => {
                let mut m = text("HTTP error ");
                push_decimal(&mut m, *s as u64);
                m.append(" fetching ");
                m.append(url);
                m
            },
        }
    }
}

} // verus!
