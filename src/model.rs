use vstd::prelude::*;

verus! {

/// One entry as a source adapter delivers it, before it is stored.
#[derive(Debug, Clone)]
pub struct IngestedItem {
    pub external_id: String,
    pub title: String,
    pub summary: Option<String>,
    pub url: String,
    pub item_type: String,
    pub occurred_at: Option<i64>,
    pub image_url: Option<String>,
    pub content_html: Option<String>,
    pub author: Option<String>,
    pub category: Option<Vec<String>>,
    pub comments: Option<String>,
    pub thread_id: Option<String>,
}

pub struct IngestedView {
    pub external_id: Seq<char>,
    pub title: Seq<char>,
    pub summary: Option<Seq<char>>,
    pub url: Seq<char>,
    pub item_type: Seq<char>,
    pub occurred_at: Option<i64>,
    pub image_url: Option<Seq<char>>,
    pub content_html: Option<Seq<char>>,
    pub author: Option<Seq<char>>,
    pub category: Option<Seq<Seq<char>>>,
    pub comments: Option<Seq<char>>,
    pub thread_id: Option<Seq<char>>,
}

/// The characters of an optional text.
pub open spec fn opt_view(o: Option<String>) -> Option<Seq<char>> {
    match o {
        Some(s) => Some(s@),
        None => None,
    }
}

impl View for IngestedItem {
    type V = IngestedView;

    open spec fn view(&self) -> IngestedView {
        IngestedView {
            external_id: self.external_id@,
            title: self.title@,
            summary: opt_view(self.summary),
            url: self.url@,
            item_type: self.item_type@,
            occurred_at: self.occurred_at,
            image_url: opt_view(self.image_url),
            content_html: opt_view(self.content_html),
            author: opt_view(self.author),
            category: match self.category {
                Some(c) => Some(c.deep_view()),
                None => None,
            },
            comments: opt_view(self.comments),
            thread_id: opt_view(self.thread_id),
        }
    }
}

/// Produces a batch of entries from one external source.
pub trait IngestSource {
    fn poll(&self) -> Result<Vec<IngestedItem>, String>;
}

/// A copy of an optional text.
pub fn copy_opt(o: &Option<String>) -> (r: Option<String>)
    ensures
        r == *o,
{
    match o {
        Some(s) => Some(s.clone()),
        None => None,
    }
}

/// A copy of an optional integer.
pub fn copy_opt_i64(o: &Option<i64>) -> (r: Option<i64>)
    ensures
        r == *o,
{
    match o {
        Some(v) => Some(*v),
        None => None,
    }
}

/// A copy of a list of texts.
pub fn copy_texts(v: &Vec<String>) -> (r: Vec<String>)
    ensures
        r@ == v@,
{
    let mut r: Vec<String> = Vec::new();
    let mut i: usize = 0;
    while i < v.len()
        invariant
            i <= v@.len(),
            r@ == v@.subrange(0, i as int),
        decreases v@.len() - i,
    {
        r.push(v[i].clone());
        i += 1;
        assert(r@ =~= v@.subrange(0, i as int));
    }
    assert(r@ =~= v@);
    r
}

} // verus!
