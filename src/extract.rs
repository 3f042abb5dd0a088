use vstd::prelude::*;

use crate::detect::{completeness_word, ContentCompleteness};
use crate::model::opt_view;
use crate::store::{db_wf, item_index, lemma_item_index, Database, DbView, ItemView, StoreError};

verus! {

/// The readable content of an article page.
#[derive(Debug, Clone)]
pub struct ExtractionResult {
    pub content: String,
    pub title: Option<String>,
}

/// Why no article could be extracted.
#[derive(Debug, Clone, Copy, PartialEq, Eq, Structural)]
pub enum ExtractionError {
    /// The page has no content that the readability algorithm accepts.
    NoReadableContent,
}

/// HTML reduced to a conservative allowlist: no scripts, frames, event
/// handlers or unknown URL schemes.
pub uninterp spec fn sanitized_html(s: Seq<char>) -> Seq<char>;

/// Relies on `ammonia::clean`: the HTML cleaned with ammonia's default
/// allowlist.
#[verifier::external_body]
fn sanitize_html(s: &str) -> (r: String)
    ensures
        r@ == sanitized_html(s@),
{
    ammonia::clean(s)
}

/// Relies on `readabilityrs::Readability::new` and `parse`: the main
/// content of a page and its title, where the algorithm finds content.
/// Its scoring walks hash maps, so nothing is stated of the result.
#[verifier::external_body]
fn readable_article(html: &str, url: &str) -> (r: Option<(String, Option<String>)>) {
    readabilityrs::Readability::new(html, Some(url), None).ok().and_then(|r| r.parse()).and_then(
        |a| a.content.map(|c| (c, a.title)),
    )
}

/// Turns what the readability pass found into a result: the content is
/// sanitised, the title kept.
pub fn finish_extraction(article: Option<(String, Option<String>)>) -> (r: Result<
    ExtractionResult,
    ExtractionError,
>)
    ensures
        match article {
            Some((c, t)) => r matches Ok(x) && x.content@ == sanitized_html(c@) && opt_view(x.title)
                == opt_view(t),
            None => r == Err::<ExtractionResult, ExtractionError>(ExtractionError::NoReadableContent),
        },
{
    match article {
        Some((c, t)) => Ok(ExtractionResult { content: sanitize_html(c.as_str()), title: t }),
        None => Err(ExtractionError::NoReadableContent),
    }
}

/// Extracts the article from a fetched page: its main content, sanitised.
pub fn extract_full_text(html: &str, url: &str) -> (r: Result<ExtractionResult, ExtractionError>)
    ensures
        r matches Ok(x) ==> exists|c: Seq<char>| x.content@ == sanitized_html(c),
{
    finish_extraction(readable_article(html, url))
}

/// Whether the preferences ask for extraction: it is not switched off, and
/// the article view mode (by default `auto`) is `auto` or `always_fetch`.
pub open spec fn extraction_wanted(enabled: Option<Seq<char>>, mode: Option<Seq<char>>) -> bool {
    enabled != Some("false"@) && match mode {
        Some(m) => m == "auto"@ || m == "always_fetch"@,
        None => true,
    }
}

pub fn should_extract(enabled: Option<&str>, mode: Option<&str>) -> (r: bool)
    ensures
        r == extraction_wanted(
            match enabled {
                Some(e) => Some(e@),
                None => None,
            },
            match mode {
                Some(m) => Some(m@),
                None => None,
            },
        ),
{
    let off = match enabled {
        Some(e) => String::from_str(e) == String::from_str("false"),
        None => false,
    };
    let mode_ok = match mode {
        Some(m) => {
            let m = String::from_str(m);
            m == String::from_str("auto") || m == String::from_str("always_fetch")
        },
        None => true,
    };
    !off && mode_ok
}

/// An item worth extracting: judged partial, not yet fetched, with a URL.
pub open spec fn extraction_candidate(it: ItemView) -> bool {
    &&& it.content_completeness == Some("partial"@)
    &&& (it.content_status is None || it.content_status == Some("feed_only"@))
    &&& it.url.len() > 0
}

/// Where an item's extraction stands.
#[derive(Debug, Clone)]
pub enum ExtractionUpdate {
    /// The classifier's verdict on the delivered content.
    Classified(ContentCompleteness),
    /// The page is being fetched.
    Fetching,
    /// The article was extracted; here is its HTML.
    Extracted(String),
    /// Extraction failed, for this reason.
    Failed(String),
}

/// An item after an extraction update.
pub open spec fn updated_item(it: ItemView, u: ExtractionUpdate, now: i64) -> ItemView {
    match u {
        ExtractionUpdate::Classified(c) => ItemView {
            content_completeness: Some(completeness_word(c)),
            content_status: if it.content_status is None {
                Some("feed_only"@)
            } else {
                it.content_status
            },
            updated_at: now,
            ..it
        },
        ExtractionUpdate::Fetching => ItemView {
            content_status: Some("fetching"@),
            updated_at: now,
            ..it
        },
        ExtractionUpdate::Extracted(html) => ItemView {
            content_status: Some("extracted"@),
            extracted_content_html: Some(html@),
            extraction_failed_reason: None,
            updated_at: now,
            ..it
        },
        ExtractionUpdate::Failed(reason) => ItemView {
            content_status: Some("failed"@),
            extraction_failed_reason: Some(reason@),
            updated_at: now,
            ..it
        },
    }
}

impl Database {
    /// Records a step of an item's extraction.
    pub fn update_extraction(&mut self, id: i64, update: ExtractionUpdate, now: i64) -> (r: Result<
        (),
        StoreError,
    >)
        requires
            db_wf(old(self)@),
        ensures
            db_wf(final(self)@),
            match r {
                Ok(_) => {
                    let k = item_index(old(self)@.items, id);
                    k >= 0 && final(self)@ == (DbView {
                        items: old(self)@.items.update(
                            k,
                            updated_item(old(self)@.items[k], update, now),
                        ),
                        ..old(self)@
                    })
                },
                Err(e) => item_index(old(self)@.items, id) == -1 && e == StoreError::NotFound
                    && final(self)@ == old(self)@,
            },
    {
        proof {
            lemma_item_index(self@.items, id);
        }
        let k = match self.item_position(id) {
            Some(k) => k,
            None => {
                return Err(StoreError::NotFound);
            },
        };
        let mut it = self.item_at(k);
        let ghost u = update;
        match update {
            ExtractionUpdate::Classified(c) => {
                it.content_completeness = Some(String::from_str(c.as_str()));
                if it.content_status.is_none() {
                    it.content_status = Some(String::from_str("feed_only"));
                }
            },
            ExtractionUpdate::Fetching => {
                it.content_status = Some(String::from_str("fetching"));
            },
            ExtractionUpdate::Extracted(html) => {
                it.content_status = Some(String::from_str("extracted"));
                it.extracted_content_html = Some(html);
                it.extraction_failed_reason = None;
            },
            ExtractionUpdate::Failed(reason) => {
                it.content_status = Some(String::from_str("failed"));
                it.extraction_failed_reason = Some(reason);
            },
        }
        it.updated_at = now;
        assert(it@ == updated_item(self@.items[k as int], u, now));
        self.replace_item(k, it);
        Ok(())
    }

    /// The ids among `ids` of items worth extracting, in order.
    pub fn extraction_candidates(&self, ids: &Vec<i64>) -> (r: Vec<i64>)
        ensures
            forall|j: int|
                0 <= j < r@.len() ==> {
                    let k = item_index(self@.items, #[trigger] r@[j]);
                    ids@.contains(r@[j]) && k >= 0 && extraction_candidate(self@.items[k])
                },
            forall|q: int|
                0 <= q < ids@.len() && item_index(self@.items, ids@[q]) >= 0
                    && extraction_candidate(self@.items[item_index(self@.items, #[trigger] ids@[q])])
                    ==> r@.contains(ids@[q]),
    {
        let mut r: Vec<i64> = Vec::new();
        let mut i: usize = 0;
        while i < ids.len()
            invariant
                i <= ids@.len(),
                forall|j: int|
                    0 <= j < r@.len() ==> {
                        let k = item_index(self@.items, #[trigger] r@[j]);
                        ids@.contains(r@[j]) && k >= 0 && extraction_candidate(self@.items[k])
                    },
                forall|q: int|
                    0 <= q < i && item_index(self@.items, ids@[q]) >= 0 && extraction_candidate(
                        self@.items[item_index(self@.items, #[trigger] ids@[q])],
                    ) ==> r@.contains(ids@[q]),
            decreases ids@.len() - i,
        {
            let id = ids[i];
            proof {
                lemma_item_index(self@.items, id);
            }
            match self.item_position(id) {
                Some(k) => {
                    let it = self.item_at(k);
                    let partial = match &it.content_completeness {
                        Some(c) => *c == String::from_str("partial"),
                        None => false,
                    };
                    let fresh = match &it.content_status {
                        Some(s) => *s == String::from_str("feed_only"),
                        None => true,
                    };
                    if partial && fresh && !it.url.as_str().is_empty() {
                        let ghost before = r@;
                        r.push(id);
                        assert(r@ =~= before.push(id));
                        assert(ids@[i as int] == id);
                        assert forall|j: int| 0 <= j < r@.len() implies {
                            let k = item_index(self@.items, #[trigger] r@[j]);
                            ids@.contains(r@[j]) && k >= 0 && extraction_candidate(self@.items[k])
                        } by {
                            if j < before.len() {
                                assert(r@[j] == before[j]);
                            }
                        }
                        assert forall|q: int|
                            0 <= q < i + 1 && item_index(self@.items, ids@[q]) >= 0
                                && extraction_candidate(
                                self@.items[item_index(self@.items, #[trigger] ids@[q])],
                            ) implies r@.contains(ids@[q]) by {
                            if q < i {
                                let w = choose|w: int| 0 <= w < before.len() && before[w] == ids@[q];
                                assert(r@[w] == before[w]);
                            } else {
                                assert(r@[before.len() as int] == id);
                            }
                        }
                    }
                },
                None => {},
            }
            i += 1;
        }
        r
    }
}

} // verus!
