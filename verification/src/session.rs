//! One run over the favorite images of an Immich library: which assets to
//! process, when to stop, what to do with each downloaded file, and the
//! counts reported at the end.

use crate::api::PAGE_SIZE;
use crate::immich::{is_candidate, Asset, SearchAssets, Timestamp};
use crate::metadata::extract_parameters;
use crate::tags::extract_tags_from_info;
use crate::text::{chars_of, range_is_blank};
use vstd::prelude::*;

verus! {

/// The counts reported at the end of a run.
pub struct Summary {
    pub scanned: u32,
    pub candidates: u32,
    pub updated: u32,
    pub skipped_no_metadata: u32,
    pub failed: u32,
}

impl Default for Summary {
    fn default() -> (r: Self)
        ensures
            r.scanned == 0,
            r.candidates == 0,
            r.updated == 0,
            r.skipped_no_metadata == 0,
            r.failed == 0,
    {
        Summary { scanned: 0, candidates: 0, updated: 0, skipped_no_metadata: 0, failed: 0 }
    }
}

/// How processing one asset ended.
pub enum ProcessOutcome {
    /// Its description and tags were written (or, in a dry run, would be).
    Updated { tag_count: usize },
    /// The PNG holds no usable `parameters` text.
    SkippedNoMetadata,
    /// Downloading or writing failed.
    Failed,
}

/// What to do with an asset met in the search results.
pub enum Admission {
    /// It is not a candidate.
    Skip,
    /// It is a candidate, but the limit of processed assets is reached: the
    /// run ends here.
    Stop,
    /// Process it, then record the outcome.
    Process,
}

/// What a `Scan` holds.
pub ghost struct ScanState {
    pub summary: Summary,
    pub processed: nat,
    pub pending: bool,
    pub limit: Option<usize>,
    pub page: u32,
}

/// The progress of a run: the page to fetch, the counts so far, and whether
/// an admitted asset awaits its outcome.
pub struct Scan {
    summary: Summary,
    processed: usize,
    pending: bool,
    limit: Option<usize>,
    page: u32,
}

impl View for Scan {
    type V = ScanState;

    closed spec fn view(&self) -> ScanState {
        ScanState {
            summary: Summary { ..self.summary },
            processed: self.processed as nat,
            pending: self.pending,
            limit: self.limit,
            page: self.page,
        }
    }
}

/// The number of assets admitted for processing: those processed, and the
/// one in progress.
pub open spec fn admitted(s: ScanState) -> nat {
    s.processed + if s.pending {
        1nat
    } else {
        0nat
    }
}

/// All counts zero.
pub open spec fn zero_summary() -> Summary {
    Summary { scanned: 0, candidates: 0, updated: 0, skipped_no_metadata: 0, failed: 0 }
}

/// `n` more results scanned.
pub open spec fn add_scanned(s: ScanState, n: u32) -> ScanState {
    ScanState { summary: Summary { scanned: (s.summary.scanned + n) as u32, ..s.summary }, ..s }
}

/// One more candidate met.
pub open spec fn count_candidate(s: ScanState) -> ScanState {
    ScanState {
        summary: Summary { candidates: (s.summary.candidates + 1) as u32, ..s.summary },
        ..s
    }
}

/// The limit of processed assets is reached.
pub open spec fn limit_reached(s: ScanState) -> bool {
    s.limit matches Some(l) && s.processed >= l
}

/// An admitted asset awaits its outcome.
pub open spec fn start_processing(s: ScanState) -> ScanState {
    ScanState { pending: true, ..s }
}

/// The admitted asset is processed with the given outcome, counted where it
/// belongs.
pub open spec fn record_outcome(s: ScanState, outcome: ProcessOutcome) -> ScanState {
    let c = s.summary;
    let summary = match outcome {
        ProcessOutcome::Updated { .. } => Summary { updated: (c.updated + 1) as u32, ..c },
        ProcessOutcome::SkippedNoMetadata => Summary {
            skipped_no_metadata: (c.skipped_no_metadata + 1) as u32,
            ..c
        },
        ProcessOutcome::Failed => Summary { failed: (c.failed + 1) as u32, ..c },
    };
    ScanState { summary, processed: s.processed + 1, pending: false, ..s }
}

/// The page after the current one.
pub open spec fn next_page_state(s: ScanState) -> ScanState {
    ScanState { page: (s.page + 1) as u32, ..s }
}

/// A page of results is the last: no next page and fewer results than a
/// full page.
pub open spec fn last_page(results: SearchAssets) -> bool {
    results.next_page is None && results.count < PAGE_SIZE
}

impl Scan {
    /// Every processed asset is counted once as updated, skipped or failed;
    /// every admitted asset was a candidate; and no more assets are admitted
    /// than the limit allows.
    pub open spec fn wf(&self) -> bool {
        &&& self@.summary.updated + self@.summary.skipped_no_metadata + self@.summary.failed
            == self@.processed
        &&& admitted(self@) <= self@.summary.candidates
        &&& self@.limit matches Some(l) ==> admitted(self@) <= l
    }

    /// A run that starts at page 1, processing at most `limit` assets.
    pub fn new(limit: Option<usize>) -> (r: Self)
        ensures
            r.wf(),
            r@.summary == zero_summary(),
            r@.processed == 0,
            !r@.pending,
            r@.limit == limit,
            r@.page == 1,
    {
        Scan { summary: Summary::default(), processed: 0, pending: false, limit, page: 1 }
    }

    /// The page to fetch next.
    pub fn page(&self) -> (p: u32)
        ensures
            p == self@.page,
    {
        self.page
    }

    /// The counts so far.
    pub fn summary(&self) -> (s: &Summary)
        ensures
            *s == self@.summary,
    {
        &self.summary
    }

    /// Takes in a page of results: `false` when it is empty, which ends the
    /// run; otherwise its reported count is added to the scanned total.
    pub fn begin_page(&mut self, results: &SearchAssets) -> (more: bool)
        requires
            old(self).wf(),
            results.items@.len() > 0 ==> old(self)@.summary.scanned + results.count <= u32::MAX,
        ensures
            final(self).wf(),
            more == (results.items@.len() > 0),
            more ==> final(self)@ == add_scanned(old(self)@, results.count),
            more ==> final(self)@.summary.scanned == old(self)@.summary.scanned + results.count,
            !more ==> final(self)@ == old(self)@,
    {
        if results.items.len() == 0 {
            return false;
        }
        self.summary.scanned = self.summary.scanned + results.count;
        true
    }

    /// Decides about one asset of the results: non-candidates are skipped;
    /// a candidate is counted, then processed unless the limit is reached.
    pub fn consider(&mut self, asset: &Asset, cutoff: &Timestamp) -> (a: Admission)
        requires
            old(self).wf(),
            !old(self)@.pending,
            crate::immich::candidate(*asset, *cutoff) ==> old(self)@.summary.candidates < u32::MAX,
        ensures
            final(self).wf(),
            !crate::immich::candidate(*asset, *cutoff) ==> a is Skip && final(self)@ == old(self)@,
            crate::immich::candidate(*asset, *cutoff) ==> final(self)@.summary.candidates == old(
                self,
            )@.summary.candidates + 1,
            crate::immich::candidate(*asset, *cutoff) && limit_reached(old(self)@) ==> (a is Stop
                && final(self)@ == count_candidate(old(self)@)),
            crate::immich::candidate(*asset, *cutoff) && !limit_reached(old(self)@) ==> (a is Process
                && final(self)@ == start_processing(count_candidate(old(self)@))),
    {
        if !is_candidate(asset, cutoff) {
            return Admission::Skip;
        }
        self.summary.candidates = self.summary.candidates + 1;
        if let Some(limit) = self.limit {
            if self.processed >= limit {
                return Admission::Stop;
            }
        }
        self.pending = true;
        Admission::Process
    }

    /// Records how processing the admitted asset ended; without an admitted
    /// asset nothing changes.
    pub fn record(&mut self, outcome: &ProcessOutcome)
        requires
            old(self).wf(),
        ensures
            final(self).wf(),
            !old(self)@.pending ==> final(self)@ == old(self)@,
            old(self)@.pending ==> final(self)@ == record_outcome(old(self)@, *outcome),
            old(self)@.pending ==> final(self)@.processed == old(self)@.processed + 1,
            old(self)@.pending ==> (match *outcome {
                ProcessOutcome::Updated { .. } => final(self)@.summary.updated == old(
                    self,
                )@.summary.updated + 1,
                ProcessOutcome::SkippedNoMetadata => final(self)@.summary.skipped_no_metadata
                    == old(self)@.summary.skipped_no_metadata + 1,
                ProcessOutcome::Failed => final(self)@.summary.failed == old(self)@.summary.failed
                    + 1,
            }),
    {
        if !self.pending {
            return;
        }
        match outcome {
            ProcessOutcome::Updated { .. } => {
                self.summary.updated = self.summary.updated + 1;
            },
            ProcessOutcome::SkippedNoMetadata => {
                self.summary.skipped_no_metadata = self.summary.skipped_no_metadata + 1;
            },
            ProcessOutcome::Failed => {
                self.summary.failed = self.summary.failed + 1;
            },
        }
        self.processed = self.processed + 1;
        self.pending = false;
    }

    /// After a page: `false` when it was the last one (no next page and fewer
    /// results than a full page), otherwise moves on to the next page.
    pub fn finish_page(&mut self, results: &SearchAssets) -> (more: bool)
        requires
            old(self).wf(),
            !last_page(*results) ==> old(self)@.page < u32::MAX,
        ensures
            final(self).wf(),
            more == !last_page(*results),
            more ==> final(self)@ == next_page_state(old(self)@),
            more ==> final(self)@.page == old(self)@.page + 1,
            !more ==> final(self)@ == old(self)@,
    {
        if results.next_page.is_none() && results.count < PAGE_SIZE {
            return false;
        }
        self.page = self.page + 1;
        true
    }
}

/// What to do with one downloaded file.
pub enum AssetPlan {
    /// The file holds no usable `parameters` text.
    SkipNoMetadata,
    /// A dry run: report the description and tags, write nothing.
    Preview { description: String, tags: Vec<String> },
    /// Set the description to the `parameters` text; when `link_tags` is set
    /// (there are tags), resolve the tags and link them to the asset.
    Write { description: String, tags: Vec<String>, link_tags: bool },
}

/// Decides what to do with a downloaded file: nothing when it has no
/// `parameters` text or only white space; otherwise that text as the
/// description and the tags extracted from it, written unless `dry_run`, and
/// the tags linked only when there are some. `None` only when the regex crate
/// rejects a LoRA pattern.
pub fn plan_asset_update(png_bytes: &[u8], dry_run: bool) -> (r: Option<AssetPlan>)
    ensures
        match crate::metadata::png_parameters(png_bytes@) {
            None => r matches Some(AssetPlan::SkipNoMetadata),
            Some(text) => if crate::text::all_white_space(text) {
                r matches Some(AssetPlan::SkipNoMetadata)
            } else {
                match crate::tags::info_tags(text) {
                    None => r is None,
                    Some(tags) => if dry_run {
                        r matches Some(AssetPlan::Preview { description, tags: t })
                            && description@ == text && t.deep_view() == tags
                    } else {
                        r matches Some(AssetPlan::Write { description, tags: t, link_tags })
                            && description@ == text && t.deep_view() == tags
                            && link_tags == (tags.len() > 0)
                    },
                }
            },
        },
{
    let parameters = match extract_parameters(png_bytes) {
        Some(text) => text,
        None => {
            return Some(AssetPlan::SkipNoMetadata);
        },
    };
    let chars = chars_of(parameters.as_str());
    assert(chars@.subrange(0, chars@.len() as int) =~= chars@);
    if range_is_blank(&chars, 0, chars.len()) {
        return Some(AssetPlan::SkipNoMetadata);
    }
    let tags = match extract_tags_from_info(parameters.as_str()) {
        Some(tags) => tags,
        None => {
            return None;
        },
    };
    if dry_run {
        Some(AssetPlan::Preview { description: parameters, tags })
    } else {
        let link_tags = tags.len() > 0;
        Some(AssetPlan::Write { description: parameters, tags, link_tags })
    }
}

/// Whether a page of results is the last one.
pub fn is_last_page(results: &SearchAssets) -> (b: bool)
    ensures
        b == last_page(*results),
{
    results.next_page.is_none() && results.count < PAGE_SIZE
}

/// A configuration value that counts as given: present and not blank.
pub fn required_setting(value: Option<String>) -> (r: Option<String>)
    ensures
        r.deep_view() == match value.deep_view() {
            Some(v) => if crate::text::all_white_space(v) {
                None
            } else {
                Some(v)
            },
            None => None,
        },
{
    match value {
        Some(v) => {
            let chars = chars_of(v.as_str());
            assert(chars@.subrange(0, chars@.len() as int) =~= chars@);
            if range_is_blank(&chars, 0, chars.len()) {
                None
            } else {
                Some(v)
            }
        },
        None => None,
    }
}

/// Once an asset's description is the text an update writes, the asset is no
/// longer a candidate: updated assets are skipped on later runs.
pub proof fn lemma_updated_asset_skipped(asset: Asset, cutoff: Timestamp, png_bytes: Seq<u8>)
    requires
        crate::metadata::png_parameters(png_bytes) matches Some(text)
            && !crate::text::all_white_space(text),
        crate::immich::effective_description(asset) == crate::metadata::png_parameters(png_bytes),
    ensures
        !crate::immich::candidate(asset, cutoff),
{
}

} // verus!
