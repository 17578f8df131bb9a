//! The progress sink: per-worker progress state fed by status reports, a
//! read-only snapshot for the rendering collaborator, and the dedup-store
//! write issued on every confirmed completion.

use vstd::prelude::*;
use vstd::string::*;
use crate::store::{spec_record, spec_record_outcome, DedupLedger, InsertOutcome, NewVideo};

verus! {

/// One thumbnail variant of a job, as described by the download collaborator.
#[derive(Debug, Clone, PartialEq)]
pub struct Thumbnail {
    pub url: String,
    pub height: Option<usize>,
    pub width: Option<usize>,
    pub preference: Option<i32>,
    pub id: String,
    pub resolution: Option<String>,
}

/// One decoded status payload: the progress counters of a job and the
/// descriptive metadata needed for the progress label and the completion
/// record. The byte total is exact when known, estimated otherwise.
#[derive(Debug, Clone, PartialEq)]
pub struct StatusReport {
    /// The status tag: `"downloading"`, `"finished"`, `"error"`, ...
    pub status: String,
    pub downloaded_bytes: u64,
    pub total_bytes: Option<u64>,
    pub total_bytes_estimate: Option<u64>,
    pub eta_seconds: Option<u64>,
    /// Whether the bytes were genuinely retrieved rather than simulated.
    pub real_download: bool,
    pub title: String,
    pub uploader: String,
    pub creator: Option<String>,
    pub artist: Option<String>,
    pub display_id: String,
    pub webpage_url: String,
    pub description: String,
    /// Duration of the media, in seconds.
    pub duration: u32,
    pub thumbnails: Vec<Thumbnail>,
}

/// The human-readable label shown for a job: creator (or uploader when no
/// creator is known), title, and canonical identifier.
pub open spec fn spec_label(r: &StatusReport) -> Seq<char> {
    (if r.creator is Some {
        r.creator.unwrap()@
    } else {
        r.uploader@
    }) + " - "@ + r.title@ + " ["@ + r.display_id@ + "]"@
}

/// The byte total shown for a job: the exact total when known, the estimate
/// otherwise, zero when neither is known.
pub open spec fn spec_total(r: &StatusReport) -> u64 {
    if r.total_bytes is Some {
        r.total_bytes.unwrap()
    } else if r.total_bytes_estimate is Some {
        r.total_bytes_estimate.unwrap()
    } else {
        0
    }
}

/// Whether a report marks a genuine completed retrieval: status `"finished"`
/// and not a simulated pass.
pub open spec fn is_completion(r: &StatusReport) -> bool {
    r.status@ == "finished"@ && r.real_download
}

/// How a completion record is derived from a finished report.
pub open spec fn record_matches(rec: NewVideo, r: &StatusReport) -> bool {
    &&& rec.uid@ == r.display_id@
    &&& rec.link.deep_view() == Some(r.webpage_url@)
    &&& rec.title.deep_view() == Some(r.title@)
    &&& rec.author.deep_view() == r.artist.deep_view()
    &&& rec.duration == Some(r.duration as i64)
    &&& rec.description.deep_view() == Some(r.description@)
}

/// Builds the completion record of a finished report.
pub fn completion_record(r: &StatusReport) -> (rec: NewVideo)
    ensures
        record_matches(rec, r),
        rec.uid@ == r.display_id@,
{
    NewVideo {
        uid: r.display_id.clone(),
        link: Some(r.webpage_url.clone()),
        title: Some(r.title.clone()),
        author: match &r.artist {
            Some(a) => Some(a.clone()),
            None => None,
        },
        duration: Some(r.duration as i64),
        description: Some(r.description.clone()),
    }
}

/// Builds the display label of a report.
pub fn progress_label(r: &StatusReport) -> (label: String)
    ensures
        label@ == spec_label(r),
{
    let mut label = match &r.creator {
        Some(c) => c.clone(),
        None => r.uploader.clone(),
    };
    label.append(" - ");
    label.append(r.title.as_str());
    label.append(" [");
    label.append(r.display_id.as_str());
    label.append("]");
    label
}

/// The latest known progress of one worker, as handed to the renderer.
#[derive(Debug, Clone, PartialEq)]
pub struct WorkerProgress {
    pub label: String,
    pub downloaded: u64,
    pub total: u64,
    /// Whether the display should show a determinate bar rather than an
    /// indeterminate spinner.
    pub determinate: bool,
}

/// The mathematical model of a [`WorkerProgress`].
pub struct ProgressAbs {
    pub label: Seq<char>,
    pub downloaded: u64,
    pub total: u64,
    pub determinate: bool,
}

impl View for WorkerProgress {
    type V = ProgressAbs;

    open spec fn view(&self) -> ProgressAbs {
        ProgressAbs {
            label: self.label@,
            downloaded: self.downloaded,
            total: self.total,
            determinate: self.determinate,
        }
    }
}

/// The byte total a progress entry starts from before any report arrived.
pub const INITIAL_TOTAL: u64 = 10000;

/// The progress entry of a worker that has not reported yet.
pub open spec fn spec_initial_progress() -> ProgressAbs {
    ProgressAbs { label: Seq::empty(), downloaded: 0, total: INITIAL_TOTAL, determinate: false }
}

/// The per-worker map described by an entry list, later entries winning.
pub open spec fn entries_map(s: Seq<(usize, WorkerProgress)>) -> Map<usize, ProgressAbs>
    decreases s.len(),
{
    if s.len() == 0 {
        Map::empty()
    } else {
        entries_map(s.drop_last()).insert(s.last().0, s.last().1@)
    }
}

/// Pairwise distinct worker identities.
pub open spec fn distinct_keys(s: Seq<(usize, WorkerProgress)>) -> bool {
    forall|i: int, j: int| 0 <= i < j < s.len() ==> (#[trigger] s[i]).0 != (#[trigger] s[j]).0
}

proof fn lemma_entries_map_get(s: Seq<(usize, WorkerProgress)>, i: int)
    requires
        distinct_keys(s),
        0 <= i < s.len(),
    ensures
        entries_map(s).contains_key(s[i].0),
        entries_map(s)[s[i].0] == s[i].1@,
    decreases s.len(),
{
    if i < s.len() - 1 {
        assert(s.drop_last()[i] == s[i]);
        lemma_entries_map_get(s.drop_last(), i);
        assert(s[i].0 != s.last().0);
    }
}

proof fn lemma_entries_map_absent(s: Seq<(usize, WorkerProgress)>, k: usize)
    requires
        forall|i: int| 0 <= i < s.len() ==> (#[trigger] s[i]).0 != k,
    ensures
        !entries_map(s).contains_key(k),
    decreases s.len(),
{
    if s.len() > 0 {
        assert forall|i: int| 0 <= i < s.drop_last().len() implies (#[trigger] s.drop_last()[i]).0
            != k by {
            assert(s.drop_last()[i] == s[i]);
        }
        lemma_entries_map_absent(s.drop_last(), k);
        assert(s.last() == s[s.len() - 1]);
    }
}

proof fn lemma_entries_map_update(s: Seq<(usize, WorkerProgress)>, j: int, wp: WorkerProgress)
    requires
        distinct_keys(s),
        0 <= j < s.len(),
    ensures
        entries_map(s.update(j, (s[j].0, wp))) == entries_map(s).insert(s[j].0, wp@),
        distinct_keys(s.update(j, (s[j].0, wp))),
    decreases s.len(),
{
    let t = s.update(j, (s[j].0, wp));
    assert forall|a: int, b: int| 0 <= a < b < t.len() implies (#[trigger] t[a]).0 != (
    #[trigger] t[b]).0 by {
        assert(t[a].0 == s[a].0);
        assert(t[b].0 == s[b].0);
    }
    if j == s.len() - 1 {
        assert(t.drop_last() =~= s.drop_last());
        assert(t.last() == (s[j].0, wp));
        assert(entries_map(t) =~= entries_map(s).insert(s[j].0, wp@));
    } else {
        assert(t.drop_last() =~= s.drop_last().update(j, (s[j].0, wp)));
        assert(s.drop_last()[j] == s[j]);
        lemma_entries_map_update(s.drop_last(), j, wp);
        assert(t.last() == s.last());
        assert(s[j].0 != s.last().0);
        assert(entries_map(t) == entries_map(s.drop_last()).insert(s[j].0, wp@).insert(
            s.last().0,
            s.last().1@,
        ));
        assert(entries_map(s.drop_last()).insert(s[j].0, wp@).insert(s.last().0, s.last().1@)
            =~= entries_map(s.drop_last()).insert(s.last().0, s.last().1@).insert(s[j].0, wp@));
    }
}

/// The progress entry after a status report lands on a worker's slot: new
/// label and counters, the display mode kept — except that a confirmed
/// completion switches the display back to indeterminate.
pub open spec fn spec_progress_after(
    m: Map<usize, ProgressAbs>,
    id: usize,
    r: &StatusReport,
) -> ProgressAbs {
    let was_determinate = if m.contains_key(id) {
        m[id].determinate
    } else {
        false
    };
    ProgressAbs {
        label: spec_label(r),
        downloaded: r.downloaded_bytes,
        total: spec_total(r),
        determinate: if is_completion(r) {
            false
        } else {
            was_determinate
        },
    }
}

/// The progress entry after a download-start hint: the display switches to a
/// determinate bar, everything else kept (or a fresh entry for an unknown
/// worker).
pub open spec fn spec_progress_after_start(m: Map<usize, ProgressAbs>, id: usize) -> ProgressAbs {
    if m.contains_key(id) {
        ProgressAbs { determinate: true, ..m[id] }
    } else {
        ProgressAbs { determinate: true, ..spec_initial_progress() }
    }
}

/// The progress sink: one entry per worker identity, updated by that worker's
/// session alone and read by the rendering collaborator.
pub struct ProgressSink {
    pub entries: Vec<(usize, WorkerProgress)>,
}

impl ProgressSink {
    /// The per-worker progress map.
    pub open spec fn view(&self) -> Map<usize, ProgressAbs> {
        entries_map(self.entries@)
    }

    /// Well-formedness: one entry per worker identity.
    pub open spec fn wf(&self) -> bool {
        distinct_keys(self.entries@)
    }

    /// An empty sink.
    pub fn new() -> (s: ProgressSink)
        ensures
            s.wf(),
            s@ == Map::<usize, ProgressAbs>::empty(),
    {
        let s = ProgressSink { entries: Vec::new() };
        proof {
            assert(s@ =~= Map::<usize, ProgressAbs>::empty());
        }
        s
    }

    fn find_index(&self, worker_id: usize) -> (r: Option<usize>)
        ensures
            r matches Some(j) ==> j < self.entries@.len() && self.entries@[j as int].0
                == worker_id,
            r is None ==> forall|i: int|
                0 <= i < self.entries@.len() ==> (#[trigger] self.entries@[i]).0 != worker_id,
    {
        let n = self.entries.len();
        let mut i: usize = 0;
        while i < n
            invariant
                i <= n,
                n == self.entries@.len(),
                forall|j: int| 0 <= j < i ==> (#[trigger] self.entries@[j]).0 != worker_id,
            decreases n - i,
        {
            if self.entries[i].0 == worker_id {
                return Some(i);
            }
            i = i + 1;
        }
        None
    }

    /// Adds the initial entry for a newly connected worker; a worker already
    /// known keeps its entry.
    pub fn register(&mut self, worker_id: usize)
        requires
            old(self).wf(),
        ensures
            final(self).wf(),
            old(self)@.contains_key(worker_id) ==> *final(self) == *old(self),
            !old(self)@.contains_key(worker_id) ==> final(self)@ == old(self)@.insert(
                worker_id,
                spec_initial_progress(),
            ),
    {
        match self.find_index(worker_id) {
            Some(j) => {
                proof {
                    lemma_entries_map_get(self.entries@, j as int);
                }
            },
            None => {
                proof {
                    lemma_entries_map_absent(self.entries@, worker_id);
                }
                let ghost prev = self.entries@;
                let wp = WorkerProgress {
                    label: String::new(),
                    downloaded: 0,
                    total: INITIAL_TOTAL,
                    determinate: false,
                };
                self.entries.push((worker_id, wp));
                proof {
                    assert(self.entries@.drop_last() =~= prev);
                    assert(wp@ == spec_initial_progress());
                    assert forall|a: int, b: int|
                        0 <= a < b < self.entries@.len() implies (#[trigger] self.entries@[a]).0
                        != (#[trigger] self.entries@[b]).0 by {
                        if b < prev.len() {
                            assert(self.entries@[a] == prev[a]);
                            assert(self.entries@[b] == prev[b]);
                        } else {
                            assert(self.entries@[a] == prev[a]);
                        }
                    }
                }
            },
        }
    }

    /// The snapshot of one worker's progress, for the renderer.
    pub fn snapshot(&self, worker_id: usize) -> (r: Option<&WorkerProgress>)
        requires
            self.wf(),
        ensures
            r matches Some(wp) ==> self@.contains_key(worker_id) && wp@ == self@[worker_id],
            r is None ==> !self@.contains_key(worker_id),
    {
        match self.find_index(worker_id) {
            Some(j) => {
                proof {
                    lemma_entries_map_get(self.entries@, j as int);
                }
                Some(&self.entries[j].1)
            },
            None => {
                proof {
                    lemma_entries_map_absent(self.entries@, worker_id);
                }
                None
            },
        }
    }

    fn put(&mut self, worker_id: usize, wp: WorkerProgress)
        requires
            old(self).wf(),
        ensures
            final(self).wf(),
            final(self)@ == old(self)@.insert(worker_id, wp@),
    {
        let ghost prev = self.entries@;
        match self.find_index(worker_id) {
            Some(j) => {
                proof {
                    lemma_entries_map_update(self.entries@, j as int, wp);
                }
                self.entries[j] = (worker_id, wp);
                proof {
                    assert(self.entries@ =~= prev.update(j as int, (prev[j as int].0, wp)));
                }
            },
            None => {
                proof {
                    lemma_entries_map_absent(self.entries@, worker_id);
                }
                self.entries.push((worker_id, wp));
                proof {
                    assert(self.entries@.drop_last() =~= prev);
                    assert forall|a: int, b: int|
                        0 <= a < b < self.entries@.len() implies (#[trigger] self.entries@[a]).0
                        != (#[trigger] self.entries@[b]).0 by {
                        if b < prev.len() {
                            assert(self.entries@[a] == prev[a]);
                            assert(self.entries@[b] == prev[b]);
                        } else {
                            assert(self.entries@[a] == prev[a]);
                        }
                    }
                }
            },
        }
    }

    /// Applies a download-start hint: the worker's display turns determinate.
    pub fn on_download_start(&mut self, worker_id: usize)
        requires
            old(self).wf(),
        ensures
            final(self).wf(),
            final(self)@ == old(self)@.insert(
                worker_id,
                spec_progress_after_start(old(self)@, worker_id),
            ),
    {
        let wp = match self.find_index(worker_id) {
            Some(j) => {
                proof {
                    lemma_entries_map_get(self.entries@, j as int);
                }
                let e = &self.entries[j].1;
                WorkerProgress {
                    label: e.label.clone(),
                    downloaded: e.downloaded,
                    total: e.total,
                    determinate: true,
                }
            },
            None => {
                proof {
                    lemma_entries_map_absent(self.entries@, worker_id);
                }
                WorkerProgress {
                    label: String::new(),
                    downloaded: 0,
                    total: INITIAL_TOTAL,
                    determinate: true,
                }
            },
        };
        self.put(worker_id, wp);
    }

    /// Applies one status report from a worker: updates that worker's entry
    /// (label, counters, display mode), and, exactly when the report marks a
    /// genuine completed retrieval, derives the completion record and issues
    /// the idempotent insert into the dedup ledger.
    pub fn on_status(
        &mut self,
        worker_id: usize,
        report: &StatusReport,
        store: &mut DedupLedger,
    ) -> (r: Option<InsertOutcome>)
        requires
            old(self).wf(),
            old(store).wf(),
        ensures
            final(self).wf(),
            final(store).wf(),
            final(self)@ == old(self)@.insert(
                worker_id,
                spec_progress_after(old(self)@, worker_id, report),
            ),
            !is_completion(report) ==> r is None && *final(store) == *old(store),
            is_completion(report) ==> ({
                &&& r == Some(
                    spec_record_outcome(old(store).completed_view(), report.display_id@),
                )
                &&& final(store).completed_view() == spec_record(
                    old(store).completed_view(),
                    report.display_id@,
                )
                &&& old(store).completed_view().contains(report.display_id@) ==> *final(store)
                    == *old(store)
                &&& !old(store).completed_view().contains(report.display_id@) ==> ({
                    let appended = final(store).appended@;
                    &&& appended.len() == old(store).appended@.len() + 1
                    &&& appended == old(store).appended@.push(appended.last())
                    &&& record_matches(appended.last(), report)
                })
            }),
    {
        let was_determinate = match self.find_index(worker_id) {
            Some(j) => {
                proof {
                    lemma_entries_map_get(self.entries@, j as int);
                }
                self.entries[j].1.determinate
            },
            None => {
                proof {
                    lemma_entries_map_absent(self.entries@, worker_id);
                }
                false
            },
        };
        let finished = report.status == "finished".to_owned();
        let is_real = finished && report.real_download;
        let total = match report.total_bytes {
            Some(t) => t,
            None => match report.total_bytes_estimate {
                Some(t) => t,
                None => 0,
            },
        };
        let wp = WorkerProgress {
            label: progress_label(report),
            downloaded: report.downloaded_bytes,
            total,
            determinate: if is_real {
                false
            } else {
                was_determinate
            },
        };
        self.put(worker_id, wp);
        if is_real {
            let rec = completion_record(report);
            let outcome = store.record_completion(rec);
            Some(outcome)
        } else {
            None
        }
    }
}

} // verus!
