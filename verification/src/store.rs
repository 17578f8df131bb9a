//! The core's view of the durable dedup store: the set of already-completed
//! job identifiers, and the append-only completion log with its idempotent
//! insert.

use vstd::prelude::*;

verus! {

/// A completed-video row as read back from the durable store.
#[derive(Debug, PartialEq)]
pub struct Video {
    pub id: i64,
    pub uid: String,
    pub link: Option<String>,
    pub title: Option<String>,
    pub author: Option<String>,
    pub duration: Option<i64>,
    pub description: Option<String>,
}

/// A completion record: one finished, genuinely downloaded job, to be
/// appended to the store exactly once.
#[derive(Debug, Clone, PartialEq)]
pub struct NewVideo {
    pub uid: String,
    pub link: Option<String>,
    pub title: Option<String>,
    pub author: Option<String>,
    pub duration: Option<i64>,
    pub description: Option<String>,
}

/// What an insert reported: a fresh row, or a uid that was already there.
#[derive(Debug, Clone, Copy, PartialEq, Eq, Structural)]
pub enum InsertOutcome {
    Inserted,
    AlreadyRecorded,
}

/// The identifiers of the rows read from the store, in row order.
pub fn completed_uids(rows: &Vec<Video>) -> (r: Vec<String>)
    ensures
        r.deep_view() == rows@.map_values(|v: Video| v.uid@),
{
    let ghost target = rows@.map_values(|v: Video| v.uid@);
    let n = rows.len();
    let mut out: Vec<String> = Vec::new();
    let mut i: usize = 0;
    proof {
        assert(out.deep_view() =~= target.take(0));
    }
    while i < n
        invariant
            i <= n,
            n == rows@.len(),
            target == rows@.map_values(|v: Video| v.uid@),
            out.deep_view() == target.take(i as int),
        decreases n - i,
    {
        let ghost prev = out.deep_view();
        out.push(rows[i].uid.clone());
        proof {
            assert(out.deep_view() =~= prev.push(rows@[i as int].uid@));
            assert(target.take(i as int).push(target[i as int]) =~= target.take(i + 1));
        }
        i = i + 1;
    }
    assert(target.take(n as int) =~= target);
    out
}

/// What an insert of `uid` reports against a completed set.
pub open spec fn spec_record_outcome(completed: Seq<Seq<char>>, uid: Seq<char>) -> InsertOutcome {
    if completed.contains(uid) {
        InsertOutcome::AlreadyRecorded
    } else {
        InsertOutcome::Inserted
    }
}

/// The completed set after an insert of `uid`: grown by `uid`, or unchanged
/// when it was already there.
pub open spec fn spec_record(completed: Seq<Seq<char>>, uid: Seq<char>) -> Seq<Seq<char>> {
    if completed.contains(uid) {
        completed
    } else {
        completed.push(uid)
    }
}

/// Idempotent completion: once a uid has been recorded, recording it again
/// reports `AlreadyRecorded` and changes nothing, however often it is retried.
pub proof fn lemma_record_idempotent(completed: Seq<Seq<char>>, uid: Seq<char>)
    ensures
        spec_record_outcome(spec_record(completed, uid), uid) == InsertOutcome::AlreadyRecorded,
        spec_record(spec_record(completed, uid), uid) == spec_record(completed, uid),
{
    if !completed.contains(uid) {
        assert(completed.push(uid)[completed.len() as int] == uid);
        assert(completed.push(uid).contains(uid));
    }
}

/// The ledger the core keeps against the durable store: every uid known to be
/// completed, and the records appended during this run.
pub struct DedupLedger {
    /// All completed uids: those loaded at startup plus those appended since.
    pub completed: Vec<String>,
    /// The records appended during this run, in insertion order.
    pub appended: Vec<NewVideo>,
}

impl DedupLedger {
    /// The completed uids as character sequences.
    pub open spec fn completed_view(&self) -> Seq<Seq<char>> {
        self.completed.deep_view()
    }

    /// Well-formedness: appended records have pairwise distinct uids, and
    /// each appended uid is in the completed set.
    pub open spec fn wf(&self) -> bool {
        &&& forall|i: int, j: int|
            0 <= i < j < self.appended@.len() ==> #[trigger] self.appended@[i].uid@ != (
            #[trigger] self.appended@[j].uid@)
        &&& forall|i: int|
            0 <= i < self.appended@.len() ==> self.completed_view().contains(
                #[trigger] self.appended@[i].uid@,
            )
    }

    /// A ledger seeded with the uids loaded from the store at startup.
    pub fn from_completed(completed: Vec<String>) -> (l: DedupLedger)
        ensures
            l.wf(),
            l.completed_view() == completed.deep_view(),
            l.appended@.len() == 0,
    {
        DedupLedger { completed, appended: Vec::new() }
    }

    /// Whether a uid is already recorded as completed.
    pub fn contains_uid(&self, uid: &String) -> (r: bool)
        ensures
            r == self.completed_view().contains(uid@),
    {
        let n = self.completed.len();
        let mut i: usize = 0;
        while i < n
            invariant
                i <= n,
                n == self.completed@.len(),
                forall|j: int| 0 <= j < i ==> #[trigger] self.completed_view()[j] != uid@,
            decreases n - i,
        {
            if self.completed[i] == *uid {
                assert(self.completed_view()[i as int] == uid@);
                return true;
            }
            i = i + 1;
        }
        proof {
            if self.completed_view().contains(uid@) {
                let j = choose|j: int|
                    0 <= j < self.completed_view().len() && self.completed_view()[j] == uid@;
            }
        }
        false
    }

    /// Appends a completion record, idempotently: a uid already in the
    /// completed set reports `AlreadyRecorded` and changes nothing — never an
    /// error — and a fresh uid is appended exactly once.
    pub fn record_completion(&mut self, rec: NewVideo) -> (r: InsertOutcome)
        requires
            old(self).wf(),
        ensures
            final(self).wf(),
            r == spec_record_outcome(old(self).completed_view(), rec.uid@),
            final(self).completed_view() == spec_record(old(self).completed_view(), rec.uid@),
            old(self).completed_view().contains(rec.uid@) ==> *final(self) == *old(self),
            !old(self).completed_view().contains(rec.uid@) ==> final(self).appended@ == old(
                self,
            ).appended@.push(rec),
    {
        if self.contains_uid(&rec.uid) {
            InsertOutcome::AlreadyRecorded
        } else {
            let ghost prev = self.completed.deep_view();
            let ghost prev_app = self.appended@;
            let ghost uid_v = rec.uid@;
            self.completed.push(rec.uid.clone());
            self.appended.push(rec);
            proof {
                assert(self.completed.deep_view() =~= prev.push(uid_v));
                assert forall|x: Seq<char>| prev.contains(x) implies self.completed_view().contains(
                    x,
                ) by {
                    let j = choose|j: int| 0 <= j < prev.len() && prev[j] == x;
                    assert(self.completed_view()[j] == x);
                }
                assert(self.completed_view()[prev.len() as int] == uid_v);
                assert(self.completed_view().contains(uid_v));
                assert forall|i: int|
                    0 <= i < self.appended@.len() implies self.completed_view().contains(
                    #[trigger] self.appended@[i].uid@,
                ) by {
                    if i < prev_app.len() {
                        assert(self.appended@[i] == prev_app[i]);
                    }
                }
            }
            InsertOutcome::Inserted
        }
    }
}

} // verus!
