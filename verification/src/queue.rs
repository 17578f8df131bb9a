//! The batch-distribution queue: the filtered job list, partitioned into
//! fixed-size chunks and handed out one chunk per request, exactly once each,
//! with permanent exhaustion once the list runs out.

use vstd::prelude::*;
use vstd::arithmetic::div_mod::{
    lemma_basic_div,
    lemma_div_plus_one,
    lemma_fundamental_div_mod_converse,
    lemma_mod_sub_multiples_vanish,
    lemma_small_mod,
};
use vstd::seq_lib::*;

verus! {

/// The job list after dedup filtering: every raw job that is not already in
/// the completed set, in their original order.
pub open spec fn filtered_jobs(raw: Seq<Seq<char>>, completed: Seq<Seq<char>>) -> Seq<Seq<char>> {
    raw.filter(|j: Seq<char>| !completed.contains(j))
}

/// The partition of a job list into chunks of `b` jobs each; the last chunk
/// may be shorter, and no chunk is empty.
pub open spec fn chunks_of(jobs: Seq<Seq<char>>, b: nat) -> Seq<Seq<Seq<char>>>
    recommends
        b >= 1,
    decreases jobs.len(),
{
    if b == 0 || jobs.len() == 0 {
        Seq::empty()
    } else if jobs.len() <= b {
        seq![jobs]
    } else {
        seq![jobs.take(b as int)] + chunks_of(jobs.skip(b as int), b)
    }
}

/// The chunks of `N` jobs at batch size `B` number `ceil(N/B)`; every chunk
/// is non-empty and no longer than `B`; the last chunk has `N % B` jobs, or
/// `B` when `B` divides `N` evenly.
pub proof fn lemma_chunk_shape(jobs: Seq<Seq<char>>, b: nat)
    requires
        b >= 1,
    ensures
        chunks_of(jobs, b).len() == (jobs.len() + b - 1) / (b as int),
        forall|i: int|
            0 <= i < chunks_of(jobs, b).len() ==> 1 <= #[trigger] chunks_of(jobs, b)[i].len()
                <= b,
        jobs.len() > 0 && jobs.len() % b == 0 ==> chunks_of(jobs, b).last().len() == b,
        jobs.len() % b != 0 ==> chunks_of(jobs, b).last().len() == jobs.len() % b,
    decreases jobs.len(),
{
    let n = jobs.len() as int;
    let d = b as int;
    if jobs.len() == 0 {
        lemma_basic_div(d - 1, d);
        lemma_small_mod(0, b);
    } else if jobs.len() <= b {
        lemma_fundamental_div_mod_converse(n + d - 1, d, 1, n - 1);
        if jobs.len() < b {
            lemma_small_mod(jobs.len(), b);
        } else {
            lemma_fundamental_div_mod_converse(n, d, 1, 0);
        }
    } else {
        let rest = jobs.skip(d);
        lemma_chunk_shape(rest, b);
        assert(rest.len() == n - d);
        lemma_div_plus_one(n - 1, d);
        assert(chunks_of(jobs, b).len() == 1 + (n - d + d - 1) / d);
        assert((d + (n - 1)) / d == 1 + (n - 1) / d);
        lemma_mod_sub_multiples_vanish(n, d);
        assert((n - d) % d == n % d);
        assert(chunks_of(jobs, b).last() == chunks_of(rest, b).last());
        assert(jobs.take(d).len() == b);
        assert forall|i: int|
            0 <= i < chunks_of(jobs, b).len() implies 1 <= #[trigger] chunks_of(jobs, b)[i].len()
            <= b by {
            if i > 0 {
                assert(chunks_of(jobs, b)[i] == chunks_of(rest, b)[i - 1]);
            }
        }
    }
}

/// Exactly-once partition: concatenating all chunks in order recovers the
/// original job list, with no duplicate and no omission — so however draws
/// interleave across sessions, the multiset of all handed-out jobs is the
/// multiset of the original list.
pub proof fn lemma_chunks_flatten(jobs: Seq<Seq<char>>, b: nat)
    requires
        b >= 1,
    ensures
        chunks_of(jobs, b).flatten() == jobs,
        chunks_of(jobs, b).flatten().to_multiset() == jobs.to_multiset(),
    decreases jobs.len(),
{
    if jobs.len() == 0 {
        assert(chunks_of(jobs, b).flatten() =~= jobs);
    } else if jobs.len() <= b {
        let c = chunks_of(jobs, b);
        assert(c.drop_first() =~= Seq::<Seq<Seq<char>>>::empty());
        assert(c.drop_first().flatten() =~= Seq::<Seq<char>>::empty());
        assert(c.flatten() =~= jobs);
    } else {
        let d = b as int;
        let c = chunks_of(jobs, b);
        lemma_chunks_flatten(jobs.skip(d), b);
        assert(c.drop_first() =~= chunks_of(jobs.skip(d), b));
        assert(c.flatten() == jobs.take(d) + c.drop_first().flatten());
        assert(c.flatten() =~= jobs);
    }
}

/// Every job inside any chunk comes from the partitioned list.
pub proof fn lemma_chunk_elements(jobs: Seq<Seq<char>>, b: nat, i: int, j: int)
    requires
        b >= 1,
        0 <= i < chunks_of(jobs, b).len(),
        0 <= j < chunks_of(jobs, b)[i].len(),
    ensures
        jobs.contains(chunks_of(jobs, b)[i][j]),
    decreases jobs.len(),
{
    let d = b as int;
    if jobs.len() <= b {
        assert(chunks_of(jobs, b)[0] == jobs);
        assert(jobs[j] == chunks_of(jobs, b)[i][j]);
    } else {
        if i == 0 {
            assert(chunks_of(jobs, b)[0] == jobs.take(d));
            assert(jobs.take(d)[j] == jobs[j]);
            assert(jobs[j] == chunks_of(jobs, b)[i][j]);
        } else {
            assert(chunks_of(jobs, b)[i] == chunks_of(jobs.skip(d), b)[i - 1]);
            lemma_chunk_elements(jobs.skip(d), b, i - 1, j);
            let x = chunks_of(jobs, b)[i][j];
            let k = choose|k: int| 0 <= k < jobs.skip(d).len() && jobs.skip(d)[k] == x;
            assert(jobs[d + k] == x);
        }
    }
}

/// Dedup filtering: a job already in the completed set never appears in any
/// chunk of the queue built from the filtered list.
pub proof fn lemma_dedup_filtering(
    raw: Seq<Seq<char>>,
    completed: Seq<Seq<char>>,
    b: nat,
    x: Seq<char>,
)
    requires
        b >= 1,
        completed.contains(x),
    ensures
        forall|i: int|
            0 <= i < chunks_of(filtered_jobs(raw, completed), b).len() ==> !(
            #[trigger] chunks_of(filtered_jobs(raw, completed), b)[i]).contains(x),
{
    let pred = |j: Seq<char>| !completed.contains(j);
    let filtered = filtered_jobs(raw, completed);
    assert forall|i: int|
        0 <= i < chunks_of(filtered, b).len() implies !(#[trigger] chunks_of(filtered, b)[i]).contains(
        x,
    ) by {
        if chunks_of(filtered, b)[i].contains(x) {
            let j = choose|j: int|
                0 <= j < chunks_of(filtered, b)[i].len() && chunks_of(filtered, b)[i][j] == x;
            lemma_chunk_elements(filtered, b, i, j);
            let k = choose|k: int| 0 <= k < filtered.len() && filtered[k] == x;
            raw.lemma_filter_pred(pred, k);
        }
    }
}

/// Answers whether `x` occurs in `list`.
fn contains_job(list: &Vec<String>, x: &String) -> (r: bool)
    ensures
        r == list.deep_view().contains(x@),
{
    let n = list.len();
    let mut i: usize = 0;
    while i < n
        invariant
            i <= n,
            n == list@.len(),
            forall|j: int| 0 <= j < i ==> #[trigger] list.deep_view()[j] != x@,
        decreases n - i,
    {
        if list[i] == *x {
            assert(list.deep_view()[i as int] == x@);
            return true;
        }
        i = i + 1;
    }
    proof {
        if list.deep_view().contains(x@) {
            let j = choose|j: int|
                0 <= j < list.deep_view().len() && list.deep_view()[j] == x@;
        }
    }
    false
}

/// Drops from `raw` every job already present in `completed`, keeping order.
pub fn filter_new_jobs(raw: &Vec<String>, completed: &Vec<String>) -> (r: Vec<String>)
    ensures
        r.deep_view() == filtered_jobs(raw.deep_view(), completed.deep_view()),
{
    let ghost rdv = raw.deep_view();
    let ghost cdv = completed.deep_view();
    let ghost pred = |j: Seq<char>| !cdv.contains(j);
    let n = raw.len();
    let mut out: Vec<String> = Vec::new();
    let mut i: usize = 0;
    proof {
        reveal(Seq::filter);
        assert(out.deep_view() =~= rdv.take(0).filter(pred));
    }
    while i < n
        invariant
            i <= n,
            n == raw@.len(),
            rdv == raw.deep_view(),
            cdv == completed.deep_view(),
            pred == (|j: Seq<char>| !cdv.contains(j)),
            out.deep_view() == rdv.take(i as int).filter(pred),
        decreases n - i,
    {
        let ghost prev = out.deep_view();
        assert(rdv[i as int] == raw@[i as int]@);
        if !contains_job(completed, &raw[i]) {
            out.push(raw[i].clone());
            assert(out.deep_view() =~= prev.push(rdv[i as int]));
        }
        proof {
            reveal_with_fuel(Seq::filter, 2);
            Seq::filter_distributes_over_add(rdv.take(i as int), seq![rdv[i as int]], pred);
            assert(seq![rdv[i as int]].drop_last() =~= Seq::<Seq<char>>::empty());
            assert(seq![rdv[i as int]].last() == rdv[i as int]);
            if pred(rdv[i as int]) {
                assert(seq![rdv[i as int]].filter(pred) =~= seq![rdv[i as int]]);
            } else {
                assert(seq![rdv[i as int]].filter(pred) =~= Seq::<Seq<char>>::empty());
            }
            assert(rdv.take(i as int) + seq![rdv[i as int]] =~= rdv.take(i + 1));
            assert(out.deep_view() =~= rdv.take(i + 1).filter(pred));
        }
        i = i + 1;
    }
    assert(rdv.take(n as int) =~= rdv);
    out
}

/// The batch queue: an ordered job list, a fixed batch size, and a cursor
/// marking how much has already been handed out. Only `draw_next` moves the
/// cursor, and only forward.
pub struct BatchQueue {
    pub jobs: Vec<String>,
    pub batch_size: usize,
    pub cursor: usize,
}

impl BatchQueue {
    /// The job list as a sequence of character sequences.
    pub open spec fn jobs_view(&self) -> Seq<Seq<char>> {
        self.jobs.deep_view()
    }

    /// Well-formedness: a positive batch size and a cursor that sits on a
    /// chunk boundary or at the very end.
    pub open spec fn wf(&self) -> bool {
        &&& self.batch_size >= 1
        &&& self.cursor <= self.jobs@.len()
        &&& (self.cursor % self.batch_size == 0 || self.cursor == self.jobs@.len())
    }

    /// Whether every chunk has been handed out.
    pub open spec fn spec_exhausted(&self) -> bool {
        self.cursor == self.jobs@.len()
    }

    /// Builds a queue over `jobs`, nothing handed out yet.
    pub fn new(jobs: Vec<String>, batch_size: usize) -> (q: BatchQueue)
        requires
            batch_size >= 1,
        ensures
            q.wf(),
            q.jobs == jobs,
            q.jobs_view() == jobs.deep_view(),
            q.batch_size == batch_size,
            q.cursor == 0,
    {
        let q = BatchQueue { jobs, batch_size, cursor: 0 };
        proof {
            lemma_small_mod(0, batch_size as nat);
        }
        q
    }

    /// Builds the queue the master serves from: the raw extracted list minus
    /// every job whose identifier is already in the completed set.
    pub fn build_filtered(raw: Vec<String>, completed: &Vec<String>, batch_size: usize) -> (q:
        BatchQueue)
        requires
            batch_size >= 1,
        ensures
            q.wf(),
            q.jobs_view() == filtered_jobs(raw.deep_view(), completed.deep_view()),
            q.batch_size == batch_size,
            q.cursor == 0,
    {
        let filtered = filter_new_jobs(&raw, completed);
        BatchQueue::new(filtered, batch_size)
    }

    /// Whether the queue will only signal exhaustion from now on.
    pub fn is_exhausted(&self) -> (r: bool)
        ensures
            r == self.spec_exhausted(),
    {
        self.cursor == self.jobs.len()
    }

    /// Hands out the next chunk, or signals exhaustion forever after.
    ///
    /// When jobs remain, the result is exactly the next chunk of the
    /// partition; once the cursor reaches the end, the queue never changes
    /// again and every further call returns `None`.
    pub fn draw_next(&mut self) -> (r: Option<Vec<String>>)
        requires
            old(self).wf(),
        ensures
            final(self).wf(),
            final(self).jobs == old(self).jobs,
            final(self).jobs_view() == old(self).jobs_view(),
            final(self).batch_size == old(self).batch_size,
            old(self).spec_exhausted() ==> r is None && *final(self) == *old(self),
            !old(self).spec_exhausted() ==> (r matches Some(batch) && {
                let jobs = old(self).jobs_view();
                let b = old(self).batch_size as int;
                let c = old(self).cursor as int;
                let end = if c + b <= jobs.len() { c + b } else { jobs.len() as int };
                &&& batch.deep_view() == jobs.subrange(c, end)
                &&& batch.deep_view() == chunks_of(jobs, b as nat)[c / b]
                &&& 1 <= batch@.len() <= b
                &&& final(self).cursor == end
            }),
            final(self).spec_exhausted() ==> final(self).cursor == final(self).jobs@.len(),
    {
        let len = self.jobs.len();
        if self.cursor < len {
            let start = self.cursor;
            let end = if len - start >= self.batch_size {
                start + self.batch_size
            } else {
                len
            };
            let ghost dv = self.jobs.deep_view();
            let mut batch: Vec<String> = Vec::new();
            let mut i: usize = start;
            proof {
                assert(batch.deep_view() =~= dv.subrange(start as int, start as int));
            }
            while i < end
                invariant
                    start <= i <= end <= len,
                    len == self.jobs@.len(),
                    dv == self.jobs.deep_view(),
                    batch.deep_view() == dv.subrange(start as int, i as int),
                    batch@.len() == i - start,
                decreases end - i,
            {
                let ghost prev = batch.deep_view();
                assert(dv[i as int] == self.jobs@[i as int]@);
                batch.push(self.jobs[i].clone());
                proof {
                    assert(batch.deep_view() =~= prev.push(dv[i as int]));
                    assert(dv.subrange(start as int, i as int).push(dv[i as int]) =~= dv.subrange(
                        start as int,
                        i + 1,
                    ));
                }
                i = i + 1;
            }
            proof {
                lemma_chunks_index(dv, self.batch_size as nat, self.cursor as nat);
                vstd::arithmetic::div_mod::lemma_mod_add_multiples_vanish(
                    start as int,
                    self.batch_size as int,
                );
            }
            self.cursor = end;
            Some(batch)
        } else {
            None
        }
    }
}

/// At any chunk-aligned cursor `c`, the next chunk of the partition is the
/// slice from `c` to `c + b` (or to the end of the list).
pub proof fn lemma_chunks_index(jobs: Seq<Seq<char>>, b: nat, c: nat)
    requires
        b >= 1,
        c % b == 0,
        c < jobs.len(),
    ensures
        ({
            let end = if c + b <= jobs.len() { (c + b) as int } else { jobs.len() as int };
            &&& 0 <= (c as int) / (b as int) < chunks_of(jobs, b).len()
            &&& chunks_of(jobs, b)[(c as int) / (b as int)] == jobs.subrange(c as int, end)
        }),
    decreases c,
{
    let d = b as int;
    let n = jobs.len() as int;
    if c == 0 {
        lemma_basic_div(0, d);
        if n <= d {
            assert(chunks_of(jobs, b)[0] == jobs);
            assert(jobs.subrange(0, n) =~= jobs);
        } else {
            assert(chunks_of(jobs, b)[0] == jobs.take(d));
            assert(jobs.take(d) =~= jobs.subrange(0, d));
        }
    } else {
        assert(c >= b) by {
            if c < b {
                lemma_small_mod(c, b);
            }
        }
        assert(n > d);
        let rest = jobs.skip(d);
        lemma_mod_sub_multiples_vanish(c as int, d);
        assert((c - b) as nat % b == 0);
        lemma_chunks_index(rest, b, (c - b) as nat);
        lemma_div_plus_one((c - b) as int, d);
        assert((d + (c - d)) / d == 1 + (c - d) / d);
        assert(chunks_of(jobs, b)[(c as int) / d] == chunks_of(rest, b)[((c - b) as int) / d]);
        let end = if c + b <= jobs.len() { (c + b) as int } else { n };
        assert(rest.subrange((c - b) as int, end - d) =~= jobs.subrange(c as int, end));
    }
}

} // verus!
