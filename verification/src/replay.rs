use vstd::prelude::*;
use crate::packet::Sample;

verus! {

// The staleness-aware replay consumes the update log in maximal contiguous
// runs of one observed weight version: within a run every gradient is
// computed against the same weights, and only then are all of the run's
// updates folded.  The grouping below is the integer heart of that replay;
// the caller walks the returned runs in order.

/// `r` splits positions `0 .. n` into non-empty, contiguous, ordered pieces.
pub open spec fn runs_partition(r: Seq<(usize, usize)>, n: int) -> bool {
    &&& (r.len() == 0 <==> n == 0)
    &&& r.len() > 0 ==> r[0].0 == 0 && r.last().1 == n
    &&& forall|k: int| 0 <= k < r.len() ==> (#[trigger] r[k]).0 < r[k].1 <= n
    &&& forall|k: int| 0 <= k < r.len() - 1 ==> (#[trigger] r[k]).1 == r[k + 1].0
}

/// Positions `lo .. hi` of the log all carry the version found at `lo`.
pub open spec fn run_constant(log: Seq<Sample>, lo: int, hi: int) -> bool {
    forall|i: int|
        lo <= i < hi ==> (#[trigger] log[i]).weight_version == log[lo].weight_version
}

/// No two neighbouring runs could be merged: the versions on either side of
/// each cut differ.
pub open spec fn runs_maximal(log: Seq<Sample>, r: Seq<(usize, usize)>) -> bool {
    forall|k: int|
        0 <= k < r.len() - 1 ==> log[(#[trigger] r[k]).1 - 1].weight_version != log[
            r[k].1 as int
        ].weight_version
}

/// Total length of the runs.
pub open spec fn sum_run_lens(r: Seq<(usize, usize)>) -> int
    decreases r.len(),
{
    if r.len() == 0 {
        0
    } else {
        sum_run_lens(r.drop_last()) + (r.last().1 - r.last().0)
    }
}

/// Run ends never decrease along a partition.
proof fn lemma_run_end_le(r: Seq<(usize, usize)>, n: int, k1: int, k2: int)
    requires
        runs_partition(r, n),
        0 <= k1 <= k2 < r.len(),
    ensures
        r[k1].1 <= r[k2].1,
    decreases k2 - k1,
{
    if k1 < k2 {
        lemma_run_end_le(r, n, k1, k2 - 1);
        assert(r[k2 - 1].1 == r[k2].0);
    }
}

/// The runs tile the whole log: their lengths total its length, so a replay
/// that walks them in order touches every update exactly once.
pub proof fn lemma_runs_cover(r: Seq<(usize, usize)>, n: int)
    requires
        runs_partition(r, n),
    ensures
        sum_run_lens(r) == n,
    decreases r.len(),
{
    if r.len() == 0 {
    } else if r.len() == 1 {
        assert(r.drop_last().len() == 0);
        assert(sum_run_lens(r) == sum_run_lens(r.drop_last()) + (r.last().1 - r.last().0));
        assert(r.last() == r[0]);
        assert(r[0].0 == 0 && r.last().1 == n);
    } else {
        let r0 = r.drop_last();
        let m = r0.last().1 as int;
        assert(r0.last() == r[r.len() - 2]);
        assert(r[r.len() - 2].1 == r.last().0);
        assert forall|k: int| 0 <= k < r0.len() implies (#[trigger] r0[k]).0 < r0[k].1
            <= m by {
            assert(r0[k] == r[k]);
            lemma_run_end_le(r, n, k, r.len() - 2);
        }
        assert(runs_partition(r0, m));
        lemma_runs_cover(r0, m);
        assert(sum_run_lens(r) == sum_run_lens(r0) + (r.last().1 - r.last().0));
        assert(r.last().0 == m && r.last().1 == n);
    }
}

/// On a fully sequential log — every update observed exactly the version its
/// own id names — every run is a singleton: the replay reads and folds one
/// update at a time, which is plain sequential descent.
pub proof fn lemma_sequential_log_singleton_runs(log: Seq<Sample>, r: Seq<(usize, usize)>)
    requires
        runs_partition(r, log.len() as int),
        forall|k: int|
            0 <= k < r.len() ==> run_constant(log, (#[trigger] r[k]).0 as int, r[k].1 as int),
        forall|i: int| 0 <= i < log.len() ==> (#[trigger] log[i]).weight_version == i,
    ensures
        forall|k: int| 0 <= k < r.len() ==> (#[trigger] r[k]).1 == r[k].0 + 1,
{
    assert forall|k: int| 0 <= k < r.len() implies (#[trigger] r[k]).1 == r[k].0 + 1 by {
        let lo = r[k].0 as int;
        let hi = r[k].1 as int;
        if hi > lo + 1 {
            assert(run_constant(log, lo, hi));
            assert(log[lo + 1].weight_version == log[lo].weight_version);
            assert(log[lo].weight_version == lo && log[lo + 1].weight_version == lo + 1);
        }
    }
}

/// On a log whose updates all observed one and the same version, the whole
/// log is a single run: the replay reads every weight once and only then
/// folds every update, which is one batch step.
pub proof fn lemma_uniform_log_single_run(log: Seq<Sample>, r: Seq<(usize, usize)>)
    requires
        log.len() > 0,
        runs_partition(r, log.len() as int),
        runs_maximal(log, r),
        forall|i: int|
            0 <= i < log.len() ==> (#[trigger] log[i]).weight_version == log[0].weight_version,
    ensures
        r.len() == 1,
{
    if r.len() >= 2 {
        let cut = r[0].1 as int;
        assert(log[cut - 1].weight_version != log[cut].weight_version);
        assert(r[1].0 < r[1].1 <= log.len());
        assert(log[cut - 1].weight_version == log[0].weight_version);
        assert(log[cut].weight_version == log[0].weight_version);
    }
}

/// Partition the update log into maximal contiguous runs of equal observed
/// weight version, returned as half-open index ranges in log order.
#[verifier::rlimit(100)]
pub fn version_runs(log: &Vec<Sample>) -> (r: Vec<(usize, usize)>)
    ensures
        runs_partition(r@, log@.len() as int),
        forall|k: int| 0 <= k < r@.len() ==> run_constant(log@, (#[trigger] r@[k]).0 as int, r@[k].1 as int),
        runs_maximal(log@, r@),
{
    let mut runs: Vec<(usize, usize)> = Vec::new();
    if log.len() == 0 {
        return runs;
    }
    let mut start: usize = 0;
    let mut i: usize = 1;
    while i < log.len()
        invariant
            0 < i <= log@.len(),
            start < i,
            runs@.len() > 0 ==> runs@[0].0 == 0 && runs@.last().1 == start,
            runs@.len() == 0 ==> start == 0,
            forall|k: int| 0 <= k < runs@.len() ==> (#[trigger] runs@[k]).0 < runs@[k].1 <= start,
            forall|k: int|
                0 <= k < runs@.len() - 1 ==> (#[trigger] runs@[k]).1 == runs@[k + 1].0,
            forall|k: int|
                0 <= k < runs@.len() ==> run_constant(
                    log@,
                    (#[trigger] runs@[k]).0 as int,
                    runs@[k].1 as int,
                ),
            forall|k: int|
                0 <= k < runs@.len() - 1 ==> log@[(#[trigger] runs@[k]).1 - 1].weight_version
                    != log@[runs@[k].1 as int].weight_version,
            runs@.len() > 0 ==> log@[start - 1].weight_version != log@[start as int].weight_version,
            run_constant(log@, start as int, i as int),
        decreases log@.len() - i,
    {
        if log[i].weight_version != log[start].weight_version {
            let ghost prev = runs@;
            runs.push((start, i));
            proof {
                assert(runs@.last() == (start, i));
                assert forall|k: int| 0 <= k < runs@.len() implies run_constant(
                    log@,
                    (#[trigger] runs@[k]).0 as int,
                    runs@[k].1 as int,
                ) by {
                    if k < prev.len() {
                        assert(runs@[k] == prev[k]);
                    }
                }
            }
            start = i;
        }
        i = i + 1;
    }
    runs.push((start, log.len()));
    runs
}

} // verus!
