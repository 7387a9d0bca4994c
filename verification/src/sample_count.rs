use vstd::prelude::*;
use crate::packet::{Sample, Tick};
use crate::channel::TimeFifo;

verus! {

// Ghost bookkeeping for the schedule simulation: how often a sample id occurs
// in a packet sequence, and across an array of FIFOs.  The driver maintains
// that every issued id occurs exactly once in the whole system; from that it
// gets distinctness of the update log.

/// Occurrences of `id` among the packets of `s`.
pub open spec fn cnt_seq(s: Seq<Sample>, id: int) -> int
    decreases s.len(),
{
    if s.len() == 0 {
        0
    } else {
        (if s[0].sample_id == id {
            1int
        } else {
            0int
        }) + cnt_seq(s.drop_first(), id)
    }
}

/// Occurrences of `id` across an array of FIFOs.
pub open spec fn cnt_fifos(fs: Seq<TimeFifo>, id: int) -> int
    decreases fs.len(),
{
    if fs.len() == 0 {
        0
    } else {
        cnt_seq(fs[0]@, id) + cnt_fifos(fs.drop_first(), id)
    }
}

/// A packet is accounted for: it carries an already-issued sample id, and
/// observed no more folds than samples issued before it.
pub open spec fn pkt_ok(p: Sample, next: int) -> bool {
    &&& p.sample_id < next
    &&& p.weight_version <= p.sample_id
}

pub open spec fn seq_pkts_ok(s: Seq<Sample>, next: int) -> bool {
    forall|i: int| 0 <= i < s.len() ==> pkt_ok(#[trigger] s[i], next)
}

pub open spec fn fifos_pkts_ok(fs: Seq<TimeFifo>, next: int) -> bool {
    forall|i: int| 0 <= i < fs.len() ==> seq_pkts_ok(#[trigger] fs[i]@, next)
}

/// A batch of packets with their timestamps rewritten to `t`; ids and
/// observed versions are untouched.
pub open spec fn stamp(s: Seq<Sample>, t: Tick) -> Seq<Sample> {
    s.map_values(
        |p: Sample| Sample { time: t, sample_id: p.sample_id, weight_version: p.weight_version },
    )
}

/// Restamping does not change any id's count.
pub proof fn lemma_cnt_seq_stamp(s: Seq<Sample>, t: Tick, id: int)
    ensures
        cnt_seq(stamp(s, t), id) == cnt_seq(s, id),
    decreases s.len(),
{
    if s.len() > 0 {
        assert(stamp(s, t).drop_first() =~= stamp(s.drop_first(), t));
        lemma_cnt_seq_stamp(s.drop_first(), t, id);
    }
}

/// Occurrences of commit time `t` among the packets of `s`.
pub open spec fn cnt_time(s: Seq<Sample>, t: int) -> int
    decreases s.len(),
{
    if s.len() == 0 {
        0
    } else {
        (if s[0].time == t {
            1int
        } else {
            0int
        }) + cnt_time(s.drop_first(), t)
    }
}

/// Time counts distribute over concatenation.
pub proof fn lemma_cnt_time_concat(a: Seq<Sample>, b: Seq<Sample>, t: int)
    ensures
        cnt_time(a + b, t) == cnt_time(a, t) + cnt_time(b, t),
    decreases a.len(),
{
    if a.len() == 0 {
        assert(a + b =~= b);
    } else {
        assert((a + b).drop_first() =~= a.drop_first() + b);
        lemma_cnt_time_concat(a.drop_first(), b, t);
    }
}

/// A restamped batch puts all of its packets, and only them, at the new time.
pub proof fn lemma_cnt_time_stamp(s: Seq<Sample>, t: Tick, t2: int)
    ensures
        cnt_time(stamp(s, t), t2) == if t2 == t as int {
            s.len() as int
        } else {
            0int
        },
    decreases s.len(),
{
    if s.len() > 0 {
        assert(stamp(s, t).drop_first() =~= stamp(s.drop_first(), t));
        lemma_cnt_time_stamp(s.drop_first(), t, t2);
    }
}

/// A sequence whose packets all carry times below `t` counts `t` not at all.
pub proof fn lemma_cnt_time_zero_above(s: Seq<Sample>, t: int)
    requires
        forall|i: int| 0 <= i < s.len() ==> (#[trigger] s[i]).time < t,
    ensures
        cnt_time(s, t) == 0,
    decreases s.len(),
{
    if s.len() > 0 {
        assert(forall|i: int|
            0 <= i < s.drop_first().len() ==> (#[trigger] s.drop_first()[i]).time < t);
        lemma_cnt_time_zero_above(s.drop_first(), t);
    }
}

pub proof fn lemma_cnt_seq_nonneg(s: Seq<Sample>, id: int)
    ensures
        cnt_seq(s, id) >= 0,
    decreases s.len(),
{
    if s.len() > 0 {
        lemma_cnt_seq_nonneg(s.drop_first(), id);
    }
}

pub proof fn lemma_cnt_fifos_nonneg(fs: Seq<TimeFifo>, id: int)
    ensures
        cnt_fifos(fs, id) >= 0,
    decreases fs.len(),
{
    if fs.len() > 0 {
        lemma_cnt_seq_nonneg(fs[0]@, id);
        lemma_cnt_fifos_nonneg(fs.drop_first(), id);
    }
}

/// Appending one packet raises its id's count by one and no other.
pub proof fn lemma_cnt_seq_push(s: Seq<Sample>, p: Sample, id: int)
    ensures
        cnt_seq(s.push(p), id) == cnt_seq(s, id) + (if p.sample_id == id {
            1int
        } else {
            0int
        }),
    decreases s.len(),
{
    if s.len() == 0 {
        assert(s.push(p).drop_first() =~= s);
    } else {
        assert(s.push(p).drop_first() =~= s.drop_first().push(p));
        lemma_cnt_seq_push(s.drop_first(), p, id);
    }
}

/// Counts distribute over concatenation.
pub proof fn lemma_cnt_seq_concat(a: Seq<Sample>, b: Seq<Sample>, id: int)
    ensures
        cnt_seq(a + b, id) == cnt_seq(a, id) + cnt_seq(b, id),
    decreases b.len(),
{
    if b.len() == 0 {
        assert(a + b =~= a);
    } else {
        let b0 = b.drop_last();
        assert(a + b =~= (a + b0).push(b.last()));
        assert(b =~= b0.push(b.last()));
        lemma_cnt_seq_concat(a, b0, id);
        lemma_cnt_seq_push(a + b0, b.last(), id);
        lemma_cnt_seq_push(b0, b.last(), id);
    }
}

/// Replacing the FIFO at one index shifts the total count by the difference
/// at that index.
pub proof fn lemma_cnt_fifos_update(fs: Seq<TimeFifo>, i: int, f2: TimeFifo, id: int)
    requires
        0 <= i < fs.len(),
    ensures
        cnt_fifos(fs.update(i, f2), id) == cnt_fifos(fs, id) - cnt_seq(fs[i]@, id) + cnt_seq(
            f2@,
            id,
        ),
    decreases fs.len(),
{
    if i == 0 {
        assert(fs.update(0, f2).drop_first() =~= fs.drop_first());
    } else {
        assert(fs.update(i, f2).drop_first() =~= fs.drop_first().update(i - 1, f2));
        lemma_cnt_fifos_update(fs.drop_first(), i - 1, f2, id);
    }
}

/// A sequence with two positions sharing one id counts that id at least
/// twice.
pub proof fn lemma_cnt_seq_dup(s: Seq<Sample>, i: int, j: int)
    requires
        0 <= i < j < s.len(),
        s[i].sample_id == s[j].sample_id,
    ensures
        cnt_seq(s, s[i].sample_id as int) >= 2,
    decreases s.len(),
{
    let id = s[i].sample_id as int;
    if i == 0 {
        lemma_cnt_seq_at(s.drop_first(), j - 1);
    } else {
        lemma_cnt_seq_dup(s.drop_first(), i - 1, j - 1);
    }
}

/// A sequence counts the id of any of its positions at least once.
pub proof fn lemma_cnt_seq_at(s: Seq<Sample>, i: int)
    requires
        0 <= i < s.len(),
    ensures
        cnt_seq(s, s[i].sample_id as int) >= 1,
    decreases s.len(),
{
    if i == 0 {
        lemma_cnt_seq_nonneg(s.drop_first(), s[0].sample_id as int);
    } else {
        lemma_cnt_seq_at(s.drop_first(), i - 1);
    }
}

/// When every id is counted at most once, positions carry pairwise distinct
/// ids.
pub proof fn lemma_cnt_le_one_distinct(s: Seq<Sample>)
    requires
        forall|id: int| cnt_seq(s, id) <= 1,
    ensures
        forall|i: int, j: int|
            0 <= i < j < s.len() ==> s[i].sample_id != s[j].sample_id,
{
    assert forall|i: int, j: int|
        0 <= i < j < s.len() implies s[i].sample_id != s[j].sample_id by {
        if s[i].sample_id == s[j].sample_id {
            lemma_cnt_seq_dup(s, i, j);
        }
    }
}

/// Occurrences of `id` among a batch of samples still paired with their
/// destination worker index.
pub open spec fn cnt_pairs(s: Seq<(usize, Sample)>, id: int) -> int
    decreases s.len(),
{
    if s.len() == 0 {
        0
    } else {
        (if s[0].1.sample_id == id {
            1int
        } else {
            0int
        }) + cnt_pairs(s.drop_first(), id)
    }
}

/// A batch carrying the consecutive ids `base`, `base + 1`, ... counts each
/// of them once and every other id not at all.
pub proof fn lemma_cnt_pairs_consecutive(s: Seq<(usize, Sample)>, base: int, id: int)
    requires
        forall|j: int| 0 <= j < s.len() ==> (#[trigger] s[j]).1.sample_id == base + j,
    ensures
        cnt_pairs(s, id) == if base <= id < base + s.len() {
            1int
        } else {
            0int
        },
    decreases s.len(),
{
    if s.len() > 0 {
        assert(s[0].1.sample_id == base);
        assert(forall|j: int|
            0 <= j < s.drop_first().len() ==> (#[trigger] s.drop_first()[j]).1.sample_id == base + 1
                + j);
        lemma_cnt_pairs_consecutive(s.drop_first(), base + 1, id);
    }
}

/// Appending one FIFO extends the total count by that FIFO's count.
pub proof fn lemma_cnt_fifos_push(fs: Seq<TimeFifo>, f: TimeFifo, id: int)
    ensures
        cnt_fifos(fs.push(f), id) == cnt_fifos(fs, id) + cnt_seq(f@, id),
    decreases fs.len(),
{
    if fs.len() == 0 {
        assert(fs.push(f).drop_first() =~= fs);
    } else {
        assert(fs.push(f).drop_first() =~= fs.drop_first().push(f));
        lemma_cnt_fifos_push(fs.drop_first(), f, id);
    }
}

/// A sequence of pairwise-distinct ids below `bound` has at most `bound`
/// elements.
pub proof fn lemma_bounded_distinct_len(s: Seq<Sample>, bound: int)
    requires
        forall|id: int| cnt_seq(s, id) <= 1,
        forall|i: int| 0 <= i < s.len() ==> 0 <= (#[trigger] s[i]).sample_id < bound,
        bound >= 0,
    ensures
        s.len() <= bound,
{
    lemma_sum_cnt_len(s, bound);
    lemma_sum_cnt_le(s, bound);
}

/// Total count over all ids below `bound`.
pub open spec fn sum_cnt(s: Seq<Sample>, bound: int) -> int
    decreases bound,
{
    if bound <= 0 {
        0
    } else {
        sum_cnt(s, bound - 1) + cnt_seq(s, bound - 1)
    }
}

/// Dropping the head packet lowers the total by one when its id lies below
/// the bound.
proof fn lemma_sum_cnt_head(s: Seq<Sample>, bound: int)
    requires
        s.len() > 0,
    ensures
        sum_cnt(s, bound) == sum_cnt(s.drop_first(), bound) + (if 0 <= s[0].sample_id < bound {
            1int
        } else {
            0int
        }),
    decreases bound,
{
    if bound > 0 {
        lemma_sum_cnt_head(s, bound - 1);
    }
}

/// When every id in the sequence lies below the bound, the total count equals
/// the length.
pub proof fn lemma_sum_cnt_len(s: Seq<Sample>, bound: int)
    requires
        forall|i: int| 0 <= i < s.len() ==> 0 <= (#[trigger] s[i]).sample_id < bound,
        bound >= 0,
    ensures
        sum_cnt(s, bound) == s.len(),
    decreases s.len(),
{
    if s.len() == 0 {
        lemma_sum_cnt_empty(bound);
        assert(s =~= Seq::<Sample>::empty());
    } else {
        lemma_sum_cnt_head(s, bound);
        assert(0 <= s[0].sample_id < bound);
        assert forall|i: int| 0 <= i < s.drop_first().len() implies 0 <= (#[trigger] s.drop_first()[i]).sample_id < bound by {
            assert(s.drop_first()[i] == s[i + 1]);
        }
        lemma_sum_cnt_len(s.drop_first(), bound);
    }
}

proof fn lemma_sum_cnt_empty(bound: int)
    ensures
        sum_cnt(Seq::<Sample>::empty(), bound) == 0,
    decreases bound,
{
    if bound > 0 {
        lemma_sum_cnt_empty(bound - 1);
    }
}

/// With every id counted at most once, the total over `bound` ids is at most
/// `bound`.
proof fn lemma_sum_cnt_le(s: Seq<Sample>, bound: int)
    requires
        forall|id: int| cnt_seq(s, id) <= 1,
        bound >= 0,
    ensures
        sum_cnt(s, bound) <= bound,
    decreases bound,
{
    if bound > 0 {
        lemma_sum_cnt_le(s, bound - 1);
    }
}

/// If `bound` ids, each counted at most once, total exactly `bound`, then
/// each of them is counted exactly once.
pub proof fn lemma_sum_cnt_full(s: Seq<Sample>, bound: int)
    requires
        forall|id: int| cnt_seq(s, id) <= 1,
        bound >= 0,
        sum_cnt(s, bound) == bound,
    ensures
        forall|id: int| 0 <= id < bound ==> cnt_seq(s, id) == 1,
    decreases bound,
{
    if bound > 0 {
        lemma_sum_cnt_le(s, bound - 1);
        lemma_cnt_seq_nonneg(s, bound - 1);
        lemma_sum_cnt_full(s, bound - 1);
    }
}

} // verus!
