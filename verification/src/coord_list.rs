use vstd::prelude::*;
use std::collections::HashMap;

verus! {

broadcast use vstd::std_specs::hash::group_hash_axioms;

// An append-only coordinate-list sparse matrix: entries are kept in
// insertion order — the position of an entry is the `sample_id` the schedule
// simulation will use for it — with per-row and per-column tallies of how
// many entries each row and column holds.

/// Entries of `s` lying in row `r`.
pub open spec fn count_row<Elem>(s: Seq<(usize, usize, Elem)>, r: int) -> int
    decreases s.len(),
{
    if s.len() == 0 {
        0
    } else {
        count_row(s.drop_last(), r) + if s.last().0 == r {
            1int
        } else {
            0int
        }
    }
}

/// Entries of `s` lying in column `c`.
pub open spec fn count_col<Elem>(s: Seq<(usize, usize, Elem)>, c: int) -> int
    decreases s.len(),
{
    if s.len() == 0 {
        0
    } else {
        count_col(s.drop_last(), c) + if s.last().1 == c {
            1int
        } else {
            0int
        }
    }
}

pub proof fn lemma_count_row_bounds<Elem>(s: Seq<(usize, usize, Elem)>, r: int)
    ensures
        0 <= count_row(s, r) <= s.len(),
    decreases s.len(),
{
    if s.len() > 0 {
        lemma_count_row_bounds(s.drop_last(), r);
    }
}

pub proof fn lemma_count_col_bounds<Elem>(s: Seq<(usize, usize, Elem)>, c: int)
    ensures
        0 <= count_col(s, c) <= s.len(),
    decreases s.len(),
{
    if s.len() > 0 {
        lemma_count_col_bounds(s.drop_last(), c);
    }
}

/// Row tallies over all rows below `bound`.
pub open spec fn sum_count_rows<Elem>(s: Seq<(usize, usize, Elem)>, bound: int) -> int
    decreases bound,
{
    if bound <= 0 {
        0
    } else {
        sum_count_rows(s, bound - 1) + count_row(s, bound - 1)
    }
}

/// Column tallies over all columns below `bound`.
pub open spec fn sum_count_cols<Elem>(s: Seq<(usize, usize, Elem)>, bound: int) -> int
    decreases bound,
{
    if bound <= 0 {
        0
    } else {
        sum_count_cols(s, bound - 1) + count_col(s, bound - 1)
    }
}

proof fn lemma_sum_count_rows_last<Elem>(s: Seq<(usize, usize, Elem)>, bound: int)
    requires
        s.len() > 0,
    ensures
        sum_count_rows(s, bound) == sum_count_rows(s.drop_last(), bound) + (if 0 <= s.last().0
            < bound {
            1int
        } else {
            0int
        }),
    decreases bound,
{
    if bound > 0 {
        lemma_sum_count_rows_last(s, bound - 1);
    }
}

proof fn lemma_sum_count_cols_last<Elem>(s: Seq<(usize, usize, Elem)>, bound: int)
    requires
        s.len() > 0,
    ensures
        sum_count_cols(s, bound) == sum_count_cols(s.drop_last(), bound) + (if 0 <= s.last().1
            < bound {
            1int
        } else {
            0int
        }),
    decreases bound,
{
    if bound > 0 {
        lemma_sum_count_cols_last(s, bound - 1);
    }
}

/// Every entry lands in exactly one row, so when every row index lies below
/// `bound`, the row tallies over `0 .. bound` total the number of entries.
/// The same holds for columns: both tallies count each stored rating once.
pub proof fn lemma_tallies_total<Elem>(s: Seq<(usize, usize, Elem)>, bound: int)
    requires
        bound >= 0,
        forall|i: int| 0 <= i < s.len() ==> (#[trigger] s[i]).0 < bound && s[i].1 < bound,
    ensures
        sum_count_rows(s, bound) == s.len(),
        sum_count_cols(s, bound) == s.len(),
    decreases s.len(),
{
    if s.len() == 0 {
        lemma_sum_count_zero::<Elem>(s, bound);
    } else {
        lemma_sum_count_rows_last(s, bound);
        lemma_sum_count_cols_last(s, bound);
        assert(0 <= s.last().0 < bound && 0 <= s.last().1 < bound);
        lemma_tallies_total(s.drop_last(), bound);
    }
}

proof fn lemma_sum_count_zero<Elem>(s: Seq<(usize, usize, Elem)>, bound: int)
    requires
        s.len() == 0,
    ensures
        sum_count_rows(s, bound) == 0,
        sum_count_cols(s, bound) == 0,
    decreases bound,
{
    if bound > 0 {
        lemma_sum_count_zero::<Elem>(s, bound - 1);
    }
}

/// Append-only coordinate-list store of `(row, col, value)` entries, with a
/// running tally of non-zeros per row and per column.  Iteration order is
/// insertion order and is what keys an entry to its `sample_id`.
pub struct CoordListSparseMatrix<Elem: Copy> {
    data: Vec<(usize, usize, Elem)>,
    n_rows: usize,
    n_cols: usize,
    nnz_rows: HashMap<usize, usize>,
    nnz_cols: HashMap<usize, usize>,
}

impl<Elem: Copy> View for CoordListSparseMatrix<Elem> {
    type V = Seq<(usize, usize, Elem)>;

    closed spec fn view(&self) -> Seq<(usize, usize, Elem)> {
        self.data@
    }
}

impl<Elem: Copy> CoordListSparseMatrix<Elem> {
    pub closed spec fn spec_n_rows(&self) -> usize {
        self.n_rows
    }

    pub closed spec fn spec_n_cols(&self) -> usize {
        self.n_cols
    }

    /// The tallies agree with the stored entries.
    pub closed spec fn wf(&self) -> bool {
        &&& forall|r: usize| #[trigger]
            self.nnz_rows@.contains_key(r) <==> count_row(self@, r as int) > 0
        &&& forall|r: usize|
            self.nnz_rows@.contains_key(r) ==> #[trigger] self.nnz_rows@[r] == count_row(
                self@,
                r as int,
            )
        &&& forall|c: usize| #[trigger]
            self.nnz_cols@.contains_key(c) <==> count_col(self@, c as int) > 0
        &&& forall|c: usize|
            self.nnz_cols@.contains_key(c) ==> #[trigger] self.nnz_cols@[c] == count_col(
                self@,
                c as int,
            )
    }

    pub fn new_empty() -> (r: Self)
        ensures
            r@ == Seq::<(usize, usize, Elem)>::empty(),
            r.spec_n_rows() == 0,
            r.spec_n_cols() == 0,
            r.wf(),
    {
        let m = Self {
            data: Vec::new(),
            n_rows: 0,
            n_cols: 0,
            nnz_rows: HashMap::new(),
            nnz_cols: HashMap::new(),
        };
        proof {
            assert forall|r: int| !(count_row(m@, r) > 0) by {
                lemma_count_row_bounds(m@, r);
            }
            assert forall|c: int| !(count_col(m@, c) > 0) by {
                lemma_count_col_bounds(m@, c);
            }
        }
        m
    }

    pub fn add_row(&mut self)
        requires
            old(self).spec_n_rows() < usize::MAX,
        ensures
            final(self).spec_n_rows() == old(self).spec_n_rows() + 1,
            final(self).spec_n_cols() == old(self).spec_n_cols(),
            final(self)@ == old(self)@,
            old(self).wf() ==> final(self).wf(),
    {
        self.n_rows = self.n_rows + 1;
    }

    pub fn add_col(&mut self)
        requires
            old(self).spec_n_cols() < usize::MAX,
        ensures
            final(self).spec_n_cols() == old(self).spec_n_cols() + 1,
            final(self).spec_n_rows() == old(self).spec_n_rows(),
            final(self)@ == old(self)@,
            old(self).wf() ==> final(self).wf(),
    {
        self.n_cols = self.n_cols + 1;
    }

    /// Append one entry and raise both tallies.
    pub fn insert(&mut self, row: usize, col: usize, elem: Elem)
        requires
            old(self).wf(),
            old(self)@.len() < usize::MAX,
        ensures
            final(self)@ == old(self)@.push((row, col, elem)),
            final(self).spec_n_rows() == old(self).spec_n_rows(),
            final(self).spec_n_cols() == old(self).spec_n_cols(),
            final(self).wf(),
    {
        proof {
            lemma_count_row_bounds(self@, row as int);
            lemma_count_col_bounds(self@, col as int);
        }
        let rc = match self.nnz_rows.get(&row) {
            Some(v) => *v,
            None => 0,
        };
        self.nnz_rows.insert(row, rc + 1);
        let cc = match self.nnz_cols.get(&col) {
            Some(v) => *v,
            None => 0,
        };
        self.nnz_cols.insert(col, cc + 1);
        let ghost prev = self.data@;
        self.data.push((row, col, elem));
        proof {
            assert(self.data@.drop_last() =~= prev);
            assert forall|r: int| #[trigger]
                count_row(self@, r) == count_row(prev, r) + (if r == row as int {
                    1int
                } else {
                    0int
                }) by {}
            assert forall|c: int| #[trigger]
                count_col(self@, c) == count_col(prev, c) + (if c == col as int {
                    1int
                } else {
                    0int
                }) by {}
        }
    }

    pub fn n_rows(&self) -> (r: usize)
        ensures
            r == self.spec_n_rows(),
    {
        self.n_rows
    }

    pub fn n_cols(&self) -> (r: usize)
        ensures
            r == self.spec_n_cols(),
    {
        self.n_cols
    }

    /// Number of stored entries.
    pub fn nnz(&self) -> (r: usize)
        ensures
            r == self@.len(),
    {
        self.data.len()
    }

    /// Entries in row `row`; zero for a row never inserted into.
    pub fn nnz_row(&self, row: usize) -> (r: usize)
        requires
            self.wf(),
        ensures
            r == count_row(self@, row as int),
    {
        proof {
            lemma_count_row_bounds(self@, row as int);
        }
        match self.nnz_rows.get(&row) {
            Some(v) => *v,
            None => 0,
        }
    }

    /// Entries in column `col`; zero for a column never inserted into.
    pub fn nnz_col(&self, col: usize) -> (r: usize)
        requires
            self.wf(),
        ensures
            r == count_col(self@, col as int),
    {
        proof {
            lemma_count_col_bounds(self@, col as int);
        }
        match self.nnz_cols.get(&col) {
            Some(v) => *v,
            None => 0,
        }
    }

    /// The entry at position `idx` in insertion order.
    pub fn get(&self, idx: usize) -> (r: Option<(usize, usize, Elem)>)
        ensures
            r == if idx < self@.len() {
                Some(self@[idx as int])
            } else {
                None::<(usize, usize, Elem)>
            },
    {
        if idx < self.data.len() {
            Some(self.data[idx])
        } else {
            None
        }
    }

    /// The entries in insertion order.
    pub fn iter(&self) -> (r: Vec<(usize, usize, Elem)>)
        ensures
            r@ == self@,
    {
        let mut out: Vec<(usize, usize, Elem)> = Vec::new();
        let mut i: usize = 0;
        while i < self.data.len()
            invariant
                i <= self@.len(),
                out@ == self@.take(i as int),
            decreases self@.len() - i,
        {
            out.push(self.data[i]);
            proof {
                assert(out@ =~= self@.take(i as int + 1));
            }
            i = i + 1;
        }
        proof {
            assert(self@.take(self@.len() as int) =~= self@);
        }
        out
    }
}

} // verus!
