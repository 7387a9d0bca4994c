use vstd::prelude::*;
use std::collections::HashMap;

verus! {

broadcast use vstd::std_specs::hash::group_hash_axioms;

// A sparse matrix keyed by `(row, col)`: inserting twice at one position
// keeps only the newest value, while the per-row and per-column tallies count
// every insertion, newest value or not — they tally reveals, not distinct
// positions.

/// Index of the first entry at `(row, col)`, or `-1` if there is none.
pub open spec fn find_key<Elem>(s: Seq<(usize, usize, Elem)>, row: usize, col: usize) -> int
    decreases s.len(),
{
    if s.len() == 0 {
        -1
    } else if s[0].0 == row && s[0].1 == col {
        0
    } else {
        let k = find_key(s.drop_first(), row, col);
        if k == -1 {
            -1
        } else {
            k + 1
        }
    }
}

pub proof fn lemma_find_key_props<Elem>(s: Seq<(usize, usize, Elem)>, row: usize, col: usize)
    ensures
        find_key(s, row, col) == -1 ==> forall|i: int|
            0 <= i < s.len() ==> !((#[trigger] s[i]).0 == row && s[i].1 == col),
        find_key(s, row, col) != -1 ==> {
            let k = find_key(s, row, col);
            &&& 0 <= k < s.len()
            &&& s[k].0 == row && s[k].1 == col
            &&& forall|i: int| 0 <= i < k ==> !((#[trigger] s[i]).0 == row && s[i].1 == col)
        },
    decreases s.len(),
{
    if s.len() > 0 && !(s[0].0 == row && s[0].1 == col) {
        lemma_find_key_props(s.drop_first(), row, col);
        let t = s.drop_first();
        assert(forall|i: int| 0 <= i < t.len() ==> (#[trigger] t[i]) == s[i + 1]);
        if find_key(s, row, col) == -1 {
            assert forall|i: int| 0 <= i < s.len() implies !((#[trigger] s[i]).0 == row && s[i].1
                == col) by {
                if i > 0 {
                    assert(s[i] == t[i - 1]);
                }
            }
        } else {
            let k = find_key(s, row, col);
            assert(k == find_key(t, row, col) + 1);
            assert forall|i: int| 0 <= i < k implies !((#[trigger] s[i]).0 == row && s[i].1
                == col) by {
                if i > 0 {
                    assert(s[i] == t[i - 1]);
                }
            }
        }
    }
}

/// The first match characterizes `find_key`.
pub proof fn lemma_find_key_at<Elem>(s: Seq<(usize, usize, Elem)>, row: usize, col: usize, k: int)
    requires
        0 <= k < s.len(),
        s[k].0 == row && s[k].1 == col,
        forall|i: int| 0 <= i < k ==> !((#[trigger] s[i]).0 == row && s[i].1 == col),
    ensures
        find_key(s, row, col) == k,
    decreases s.len(),
{
    if k > 0 {
        assert(forall|i: int|
            0 <= i < k - 1 ==> !((#[trigger] s.drop_first()[i]).0 == row && s.drop_first()[i].1
                == col));
        lemma_find_key_at(s.drop_first(), row, col, k - 1);
    }
}

/// Distinct positions, one entry each.
pub open spec fn keys_distinct<Elem>(s: Seq<(usize, usize, Elem)>) -> bool {
    forall|i: int, j: int|
        0 <= i < j < s.len() ==> !((#[trigger] s[i]).0 == (#[trigger] s[j]).0 && s[i].1 == s[j].1)
}

/// Walks a snapshot of a matrix's entries.
pub struct Iter<Elem: Copy> {
    items: Vec<(usize, usize, Elem)>,
    pos: usize,
}

impl<Elem: Copy> Iter<Elem> {
    /// The entries not yet returned.
    pub closed spec fn remaining(&self) -> Seq<(usize, usize, Elem)> {
        if self.pos <= self.items@.len() {
            self.items@.skip(self.pos as int)
        } else {
            Seq::<(usize, usize, Elem)>::empty()
        }
    }

    pub fn new(items: Vec<(usize, usize, Elem)>) -> (r: Iter<Elem>)
        ensures
            r.remaining() == items@,
    {
        let r = Iter { items, pos: 0 };
        proof {
            assert(r.remaining() =~= r.items@);
        }
        r
    }

    /// The next entry in order, as `((row, col), value)`.
    pub fn next(&mut self) -> (r: Option<((usize, usize), Elem)>)
        ensures
            match r {
                Some(e) => {
                    &&& old(self).remaining().len() > 0
                    &&& e == (
                        (
                            old(self).remaining()[0].0,
                            old(self).remaining()[0].1,
                        ),
                        old(self).remaining()[0].2,
                    )
                    &&& final(self).remaining() == old(self).remaining().drop_first()
                },
                None => {
                    &&& old(self).remaining().len() == 0
                    &&& final(self).remaining() == old(self).remaining()
                },
            },
    {
        if self.pos < self.items.len() {
            let e = self.items[self.pos];
            proof {
                assert(e == old(self).remaining()[0]);
            }
            self.pos = self.pos + 1;
            proof {
                assert(self.remaining() =~= old(self).remaining().drop_first());
            }
            Some(((e.0, e.1), e.2))
        } else {
            proof {
                assert(self.remaining() =~= Seq::<(usize, usize, Elem)>::empty());
            }
            None
        }
    }
}

/// Read access shared by the sparse-matrix representations: a shape, the
/// revealed entries, and per-row / per-column reveal tallies.
pub trait SparseMatrixView<Elem: Copy> {
    /// The revealed entries, one per occupied position.
    spec fn sp_entries(&self) -> Seq<(usize, usize, Elem)>;

    spec fn sp_shape(&self) -> (usize, usize);

    /// How many reveals row `r` has seen.
    spec fn sp_row_tally(&self, r: usize) -> int;

    /// How many reveals column `c` has seen.
    spec fn sp_col_tally(&self, c: usize) -> int;

    fn n_rows(&self) -> (r: usize)
        ensures
            r == self.sp_shape().0,
    ;

    fn n_cols(&self) -> (r: usize)
        ensures
            r == self.sp_shape().1,
    ;

    fn shape(&self) -> (r: (usize, usize))
        ensures
            r == self.sp_shape(),
    ;

    /// Number of occupied positions.
    fn nnnz(&self) -> (r: usize)
        ensures
            r == self.sp_entries().len(),
    ;

    fn nnz_row(&self, row: usize) -> (r: usize)
        requires
            self.sp_row_tally(row) > 0,
        ensures
            r == self.sp_row_tally(row),
    ;

    fn nnz_col(&self, col: usize) -> (r: usize)
        requires
            self.sp_col_tally(col) > 0,
        ensures
            r == self.sp_col_tally(col),
    ;

    fn iter(&self) -> (r: Iter<Elem>)
        ensures
            r.remaining() == self.sp_entries(),
    ;
}

/// Sparse matrix storing the revealed entry of each occupied position,
/// together with reveal tallies per row and per column.
pub struct HashMapSparseMatrix<Elem: Copy> {
    n_rows: usize,
    n_cols: usize,
    entries: Vec<(usize, usize, Elem)>,
    nnz_rows: HashMap<usize, usize>,
    nnz_cols: HashMap<usize, usize>,
}

impl<Elem: Copy> View for HashMapSparseMatrix<Elem> {
    type V = Seq<(usize, usize, Elem)>;

    closed spec fn view(&self) -> Seq<(usize, usize, Elem)> {
        self.entries@
    }
}

impl<Elem: Copy> HashMapSparseMatrix<Elem> {
    pub closed spec fn spec_n_rows(&self) -> usize {
        self.n_rows
    }

    pub closed spec fn spec_n_cols(&self) -> usize {
        self.n_cols
    }

    /// Reveals row `r` has seen.
    pub closed spec fn row_tally(&self, r: usize) -> int {
        if self.nnz_rows@.contains_key(r) {
            self.nnz_rows@[r] as int
        } else {
            0
        }
    }

    /// Reveals column `c` has seen.
    pub closed spec fn col_tally(&self, c: usize) -> int {
        if self.nnz_cols@.contains_key(c) {
            self.nnz_cols@[c] as int
        } else {
            0
        }
    }

    /// One entry per occupied position.
    pub open spec fn wf(&self) -> bool {
        keys_distinct(self@)
    }

    pub fn new_empty() -> (r: Self)
        ensures
            r@ == Seq::<(usize, usize, Elem)>::empty(),
            r.spec_n_rows() == 0,
            r.spec_n_cols() == 0,
            forall|x: usize| #[trigger] r.row_tally(x) == 0,
            forall|x: usize| #[trigger] r.col_tally(x) == 0,
            r.wf(),
    {
        Self {
            n_rows: 0,
            n_cols: 0,
            entries: Vec::new(),
            nnz_rows: HashMap::new(),
            nnz_cols: HashMap::new(),
        }
    }

    pub fn add_row(&mut self)
        requires
            old(self).spec_n_rows() < usize::MAX,
        ensures
            final(self).spec_n_rows() == old(self).spec_n_rows() + 1,
            final(self).spec_n_cols() == old(self).spec_n_cols(),
            final(self)@ == old(self)@,
            forall|x: usize| #[trigger] final(self).row_tally(x) == old(self).row_tally(x),
            forall|x: usize| #[trigger] final(self).col_tally(x) == old(self).col_tally(x),
            old(self).wf() ==> final(self).wf(),
    {
        self.n_rows = self.n_rows + 1;
    }

    pub fn add_col(&mut self)
        requires
            old(self).spec_n_cols() < usize::MAX,
        ensures
            final(self).spec_n_cols() == old(self).spec_n_cols() + 1,
            final(self).spec_n_rows() == old(self).spec_n_rows(),
            final(self)@ == old(self)@,
            forall|x: usize| #[trigger] final(self).row_tally(x) == old(self).row_tally(x),
            forall|x: usize| #[trigger] final(self).col_tally(x) == old(self).col_tally(x),
            old(self).wf() ==> final(self).wf(),
    {
        self.n_cols = self.n_cols + 1;
    }

    /// Reveal `(row, col)`: the newest value wins the position, and both
    /// tallies rise whether or not the position was already occupied.
    pub fn insert(&mut self, row: usize, col: usize, elem: Elem)
        requires
            old(self).wf(),
            old(self)@.len() < usize::MAX,
            old(self).row_tally(row) < usize::MAX,
            old(self).col_tally(col) < usize::MAX,
        ensures
            final(self).wf(),
            final(self).spec_n_rows() == old(self).spec_n_rows(),
            final(self).spec_n_cols() == old(self).spec_n_cols(),
            ({
                let k = find_key(old(self)@, row, col);
                if k == -1 {
                    final(self)@ == old(self)@.push((row, col, elem))
                } else {
                    final(self)@ == old(self)@.update(k, (row, col, elem))
                }
            }),
            final(self).row_tally(row) == old(self).row_tally(row) + 1,
            final(self).col_tally(col) == old(self).col_tally(col) + 1,
            forall|x: usize| x != row ==> #[trigger] final(self).row_tally(x) == old(
                self,
            ).row_tally(x),
            forall|x: usize| x != col ==> #[trigger] final(self).col_tally(x) == old(
                self,
            ).col_tally(x),
    {
        let rc = match self.nnz_rows.get(&row) {
            Some(v) => *v,
            None => 0,
        };
        self.nnz_rows.insert(row, rc + 1);
        let cc = match self.nnz_cols.get(&col) {
            Some(v) => *v,
            None => 0,
        };
        self.nnz_cols.insert(col, cc + 1);

        let ghost prev = self.entries@;
        let ghost mid = *self;
        let mut i: usize = 0;
        let n = self.entries.len();
        while i < n
            invariant
                n == self.entries@.len(),
                i <= n,
                *self == mid,
                self@ == prev,
                keys_distinct(prev),
                mid.spec_n_rows() == old(self).spec_n_rows(),
                mid.spec_n_cols() == old(self).spec_n_cols(),
                mid.row_tally(row) == old(self).row_tally(row) + 1,
                mid.col_tally(col) == old(self).col_tally(col) + 1,
                forall|x: usize|
                    x != row ==> #[trigger] mid.row_tally(x) == old(self).row_tally(x),
                forall|x: usize|
                    x != col ==> #[trigger] mid.col_tally(x) == old(self).col_tally(x),
                prev == old(self)@,
                forall|m: int| 0 <= m < i ==> !((#[trigger] prev[m]).0 == row && prev[m].1 == col),
            decreases n - i,
        {
            let e = self.entries[i];
            if e.0 == row && e.1 == col {
                proof {
                    lemma_find_key_at(prev, row, col, i as int);
                }
                let ghost ii = i as int;
                let slot = &mut self.entries[i];
                *slot = (row, col, elem);
                proof {
                    assert(self.nnz_rows@ == mid.nnz_rows@);
                    assert(self.nnz_cols@ == mid.nnz_cols@);
                    assert forall|x: usize| #[trigger]
                        self.row_tally(x) == mid.row_tally(x) by {}
                    assert forall|x: usize| #[trigger]
                        self.col_tally(x) == mid.col_tally(x) by {}
                    assert(self@ =~= prev.update(ii, (row, col, elem)));
                    let cur = self@;
                    assert forall|a: int, b: int| 0 <= a < b < cur.len() implies !((
                    #[trigger] cur[a]).0 == (#[trigger] cur[b]).0 && cur[a].1 == cur[b].1) by {
                        assert(cur[a].0 == prev[a].0 && cur[a].1 == prev[a].1);
                        assert(cur[b].0 == prev[b].0 && cur[b].1 == prev[b].1);
                    }
                }
                return ;
            }
            i = i + 1;
        }
        proof {
            let cur = prev.push((row, col, elem));
            assert forall|a: int, b: int| 0 <= a < b < cur.len() implies !((#[trigger] cur[a]).0
                == (#[trigger] cur[b]).0 && cur[a].1 == cur[b].1) by {
                if b < prev.len() {
                    assert(cur[a] == prev[a] && cur[b] == prev[b]);
                } else {
                    assert(cur[b] == (row, col, elem));
                    assert(cur[a] == prev[a]);
                    assert(!(prev[a].0 == row && prev[a].1 == col));
                }
            }
        }
        proof {
            lemma_find_key_props(prev, row, col);
            assert(find_key(prev, row, col) == -1) by {
                if find_key(prev, row, col) != -1 {
                    let k = find_key(prev, row, col);
                    assert(!(prev[k].0 == row && prev[k].1 == col));
                }
            }
        }
        self.entries.push((row, col, elem));
    }

    pub fn n_rows_base(&self) -> (r: usize)
        ensures
            r == self.spec_n_rows(),
    {
        self.n_rows
    }

    pub fn n_cols_base(&self) -> (r: usize)
        ensures
            r == self.spec_n_cols(),
    {
        self.n_cols
    }

    pub fn shape_base(&self) -> (r: (usize, usize))
        ensures
            r == (self.spec_n_rows(), self.spec_n_cols()),
    {
        (self.n_rows, self.n_cols)
    }

    /// Number of occupied positions.
    pub fn nnz_base(&self) -> (r: usize)
        ensures
            r == self@.len(),
    {
        self.entries.len()
    }

    pub fn nnz_row_base(&self, row: usize) -> (r: usize)
        requires
            self.row_tally(row) > 0,
        ensures
            r == self.row_tally(row),
    {
        match self.nnz_rows.get(&row) {
            Some(v) => *v,
            None => 0,
        }
    }

    pub fn nnz_col_base(&self, col: usize) -> (r: usize)
        requires
            self.col_tally(col) > 0,
        ensures
            r == self.col_tally(col),
    {
        match self.nnz_cols.get(&col) {
            Some(v) => *v,
            None => 0,
        }
    }

    pub fn iter_base(&self) -> (r: Iter<Elem>)
        ensures
            r.remaining() == self@,
    {
        let mut out: Vec<(usize, usize, Elem)> = Vec::new();
        let mut i: usize = 0;
        while i < self.entries.len()
            invariant
                i <= self@.len(),
                out@ == self@.take(i as int),
            decreases self@.len() - i,
        {
            out.push(self.entries[i]);
            proof {
                assert(out@ =~= self@.take(i as int + 1));
            }
            i = i + 1;
        }
        proof {
            assert(self@.take(self@.len() as int) =~= self@);
        }
        Iter::new(out)
    }
}

impl<Elem: Copy> SparseMatrixView<Elem> for HashMapSparseMatrix<Elem> {
    open spec fn sp_entries(&self) -> Seq<(usize, usize, Elem)> {
        self@
    }

    open spec fn sp_shape(&self) -> (usize, usize) {
        (self.spec_n_rows(), self.spec_n_cols())
    }

    open spec fn sp_row_tally(&self, r: usize) -> int {
        self.row_tally(r)
    }

    open spec fn sp_col_tally(&self, c: usize) -> int {
        self.col_tally(c)
    }

    fn n_rows(&self) -> (r: usize) {
        self.n_rows_base()
    }

    fn n_cols(&self) -> (r: usize) {
        self.n_cols_base()
    }

    fn shape(&self) -> (r: (usize, usize)) {
        self.shape_base()
    }

    fn nnnz(&self) -> (r: usize) {
        self.nnz_base()
    }

    fn nnz_row(&self, row: usize) -> (r: usize) {
        self.nnz_row_base(row)
    }

    fn nnz_col(&self, col: usize) -> (r: usize) {
        self.nnz_col_base(col)
    }

    fn iter(&self) -> (r: Iter<Elem>) {
        self.iter_base()
    }
}

} // verus!
