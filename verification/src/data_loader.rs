use vstd::prelude::*;
use std::collections::HashMap;
use crate::hash_map_spmat::{find_key, keys_distinct, lemma_find_key_at, lemma_find_key_props};

verus! {

broadcast use vstd::std_specs::hash::group_hash_axioms;

/// Feeds one epoch's worth of data items, one at a time.
pub trait DataLoader<Data> {
    fn len(&self) -> usize;

    fn start_new_epoch(&mut self);

    fn take_one(&mut self) -> (r: Option<Data>);
}

/// The rating matrix as the data loader builds it: a shape, the revealed
/// entry of each occupied position, and per-row / per-column reveal tallies.
pub struct SparseMatrix<E: Copy> {
    n_row: usize,
    n_col: usize,
    entries: Vec<(usize, usize, E)>,
    nnz_row: HashMap<usize, usize>,
    nnz_col: HashMap<usize, usize>,
}

impl<E: Copy> View for SparseMatrix<E> {
    type V = Seq<(usize, usize, E)>;

    closed spec fn view(&self) -> Seq<(usize, usize, E)> {
        self.entries@
    }
}

impl<E: Copy> SparseMatrix<E> {
    pub closed spec fn spec_shape(&self) -> (usize, usize) {
        (self.n_row, self.n_col)
    }

    /// Reveals row `r` has seen.
    pub closed spec fn row_tally(&self, r: usize) -> int {
        if self.nnz_row@.contains_key(r) {
            self.nnz_row@[r] as int
        } else {
            0
        }
    }

    /// Reveals column `c` has seen.
    pub closed spec fn col_tally(&self, c: usize) -> int {
        if self.nnz_col@.contains_key(c) {
            self.nnz_col@[c] as int
        } else {
            0
        }
    }

    /// One entry per occupied position.
    pub open spec fn wf(&self) -> bool {
        keys_distinct(self@)
    }

    pub fn new_empty(n_row: usize, n_col: usize) -> (r: Self)
        ensures
            r@ == Seq::<(usize, usize, E)>::empty(),
            r.spec_shape() == (n_row, n_col),
            forall|x: usize| #[trigger] r.row_tally(x) == 0,
            forall|x: usize| #[trigger] r.col_tally(x) == 0,
            r.wf(),
    {
        Self {
            n_row,
            n_col,
            entries: Vec::new(),
            nnz_row: HashMap::new(),
            nnz_col: HashMap::new(),
        }
    }

    pub fn shape(&self) -> (r: (usize, usize))
        ensures
            r == self.spec_shape(),
    {
        (self.n_row, self.n_col)
    }

    /// The loader grows the matrix by one row when it meets a new user.
    pub fn add_row(&mut self)
        requires
            old(self).spec_shape().0 < usize::MAX,
        ensures
            final(self).spec_shape() == (
                (old(self).spec_shape().0 + 1) as usize,
                old(self).spec_shape().1,
            ),
            final(self)@ == old(self)@,
            forall|x: usize| #[trigger] final(self).row_tally(x) == old(self).row_tally(x),
            forall|x: usize| #[trigger] final(self).col_tally(x) == old(self).col_tally(x),
            old(self).wf() ==> final(self).wf(),
    {
        self.n_row = self.n_row + 1;
    }

    /// Reveal `(row, col)`: the newest value wins the position, and both
    /// tallies rise whether or not the position was already occupied.
    pub fn insert(&mut self, row: usize, col: usize, value: E)
        requires
            old(self).wf(),
            old(self)@.len() < usize::MAX,
            old(self).row_tally(row) < usize::MAX,
            old(self).col_tally(col) < usize::MAX,
        ensures
            final(self).wf(),
            final(self).spec_shape() == old(self).spec_shape(),
            ({
                let k = find_key(old(self)@, row, col);
                if k == -1 {
                    final(self)@ == old(self)@.push((row, col, value))
                } else {
                    final(self)@ == old(self)@.update(k, (row, col, value))
                }
            }),
            final(self).row_tally(row) == old(self).row_tally(row) + 1,
            final(self).col_tally(col) == old(self).col_tally(col) + 1,
            forall|x: usize|
                x != row ==> #[trigger] final(self).row_tally(x) == old(self).row_tally(x),
            forall|x: usize|
                x != col ==> #[trigger] final(self).col_tally(x) == old(self).col_tally(x),
    {
        let rc = match self.nnz_row.get(&row) {
            Some(v) => *v,
            None => 0,
        };
        self.nnz_row.insert(row, rc + 1);
        let cc = match self.nnz_col.get(&col) {
            Some(v) => *v,
            None => 0,
        };
        self.nnz_col.insert(col, cc + 1);

        let ghost prev = self.entries@;
        let ghost mid = *self;
        let mut i: usize = 0;
        let n = self.entries.len();
        while i < n
            invariant
                n == self.entries@.len(),
                i <= n,
                *self == mid,
                self@ == prev,
                keys_distinct(prev),
                mid.spec_shape() == old(self).spec_shape(),
                mid.row_tally(row) == old(self).row_tally(row) + 1,
                mid.col_tally(col) == old(self).col_tally(col) + 1,
                forall|x: usize|
                    x != row ==> #[trigger] mid.row_tally(x) == old(self).row_tally(x),
                forall|x: usize|
                    x != col ==> #[trigger] mid.col_tally(x) == old(self).col_tally(x),
                prev == old(self)@,
                forall|m: int| 0 <= m < i ==> !((#[trigger] prev[m]).0 == row && prev[m].1 == col),
            decreases n - i,
        {
            let e = self.entries[i];
            if e.0 == row && e.1 == col {
                proof {
                    lemma_find_key_at(prev, row, col, i as int);
                }
                let ghost ii = i as int;
                let slot = &mut self.entries[i];
                *slot = (row, col, value);
                proof {
                    assert(self.nnz_row@ == mid.nnz_row@);
                    assert(self.nnz_col@ == mid.nnz_col@);
                    assert forall|x: usize| #[trigger]
                        self.row_tally(x) == mid.row_tally(x) by {}
                    assert forall|x: usize| #[trigger]
                        self.col_tally(x) == mid.col_tally(x) by {}
                    assert(self@ =~= prev.update(ii, (row, col, value)));
                    let cur = self@;
                    assert forall|a: int, b: int| 0 <= a < b < cur.len() implies !((
                    #[trigger] cur[a]).0 == (#[trigger] cur[b]).0 && cur[a].1 == cur[b].1) by {
                        assert(cur[a].0 == prev[a].0 && cur[a].1 == prev[a].1);
                        assert(cur[b].0 == prev[b].0 && cur[b].1 == prev[b].1);
                    }
                }
                return ;
            }
            i = i + 1;
        }
        proof {
            lemma_find_key_props(prev, row, col);
            assert(find_key(prev, row, col) == -1) by {
                if find_key(prev, row, col) != -1 {
                    let k = find_key(prev, row, col);
                    assert(!(prev[k].0 == row && prev[k].1 == col));
                }
            }
            let cur = prev.push((row, col, value));
            assert forall|a: int, b: int| 0 <= a < b < cur.len() implies !((#[trigger] cur[a]).0
                == (#[trigger] cur[b]).0 && cur[a].1 == cur[b].1) by {
                if b < prev.len() {
                    assert(cur[a] == prev[a] && cur[b] == prev[b]);
                } else {
                    assert(cur[b] == (row, col, value));
                    assert(cur[a] == prev[a]);
                    assert(!(prev[a].0 == row && prev[a].1 == col));
                }
            }
        }
        self.entries.push((row, col, value));
    }

    /// Reveals row `row` has seen; the row must have seen at least one.
    pub fn row_occupancy(&self, row: usize) -> (r: usize)
        requires
            self.row_tally(row) > 0,
        ensures
            r == self.row_tally(row),
    {
        match self.nnz_row.get(&row) {
            Some(v) => *v,
            None => 0,
        }
    }

    /// Reveals column `col` has seen; the column must have seen at least one.
    pub fn col_occupancy(&self, col: usize) -> (r: usize)
        requires
            self.col_tally(col) > 0,
        ensures
            r == self.col_tally(col),
    {
        match self.nnz_col.get(&col) {
            Some(v) => *v,
            None => 0,
        }
    }

    /// Number of occupied positions.
    pub fn nnz(&self) -> (r: usize)
        ensures
            r == self@.len(),
    {
        self.entries.len()
    }

    /// The occupied positions and their values, in first-reveal order.
    pub fn iter(&self) -> (r: Vec<(usize, usize, E)>)
        ensures
            r@ == self@,
    {
        let mut out: Vec<(usize, usize, E)> = Vec::new();
        let mut i: usize = 0;
        while i < self.entries.len()
            invariant
                i <= self@.len(),
                out@ == self@.take(i as int),
            decreases self@.len() - i,
        {
            out.push(self.entries[i]);
            proof {
                assert(out@ =~= self@.take(i as int + 1));
            }
            i = i + 1;
        }
        proof {
            assert(self@.take(self@.len() as int) =~= self@);
        }
        out
    }
}

/// Maps external ids from the dataset onto dense matrix coordinates.
pub struct IdMapping {
    user_to_row: HashMap<usize, usize>,
    movie_to_col: HashMap<usize, usize>,
}

impl IdMapping {
    pub closed spec fn users(&self) -> Map<usize, usize> {
        self.user_to_row@
    }

    pub closed spec fn movies(&self) -> Map<usize, usize> {
        self.movie_to_col@
    }

    pub fn new_empty() -> (r: Self)
        ensures
            r.users() == Map::<usize, usize>::empty(),
            r.movies() == Map::<usize, usize>::empty(),
    {
        Self { user_to_row: HashMap::new(), movie_to_col: HashMap::new() }
    }

    pub fn has_user(&self, user: usize) -> (r: bool)
        ensures
            r == self.users().contains_key(user),
    {
        self.user_to_row.contains_key(&user)
    }

    pub fn has_movie(&self, movie: usize) -> (r: bool)
        ensures
            r == self.movies().contains_key(movie),
    {
        self.movie_to_col.contains_key(&movie)
    }

    pub fn insert_user(&mut self, user: usize, row: usize)
        ensures
            final(self).users() == old(self).users().insert(user, row),
            final(self).movies() == old(self).movies(),
    {
        self.user_to_row.insert(user, row);
    }

    pub fn insert_movie(&mut self, movie: usize, col: usize)
        ensures
            final(self).movies() == old(self).movies().insert(movie, col),
            final(self).users() == old(self).users(),
    {
        self.movie_to_col.insert(movie, col);
    }

    /// The row assigned to `user`, which must have been assigned one.
    pub fn user_to_row(&self, user: usize) -> (r: usize)
        requires
            self.users().contains_key(user),
        ensures
            r == self.users()[user],
    {
        match self.user_to_row.get(&user) {
            Some(v) => *v,
            None => 0,
        }
    }

    /// The column assigned to `movie`, which must have been assigned one.
    pub fn movie_to_col(&self, movie: usize) -> (r: usize)
        requires
            self.movies().contains_key(movie),
        ensures
            r == self.movies()[movie],
    {
        match self.movie_to_col.get(&movie) {
            Some(v) => *v,
            None => 0,
        }
    }
}

} // verus!
