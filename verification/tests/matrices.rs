use hogmild::coord_list::CoordListSparseMatrix;
use hogmild::data_loader::{IdMapping, SparseMatrix};
use hogmild::hash_map_spmat::{HashMapSparseMatrix, SparseMatrixView};

#[test]
fn test_coord_list_tally_sums() {
    // Two movies (columns) rated by three users (rows): six ratings in all.
    let mut m: CoordListSparseMatrix<i64> = CoordListSparseMatrix::new_empty();
    for _ in 0..3 {
        m.add_row();
    }
    for _ in 0..2 {
        m.add_col();
    }
    m.insert(0, 0, 5);
    m.insert(1, 0, 3);
    m.insert(2, 0, 1);
    m.insert(0, 1, 4);
    m.insert(1, 1, 2);
    m.insert(2, 1, 5);

    assert_eq!(m.n_rows(), 3);
    assert_eq!(m.n_cols(), 2);
    assert_eq!(m.nnz(), 6);

    let row_sum: usize = (0..m.n_rows()).map(|r| m.nnz_row(r)).sum();
    let col_sum: usize = (0..m.n_cols()).map(|c| m.nnz_col(c)).sum();
    assert_eq!(row_sum, m.nnz());
    assert_eq!(col_sum, m.nnz());
    assert_eq!(m.nnz_row(0), 2);
    assert_eq!(m.nnz_col(0), 3);
    // A row never inserted into has no entries.
    assert_eq!(m.nnz_row(17), 0);
}

#[test]
fn test_coord_list_insertion_order() {
    let mut m: CoordListSparseMatrix<i64> = CoordListSparseMatrix::new_empty();
    m.insert(2, 0, 10);
    m.insert(0, 1, 20);
    m.insert(1, 1, 30);
    let entries = m.iter();
    assert_eq!(entries, vec![(2, 0, 10), (0, 1, 20), (1, 1, 30)]);
    assert_eq!(m.get(1), Some((0, 1, 20)));
    assert_eq!(m.get(3), None);
}

#[test]
fn test_hash_map_matrix_overwrite() {
    let mut m: HashMapSparseMatrix<i64> = HashMapSparseMatrix::new_empty();
    m.add_row();
    m.add_col();
    m.insert(0, 0, 1);
    m.insert(0, 0, 9);
    // One occupied position, but two reveals tallied for its row and column.
    assert_eq!(m.nnz_base(), 1);
    assert_eq!(m.nnz_row_base(0), 2);
    assert_eq!(m.nnz_col_base(0), 2);
    let mut it = m.iter_base();
    assert_eq!(it.next(), Some(((0, 0), 9)));
    assert_eq!(it.next(), None);
}

fn summarize<M: SparseMatrixView<i64>>(m: &M) -> (usize, usize, usize) {
    let (r, c) = m.shape();
    (r, c, m.nnnz())
}

#[test]
fn test_sparse_matrix_view_trait() {
    let mut m: HashMapSparseMatrix<i64> = HashMapSparseMatrix::new_empty();
    m.add_row();
    m.add_row();
    m.add_col();
    m.insert(0, 0, 7);
    m.insert(1, 0, 8);
    assert_eq!(m.n_rows(), 2);
    assert_eq!(m.n_cols(), 1);
    assert_eq!(summarize(&m), (2, 1, 2));
    assert_eq!(m.nnz_row(1), 1);
    assert_eq!(m.nnz_col(0), 2);
    let mut it = m.iter();
    assert_eq!(it.next(), Some(((0, 0), 7)));
    assert_eq!(it.next(), Some(((1, 0), 8)));
    assert_eq!(it.next(), None);
}

#[test]
fn test_loader_sparse_matrix() {
    let mut m: SparseMatrix<i64> = SparseMatrix::new_empty(0, 2);
    assert_eq!(m.shape(), (0, 2));
    m.add_row();
    m.add_row();
    m.insert(0, 0, -1);
    m.insert(1, 0, 1);
    m.insert(0, 1, 3);
    assert_eq!(m.shape(), (2, 2));
    assert_eq!(m.nnz(), 3);
    assert_eq!(m.row_occupancy(0), 2);
    assert_eq!(m.row_occupancy(1), 1);
    assert_eq!(m.col_occupancy(0), 2);
    assert_eq!(m.col_occupancy(1), 1);
    assert_eq!(m.iter(), vec![(0, 0, -1), (1, 0, 1), (0, 1, 3)]);
}

#[test]
fn test_id_mapping() {
    let mut im = IdMapping::new_empty();
    assert!(!im.has_user(1488844));
    im.insert_user(1488844, 0);
    im.insert_user(822109, 1);
    im.insert_movie(1, 0);
    assert!(im.has_user(1488844));
    assert!(im.has_movie(1));
    assert!(!im.has_movie(2));
    assert_eq!(im.user_to_row(1488844), 0);
    assert_eq!(im.user_to_row(822109), 1);
    assert_eq!(im.movie_to_col(1), 0);
}
