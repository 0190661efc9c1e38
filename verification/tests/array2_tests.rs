use contiguous_collections::Array2;
use contiguous_collections::InconsistentRowLength;

#[test]
fn new_fills_with_value() {
    let a2 = Array2::new(4, 2, false);
    assert_eq!(a2.row(0), Some(&[false, false, false, false][..]));
    assert_eq!(a2.row(1), Some(&[false, false, false, false][..]));
    assert_eq!(a2.row(2), None);
    assert_eq!(a2.num_cols(), 4);
    assert_eq!(a2.num_rows(), 2);
    assert_eq!(a2.num_elements(), 8);
}

#[test]
fn new_with_zero_columns_is_empty() {
    let a2 = Array2::new(0, 5, 1u32);
    assert_eq!(a2.num_cols(), 0);
    assert_eq!(a2.num_rows(), 0);
    assert_eq!(a2.num_elements(), 0);
    assert_eq!(a2.row(0), None);
}

#[test]
fn from_rows_lays_out_row_major() {
    let a2: Array2<u32> =
        Array2::new_from_rows(vec![vec![1, 2, 3, 4], vec![5, 6, 7, 8]]).unwrap();
    assert_eq!(a2.row(0), Some(&[1, 2, 3, 4][..]));
    assert_eq!(a2.row(1), Some(&[5, 6, 7, 8][..]));
    assert_eq!(a2.row(2), None);
    assert_eq!(a2.elements(), &[1, 2, 3, 4, 5, 6, 7, 8][..]);
    assert_eq!(a2.num_cols(), 4);
    assert_eq!(a2.num_rows(), 2);
}

#[test]
fn from_rows_of_unequal_length_fail() {
    let r: Result<Array2<u32>, InconsistentRowLength> =
        Array2::new_from_rows(vec![vec![1, 2], vec![1, 2, 3]]);
    assert_eq!(r.unwrap_err(), InconsistentRowLength);
}

#[test]
fn from_no_rows_is_empty() {
    let a2: Array2<u32> = Array2::new_from_rows(vec![]).unwrap();
    assert_eq!(a2.num_cols(), 0);
    assert_eq!(a2.num_rows(), 0);
    assert_eq!(a2.num_elements(), 0);
}

#[test]
fn rows_returns_each_row() {
    let a2: Array2<u32> =
        Array2::new_from_rows(vec![vec![1, 2, 3, 4], vec![5, 6, 7, 8]]).unwrap();
    let rows = a2.rows();
    assert_eq!(rows, vec![vec![1, 2, 3, 4], vec![5, 6, 7, 8]]);
}

#[test]
fn col_gathers_column_elements() {
    let a2: Array2<u32> =
        Array2::new_from_rows(vec![vec![1, 2, 3], vec![5, 6, 7], vec![8, 9, 10]]).unwrap();
    assert_eq!(a2.col(0), Some(vec![1, 5, 8]));
    assert_eq!(a2.col(1), Some(vec![2, 6, 9]));
    assert_eq!(a2.col(2), Some(vec![3, 7, 10]));
    assert_eq!(a2.col(3), None);
}

#[test]
fn cols_returns_each_column() {
    let a2: Array2<u32> =
        Array2::new_from_rows(vec![vec![1, 2, 3], vec![5, 6, 7], vec![8, 9, 10]]).unwrap();
    let cols = a2.cols();
    assert_eq!(cols, vec![vec![1, 5, 8], vec![2, 6, 9], vec![3, 7, 10]]);
}

#[test]
fn elements_mut_changes_one_slot() {
    let mut a2: Array2<u32> = Array2::new_from_rows(vec![vec![1, 2], vec![3, 4]]).unwrap();
    a2.elements_mut()[2] = 30;
    assert_eq!(a2.elements(), &[1, 2, 30, 4][..]);
    assert_eq!(a2.row(1), Some(&[30, 4][..]));
}

#[test]
fn col_mut_changes_only_that_column() {
    let mut a2: Array2<u32> =
        Array2::new_from_rows(vec![vec![1, 2, 3], vec![4, 5, 6], vec![7, 8, 9]]).unwrap();
    {
        let mut refs = a2.col_mut(1).unwrap();
        assert_eq!(refs.len(), 3);
        for r in refs.iter_mut() {
            **r += 10;
        }
    }
    assert!(a2.col_mut(3).is_none());
    assert_eq!(a2.elements(), &[1, 12, 3, 4, 15, 6, 7, 18, 9][..]);
}

#[test]
fn row_mut_changes_only_that_row() {
    let mut a2: Array2<u32> =
        Array2::new_from_rows(vec![vec![1, 2, 3], vec![4, 5, 6], vec![7, 8, 9]]).unwrap();
    {
        let row = a2.row_mut(1).unwrap();
        row[0] = 40;
        row[2] = 60;
    }
    assert_eq!(a2.row_mut(3), None);
    assert_eq!(a2.elements(), &[1, 2, 3, 40, 5, 60, 7, 8, 9][..]);
}
