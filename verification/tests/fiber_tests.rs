use csf::{BuildError, CompressedSparseFiber, RowCursor};

fn sample_rows() -> Vec<(Vec<i64>, f32)> {
    vec![
        (vec![1, 1, 1, 2], 1.0),
        (vec![1, 1, 1, 3], 2.0),
        (vec![1, 2, 1, 1], 3.0),
        (vec![1, 2, 1, 3], 4.0),
        (vec![1, 2, 2, 1], 5.0),
        (vec![2, 2, 2, 1], 6.0),
        (vec![2, 2, 2, 2], 7.0),
        (vec![2, 2, 2, 3], 8.0),
    ]
}

fn sample_csf() -> CompressedSparseFiber<f32> {
    CompressedSparseFiber::new(
        vec![vec![0, 2, 3], vec![0, 1, 3, 4], vec![0, 2, 4, 5, 8]],
        vec![
            vec![1, 2],
            vec![1, 2, 2],
            vec![1, 1, 2, 2],
            vec![2, 3, 1, 3, 1, 1, 2, 3],
        ],
        vec![1.0, 2.0, 3.0, 4.0, 5.0, 6.0, 7.0, 8.0],
    )
}

#[test]
fn test_build() {
    let x = CompressedSparseFiber::from_rows(&sample_rows()).unwrap();
    assert_eq!(x.fids[0], vec![1, 2]);
    assert_eq!(x.fids[1], vec![1, 2, 2]);
    assert_eq!(x.fids[2], vec![1, 1, 2, 2]);
    assert_eq!(x.fids[3], vec![2, 3, 1, 3, 1, 1, 2, 3]);

    assert_eq!(x.fptr[0], vec![0, 2, 3]);
    assert_eq!(x.fptr[1], vec![0, 1, 3, 4]);
    assert_eq!(x.fptr[2], vec![0, 2, 4, 5, 8]);

    assert_eq!(x.vals, vec![1.0, 2.0, 3.0, 4.0, 5.0, 6.0, 7.0, 8.0]);
}

#[test]
fn test_expand_row() {
    let x = sample_csf();

    let (key, val) = x.expand_row(0);
    assert_eq!(key, vec![1, 1, 1, 2]);
    assert_eq!(val, 1.0);

    let (key, val) = x.expand_row(4);
    assert_eq!(key, vec![1, 2, 2, 1]);
    assert_eq!(val, 5.0);

    let (key, val) = x.expand_row(6);
    assert_eq!(key, vec![2, 2, 2, 2]);
    assert_eq!(val, 7.0);
}

#[test]
fn test_iterate() {
    let x = CompressedSparseFiber::from_rows(&sample_rows()).unwrap();

    let mut it = RowCursor::new();
    while let Some((vec_out, val_out)) = it.next(&x) {
        let (_, value) = sample_rows()
            .into_iter()
            .find(|(vector, _)| vector == &vec_out)
            .unwrap();
        assert_eq!(value, val_out);
    }
}

fn expected_sum(rows: &Vec<(Vec<i64>, f32)>, col_index: usize) -> i64 {
    let mut result = 0;
    for (row, _) in rows {
        result += row[col_index];
    }
    result
}

#[test]
fn test_sum() {
    let x = sample_csf();
    let rows = sample_rows();

    assert_eq!(expected_sum(&rows, 0), x.sum_column(0));
    assert_eq!(expected_sum(&rows, 1), x.sum_column(1));
    assert_eq!(expected_sum(&rows, 2), x.sum_column(2));
    assert_eq!(expected_sum(&rows, 3), x.sum_column(3));
}

#[test]
fn test_sum_values() {
    let x = sample_csf();
    assert_eq!(x.sum_column(0), 11);
    assert_eq!(x.sum_column(1), 14);
    assert_eq!(x.sum_column(2), 12);
    assert_eq!(x.sum_column(3), 16);
}

#[test]
fn test_weights() {
    let x = sample_csf();
    assert_eq!(x.weights(0), vec![5, 3]);
    assert_eq!(x.weights(1), vec![2, 3, 3]);
    assert_eq!(x.weights(2), vec![2, 2, 1, 3]);
}

#[test]
fn test_round_trip_all_rows() {
    let x = CompressedSparseFiber::from_rows(&sample_rows()).unwrap();
    let mut it = RowCursor::new();
    let mut seen: Vec<(Vec<i64>, f32)> = Vec::new();
    while let Some(row) = it.next(&x) {
        seen.push(row);
    }
    assert_eq!(seen.len(), sample_rows().len());
    for wanted in sample_rows() {
        let hits = seen.iter().filter(|r| **r == wanted).count();
        assert_eq!(hits, 1);
    }
}

#[test]
fn test_build_order_independent() {
    let mut rows = sample_rows();
    rows.reverse();
    rows.swap(0, 3);
    let x = CompressedSparseFiber::from_rows(&rows).unwrap();
    let y = CompressedSparseFiber::from_rows(&sample_rows()).unwrap();
    assert_eq!(x.fptr, y.fptr);
    assert_eq!(x.fids, y.fids);
    assert_eq!(x.vals, y.vals);
}

#[test]
fn test_duplicate_row_not_stored_twice() {
    let mut rows = sample_rows();
    rows.push((vec![1, 2, 2, 1], 5.0));
    let x = CompressedSparseFiber::from_rows(&rows).unwrap();
    let y = CompressedSparseFiber::from_rows(&sample_rows()).unwrap();
    assert_eq!(x.vals.len(), 8);
    assert_eq!(x.fids, y.fids);
    assert_eq!(x.vals, y.vals);
}

#[test]
fn test_repeated_tuple_keeps_last_value() {
    let rows: Vec<(Vec<i64>, f32)> = vec![
        (vec![3, 1], 1.5),
        (vec![2, 7], 2.5),
        (vec![3, 1], 4.5),
    ];
    let x = CompressedSparseFiber::from_rows(&rows).unwrap();
    assert_eq!(x.vals.len(), 2);
    let (key, val) = x.expand_row(1);
    assert_eq!(key, vec![3, 1]);
    assert_eq!(val, 4.5);
}

#[test]
fn test_empty_build() {
    let rows: Vec<(Vec<i64>, f32)> = vec![];
    let x = CompressedSparseFiber::from_rows(&rows).unwrap();
    assert!(x.fptr.is_empty());
    assert!(x.fids.is_empty());
    assert!(x.vals.is_empty());
    let mut it = RowCursor::new();
    assert!(it.next(&x).is_none());
}

#[test]
fn test_uneven_rows_rejected() {
    let rows: Vec<(Vec<i64>, f32)> = vec![(vec![1, 2], 1.0), (vec![1, 2, 3], 2.0)];
    let r = CompressedSparseFiber::from_rows(&rows);
    assert!(matches!(r, Err(BuildError::DimensionMismatch)));

    let empty_tuple: Vec<(Vec<i64>, f32)> = vec![(vec![], 1.0)];
    let r = CompressedSparseFiber::from_rows(&empty_tuple);
    assert!(matches!(r, Err(BuildError::DimensionMismatch)));
}

#[test]
fn test_single_dimension() {
    let rows: Vec<(Vec<i64>, f32)> = vec![
        (vec![4], 1.0),
        (vec![-2], 2.0),
        (vec![9], 3.0),
    ];
    let x = CompressedSparseFiber::from_rows(&rows).unwrap();
    assert_eq!(x.fids[0], vec![-2, 4, 9]);
    assert!(x.fptr.is_empty());
    assert_eq!(x.vals, vec![2.0, 1.0, 3.0]);
    assert_eq!(x.sum_column(0), 11);
    let (key, val) = x.expand_row(0);
    assert_eq!(key, vec![-2]);
    assert_eq!(val, 2.0);
}

#[test]
fn test_negative_coordinates_sum() {
    let rows: Vec<(Vec<i64>, f32)> = vec![
        (vec![-5, 2], 1.0),
        (vec![-5, 3], 2.0),
        (vec![4, -1], 3.0),
    ];
    let x = CompressedSparseFiber::from_rows(&rows).unwrap();
    assert_eq!(x.sum_column(0), -5 + -5 + 4);
    assert_eq!(x.sum_column(1), 2 + 3 + -1);
}

#[test]
fn test_partition_index() {
    let row: Vec<usize> = vec![0, 2, 4, 5, 8];
    assert_eq!(csf::partition_index(&row, 0), 1);
    assert_eq!(csf::partition_index(&row, 3), 2);
    assert_eq!(csf::partition_index(&row, 4), 3);
    assert_eq!(csf::partition_index(&row, 7), 4);
    assert_eq!(csf::partition_index(&row, 9), 5);
}
