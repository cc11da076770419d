use pillars::rank::{argsort, closest_n, closest_n_bulk, find_topk_with_tolerance, topk_within_tolerance, BAD_INDEX};
use pillars::tensor::PillarsError;

fn float_keys(v: &[f64]) -> Vec<u64> {
    v.iter().map(|x| x.to_bits()).collect()
}

#[test]
fn argsort_test() {
    let a: Vec<f64> = vec![100.125, 6.5489, 6.5488, 0.00, 77777.777];
    let c = argsort(&float_keys(&a));
    assert_eq!(c, &[3, 2, 1, 0, 4]);
}

#[test]
fn argsort_keeps_index_order_on_ties() {
    assert_eq!(argsort(&vec![5, 1, 5, 1, 0]), vec![4, 1, 3, 0, 2]);
    assert_eq!(argsort(&vec![]), Vec::<usize>::new());
    assert_eq!(argsort(&vec![u64::MAX, 0]), vec![1, 0]);
}

#[test]
fn find_topk_with_tolerance_test() {
    let v1: Vec<f64> = vec![100.125, 6.5489, 6.5488, 0.00, -19.0, 77777.777];
    let v2: Vec<f64> = vec![0.5, 100.01, 99.01, 6.5488, 7.0, 77778.777, 10.0, -20.0, 3.24];
    let tol: f64 = 5.0;
    let mut test: Vec<Vec<i32>> = Vec::new();
    for l in v1.iter() {
        let dist: Vec<f64> = v2.iter().map(|r| (r - l).abs()).collect();
        test.push(topk_within_tolerance(&float_keys(&dist), tol.to_bits(), 2).unwrap());
    }
    assert_eq!(test[0][0], 1);
    assert_eq!(test[0], vec![1, 2]);
    assert_eq!(test[4], vec![7, BAD_INDEX]);
}

#[test]
fn topk_integer_samples() {
    let left = vec![100, 6, 0, -19, 77777];
    let right = vec![0, 100, 99, 6, 7, 77778, 10, -20, 3];
    let rows = find_topk_with_tolerance(&left, &right, 5, 2).unwrap();
    assert_eq!(rows.len(), 5);
    assert_eq!(rows[0], vec![1, 2]);
    assert_eq!(rows[1], vec![3, 4]);
    assert_eq!(rows[2], vec![0, 8]);
    assert_eq!(rows[3], vec![7, BAD_INDEX]);
    assert_eq!(rows[4], vec![5, BAD_INDEX]);
}

#[test]
fn topk_unmet_slots_hold_sentinel() {
    let row = topk_within_tolerance(&vec![9, 2, 30, 2, 7], 5, 4).unwrap();
    assert_eq!(row, vec![1, 3, BAD_INDEX, BAD_INDEX]);
    let row = topk_within_tolerance(&vec![9, 2, 30, 2, 7], 0, 3).unwrap();
    assert_eq!(row, vec![BAD_INDEX, BAD_INDEX, BAD_INDEX]);
    let row = topk_within_tolerance(&vec![9, 2, 30, 2, 7], u64::MAX, 4).unwrap();
    assert_eq!(row, vec![1, 3, 4, 0]);
}

#[test]
fn topk_rejects_count_not_below_candidates() {
    assert_eq!(
        find_topk_with_tolerance(&vec![1, 2], &vec![1, 2, 3], 5, 3).err(),
        Some(PillarsError::InvalidCount)
    );
    assert_eq!(topk_within_tolerance(&vec![1, 2, 3], 5, 4).err(), Some(PillarsError::InvalidCount));
    assert_eq!(topk_within_tolerance(&vec![1, 2, 3], 5, 0).unwrap(), Vec::<i32>::new());
}

#[test]
fn closest_n_orders_by_distance_then_index() {
    assert_eq!(closest_n(&vec![0, 5, 3, 3], 3).unwrap(), vec![0, 2, 3]);
    assert_eq!(closest_n(&vec![7, 2, 2, 9], 2).unwrap(), vec![1, 2]);
    assert_eq!(closest_n(&vec![7, 2, 2, 9], 0).unwrap(), Vec::<usize>::new());
}

#[test]
fn closest_n_copy_of_query_first() {
    let distances = float_keys(&[0.0, 3.5, 0.0, 1.25]);
    let r = closest_n(&distances, 3).unwrap();
    assert_eq!(r[0], 0);
    assert_eq!(r, vec![0, 2, 3]);
}

#[test]
fn closest_n_rejects_count_not_below_library() {
    assert_eq!(closest_n(&vec![7, 2, 2, 9], 4).err(), Some(PillarsError::InvalidCount));
    assert_eq!(closest_n(&vec![], 0).err(), Some(PillarsError::InvalidCount));
}

#[test]
fn closest_n_bulk_rows_follow_queries() {
    let rows = closest_n_bulk(&vec![vec![0, 5, 3, 3], vec![7, 2, 2, 9]], 2).unwrap();
    assert_eq!(rows, vec![vec![0, 2], vec![1, 2]]);
    assert_eq!(
        closest_n_bulk(&vec![vec![0, 5, 3, 3], vec![7, 2]], 2).err(),
        Some(PillarsError::InvalidCount)
    );
    assert_eq!(closest_n_bulk(&vec![], 2).unwrap(), Vec::<Vec<usize>>::new());
}
