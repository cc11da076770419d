use pillars::pixel::{pixel_wise_matching_with_tol, pixel_wise_matching_with_tol_indexes, abs_diff, is_match};
use pillars::tensor::{PillarsError, Tensor3};

fn tensor(rows: usize, cols: usize, chans: usize, data: Vec<i64>) -> Tensor3 {
    Tensor3::new(rows, cols, chans, data).unwrap()
}

fn sample_left() -> Tensor3 {
    tensor(1, 2, 2, vec![1, 5, 10, -1])
}

fn sample_right() -> Tensor3 {
    tensor(1, 2, 3, vec![2, 100, 5, -1, 11, 9])
}

#[test]
fn tensor_rejects_wrong_buffer_length() {
    assert_eq!(Tensor3::new(2, 2, 2, vec![0; 7]).err(), Some(PillarsError::ShapeMismatch));
    assert_eq!(Tensor3::new(2, 2, 2, vec![0; 9]).err(), Some(PillarsError::ShapeMismatch));
    let t = tensor(2, 1, 3, vec![1, 2, 3, 4, 5, 6]);
    assert_eq!((t.rows(), t.cols(), t.chans()), (2, 1, 3));
    assert_eq!(t.get(1, 0, 2), 6);
    assert_eq!(t.get(0, 0, 1), 2);
}

#[test]
fn tensor_with_empty_axis() {
    let t = tensor(0, 3, 4, vec![]);
    assert_eq!(t.rows(), 0);
    assert_eq!(Tensor3::new(usize::MAX, 2, 0, vec![]).is_ok(), true);
    assert_eq!(Tensor3::new(usize::MAX, 2, 1, vec![]).err(), Some(PillarsError::ShapeMismatch));
}

#[test]
fn abs_diff_extremes() {
    assert_eq!(abs_diff(3, 10), 7);
    assert_eq!(abs_diff(10, 3), 7);
    assert_eq!(abs_diff(i64::MIN, i64::MAX), u64::MAX);
    assert_eq!(abs_diff(i64::MAX, i64::MIN), u64::MAX);
}

#[test]
fn is_match_is_strict_and_skips_sentinel() {
    assert!(is_match(1, 2, 2, -1));
    assert!(!is_match(1, 3, 2, -1));
    assert!(!is_match(-1, -1, 5, -1));
    assert!(!is_match(4, 4, 0, -1));
}

#[test]
fn index_mode_finds_all_pairs_in_order() {
    let (xs, ys, ls, rs) =
        pixel_wise_matching_with_tol_indexes(&sample_left(), &sample_right(), 2, -1).unwrap();
    assert_eq!(xs, vec![0, 0, 0, 0]);
    assert_eq!(ys, vec![0, 0, 1, 1]);
    assert_eq!(ls, vec![0, 1, 0, 0]);
    assert_eq!(rs, vec![0, 2, 1, 2]);
}

#[test]
fn index_mode_rejects_mismatched_grid() {
    let left = tensor(2, 2, 1, vec![0, 1, 2, 3]);
    let right = tensor(2, 3, 1, vec![0, 1, 2, 3, 4, 5]);
    assert_eq!(
        pixel_wise_matching_with_tol_indexes(&left, &right, 10, -1).err(),
        Some(PillarsError::ShapeMismatch)
    );
    let right_rows = tensor(1, 2, 1, vec![0, 1]);
    assert_eq!(
        pixel_wise_matching_with_tol_indexes(&left, &right_rows, 10, -1).err(),
        Some(PillarsError::ShapeMismatch)
    );
}

#[test]
fn value_mode_rejects_mismatched_grid() {
    let left = tensor(2, 2, 1, vec![0, 1, 2, 3]);
    let right = tensor(2, 3, 1, vec![0, 1, 2, 3, 4, 5]);
    assert_eq!(
        pixel_wise_matching_with_tol(&left, &left, &right, &right, 10, -1).err(),
        Some(PillarsError::ShapeMismatch)
    );
}

#[test]
fn sentinel_samples_never_match() {
    let left = tensor(1, 1, 2, vec![7, 7]);
    let right = tensor(1, 1, 2, vec![7, 3]);
    let (xs, _, _, _) = pixel_wise_matching_with_tol_indexes(&left, &right, i64::MAX, 7).unwrap();
    assert!(xs.is_empty());
    let (xs, ys, ls, rs) = pixel_wise_matching_with_tol_indexes(&left, &right, i64::MAX, 3).unwrap();
    assert_eq!(xs, vec![0, 0]);
    assert_eq!(ys, vec![0, 0]);
    assert_eq!(ls, vec![0, 1]);
    assert_eq!(rs, vec![0, 0]);
    let (_, ys, ls, rs) = pixel_wise_matching_with_tol_indexes(&sample_left(), &sample_right(), i64::MAX, -1).unwrap();
    let left = sample_left();
    let right = sample_right();
    for k in 0..ys.len() {
        assert_ne!(left.get(0, ys[k], ls[k]), -1);
        assert_ne!(right.get(0, ys[k], rs[k]), -1);
    }
}

#[test]
fn wider_tolerance_keeps_narrow_matches() {
    let narrow = pixel_wise_matching_with_tol_indexes(&sample_left(), &sample_right(), 2, -1).unwrap();
    let wide = pixel_wise_matching_with_tol_indexes(&sample_left(), &sample_right(), i64::MAX, -1).unwrap();
    assert_eq!(wide.0.len(), 8);
    let wide_recs: Vec<(usize, usize, usize, usize)> =
        (0..wide.0.len()).map(|k| (wide.0[k], wide.1[k], wide.2[k], wide.3[k])).collect();
    for k in 0..narrow.0.len() {
        assert!(wide_recs.contains(&(narrow.0[k], narrow.1[k], narrow.2[k], narrow.3[k])));
    }
}

#[test]
fn zero_tolerance_matches_nothing() {
    let (xs, _, _, _) = pixel_wise_matching_with_tol_indexes(&sample_left(), &sample_right(), 0, -1).unwrap();
    assert!(xs.is_empty());
}

#[test]
fn value_mode_reports_values_and_aux_differences() {
    let aux_left = tensor(1, 2, 2, vec![100, 200, 300, 400]);
    let aux_right = tensor(1, 2, 3, vec![10, 20, 30, 40, 50, 60]);
    let (lv, rv, dv) =
        pixel_wise_matching_with_tol(&sample_left(), &aux_left, &sample_right(), &aux_right, 2, -1).unwrap();
    assert_eq!(lv, vec![1, 5, 10, 10]);
    assert_eq!(rv, vec![2, 5, 11, 9]);
    assert_eq!(dv, vec![90, 170, 250, 240]);
}

#[test]
fn value_mode_difference_does_not_overflow() {
    let left = tensor(1, 1, 1, vec![0]);
    let right = tensor(1, 1, 1, vec![0]);
    let aux_left = tensor(1, 1, 1, vec![i64::MAX]);
    let aux_right = tensor(1, 1, 1, vec![i64::MIN]);
    let (_, _, dv) = pixel_wise_matching_with_tol(&left, &aux_left, &right, &aux_right, 1, -1).unwrap();
    assert_eq!(dv, vec![i64::MAX as i128 - i64::MIN as i128]);
}

#[test]
fn value_mode_rejects_aux_shape_mismatch() {
    let aux_left = tensor(1, 2, 1, vec![100, 200]);
    let aux_right = tensor(1, 2, 3, vec![10, 20, 30, 40, 50, 60]);
    assert_eq!(
        pixel_wise_matching_with_tol(&sample_left(), &aux_left, &sample_right(), &aux_right, 2, -1).err(),
        Some(PillarsError::ShapeMismatch)
    );
    let aux_left = tensor(1, 2, 2, vec![100, 200, 300, 400]);
    let aux_right = tensor(1, 1, 3, vec![10, 20, 30]);
    assert_eq!(
        pixel_wise_matching_with_tol(&sample_left(), &aux_left, &sample_right(), &aux_right, 2, -1).err(),
        Some(PillarsError::ShapeMismatch)
    );
}
