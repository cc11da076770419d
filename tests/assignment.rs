use pillars::assign::{min_cost_assignment, COST_BOUND, MAX_SIDE};
use pillars::tensor::PillarsError;

fn gallery() -> Vec<Vec<i64>> {
    vec![vec![100, 110, 90], vec![95, 130, 75], vec![95, 140, 65]]
}

#[test]
fn assignment_finds_least_total() {
    let (cost, assignment) = min_cost_assignment(gallery()).unwrap();
    assert_eq!(cost, 270);
    assert_eq!(assignment, vec![1, 0, 2]);
}

#[test]
fn assignment_single_cell() {
    assert_eq!(min_cost_assignment(vec![vec![-7]]).unwrap(), (-7, vec![0]));
}

#[test]
fn assignment_of_empty_matrix() {
    assert_eq!(min_cost_assignment(vec![]).unwrap(), (0, vec![]));
}

#[test]
fn assignment_zero_diagonal_costs_nothing() {
    let costs = vec![vec![0, 4, 9], vec![4, 0, 2], vec![9, 2, 0]];
    assert_eq!(min_cost_assignment(costs).unwrap().0, 0);
}

#[test]
fn assignment_same_cost_when_transposed() {
    let costs = gallery();
    let transposed: Vec<Vec<i64>> = (0..3).map(|j| (0..3).map(|i| costs[i][j]).collect()).collect();
    let (a, _) = min_cost_assignment(costs).unwrap();
    let (b, _) = min_cost_assignment(transposed).unwrap();
    assert_eq!(a, b);
    let costs = vec![vec![3, 8, 1, 6], vec![2, 9, 7, 4], vec![5, 5, 0, 3], vec![7, 1, 6, 2]];
    let transposed: Vec<Vec<i64>> = (0..4).map(|j| (0..4).map(|i| costs[i][j]).collect()).collect();
    assert_eq!(min_cost_assignment(costs).unwrap().0, min_cost_assignment(transposed).unwrap().0);
}

#[test]
fn assignment_rejects_non_square() {
    assert_eq!(
        min_cost_assignment(vec![vec![1, 2, 3], vec![4, 5, 6]]).err(),
        Some(PillarsError::ShapeMismatch)
    );
    assert_eq!(
        min_cost_assignment(vec![vec![1, 2], vec![4]]).err(),
        Some(PillarsError::ShapeMismatch)
    );
    assert_eq!(min_cost_assignment(vec![vec![]]).err(), Some(PillarsError::ShapeMismatch));
}

#[test]
fn assignment_rejects_out_of_range_costs() {
    assert_eq!(
        min_cost_assignment(vec![vec![0, COST_BOUND + 1], vec![1, 1]]).err(),
        Some(PillarsError::CostOutOfRange)
    );
    assert_eq!(
        min_cost_assignment(vec![vec![-COST_BOUND, 0], vec![0, COST_BOUND]]).unwrap().0,
        -COST_BOUND + COST_BOUND
    );
    let side = MAX_SIDE + 1;
    let big: Vec<Vec<i64>> = (0..side).map(|_| vec![0; side]).collect();
    assert_eq!(min_cost_assignment(big).err(), Some(PillarsError::CostOutOfRange));
}
