use vstd::prelude::*;
use pathfinding::kuhn_munkres::kuhn_munkres_min;
use pathfinding::matrix::{Matrix, MatrixFormatError};
use crate::tensor::PillarsError;

verus! {

#[verifier::external_type_specification]
#[verifier::external_body]
#[verifier::reject_recursive_types(C)]
pub struct ExMatrix<C>(Matrix<C>);

#[verifier::external_type_specification]
#[verifier::external_body]
pub struct ExMatrixFormatError(MatrixFormatError);

/// The cells of a weight matrix, row by row.
pub uninterp spec fn matrix_rows_of(m: Matrix<i64>) -> Seq<Seq<i64>>;

/// Largest magnitude of a cost handed to the solver.
pub const COST_BOUND: i64 = 16777216;

/// Largest side of a cost matrix handed to the solver.
pub const MAX_SIDE: usize = 4096;

/// Every row has as many cells as there are rows.
pub open spec fn is_square(c: Seq<Seq<i64>>) -> bool {
    forall|i: int| 0 <= i < c.len() ==> #[trigger] c[i].len() == c.len()
}

/// Every cost lies within `COST_BOUND` in magnitude.
pub open spec fn costs_in_range(c: Seq<Seq<i64>>) -> bool {
    forall|i: int, j: int|
        0 <= i < c.len() && 0 <= j < c[i].len() ==> -COST_BOUND <= #[trigger] c[i][j] <= COST_BOUND
}

/// Some position of `p` below `n` holds `v`.
pub open spec fn takes_value(p: Seq<usize>, n: int, v: int) -> bool {
    exists|i: int| 0 <= i < n && p[i] == v
}

/// `p` maps each of `0..n` to a distinct column of `0..n`, every column used.
pub open spec fn is_perm(p: Seq<usize>, n: int) -> bool {
    &&& p.len() == n
    &&& forall|i: int| 0 <= i < n ==> #[trigger] p[i] < n
    &&& forall|i: int, j: int| 0 <= i < j < n ==> #[trigger] p[i] != #[trigger] p[j]
    &&& forall|v: int| 0 <= v < n ==> #[trigger] takes_value(p, n, v)
}

pub open spec fn seq_sum(s: Seq<int>) -> int
    decreases s.len(),
{
    if s.len() == 0 {
        0
    } else {
        seq_sum(s.drop_last()) + s.last()
    }
}

/// Total cost of assigning row `i` to column `p[i]` for every row.
pub open spec fn assignment_cost(c: Seq<Seq<i64>>, p: Seq<usize>) -> int {
    seq_sum(Seq::new(p.len(), |i: int| c[i][p[i] as int] as int))
}

/// `v` is the least total cost over all perfect assignments of `c`.
pub open spec fn is_min_cost(c: Seq<Seq<i64>>, v: int) -> bool {
    &&& exists|p: Seq<usize>| is_perm(p, c.len() as int) && assignment_cost(c, p) == v
    &&& forall|q: Seq<usize>| is_perm(q, c.len() as int) ==> v <= #[trigger] assignment_cost(c, q)
}

/// Relies on pathfinding's `Matrix::from_rows`: it fails when a row's length
/// differs from the first row's, or when the first row has no cell; otherwise
/// the matrix holds the rows as given (no rows: the empty matrix).
#[verifier::external_body]
fn matrix_from_rows(rows: Vec<Vec<i64>>) -> (r: Result<Matrix<i64>, MatrixFormatError>)
    ensures
        r.is_ok() <==> (rows@.len() == 0 || (rows@[0]@.len() > 0 && forall|i: int|
            0 <= i < rows@.len() ==> #[trigger] rows@[i]@.len() == rows@[0]@.len())),
        r.is_ok() ==> matrix_rows_of(r.unwrap()) == rows@.map_values(|v: Vec<i64>| v@),
{
    Matrix::from_rows(rows)
}

/// Relies on pathfinding's `kuhn_munkres_min`: on a square matrix, the least
/// total weight over all assignments of a distinct column to every row, and
/// an assignment that reaches it. The bounds keep its labels and totals far
/// from overflow.
#[verifier::external_body]
fn kuhn_munkres_min_costs(weights: &Matrix<i64>) -> (r: (i64, Vec<usize>))
    requires
        is_square(matrix_rows_of(*weights)),
        costs_in_range(matrix_rows_of(*weights)),
        matrix_rows_of(*weights).len() <= MAX_SIDE,
    ensures
        is_perm(r.1@, matrix_rows_of(*weights).len() as int),
        r.0 as int == assignment_cost(matrix_rows_of(*weights), r.1@),
        forall|q: Seq<usize>|
            is_perm(q, matrix_rows_of(*weights).len() as int) ==> r.0 as int
                <= #[trigger] assignment_cost(matrix_rows_of(*weights), q),
{
    kuhn_munkres_min(weights)
}

/// Minimum-cost assignment solver: for a square cost matrix given by rows,
/// the least total cost over all perfect assignments of rows to columns, with
/// an assignment (row to column) that reaches it. A matrix that is not square
/// is a shape mismatch; a cost beyond `COST_BOUND` in magnitude, or a side
/// beyond `MAX_SIDE`, is out of range.
pub fn min_cost_assignment(costs: Vec<Vec<i64>>) -> (res: Result<(i64, Vec<usize>), PillarsError>)
    ensures
        !is_square(costs@.map_values(|v: Vec<i64>| v@)) ==> res == Err::<(i64, Vec<usize>), PillarsError>(
            PillarsError::ShapeMismatch,
        ),
        is_square(costs@.map_values(|v: Vec<i64>| v@)) && !(costs_in_range(
            costs@.map_values(|v: Vec<i64>| v@),
        ) && costs@.len() <= MAX_SIDE) ==> res == Err::<(i64, Vec<usize>), PillarsError>(
            PillarsError::CostOutOfRange,
        ),
        res.is_ok() ==> ({
            let c = costs@.map_values(|v: Vec<i64>| v@);
            let (v, p) = res.unwrap();
            &&& is_perm(p@, c.len() as int)
            &&& v as int == assignment_cost(c, p@)
            &&& is_min_cost(c, v as int)
        }),
        (is_square(costs@.map_values(|v: Vec<i64>| v@)) && costs_in_range(
            costs@.map_values(|v: Vec<i64>| v@),
        ) && costs@.len() <= MAX_SIDE) ==> res.is_ok(),
{
    let ghost c = costs@.map_values(|v: Vec<i64>| v@);
    let n = costs.len();
    let mut i: usize = 0;
    while i < n
        invariant
            n == costs@.len(),
            c == costs@.map_values(|v: Vec<i64>| v@),
            i <= n,
            forall|u: int| 0 <= u < i ==> #[trigger] c[u].len() == n,
        decreases n - i,
    {
        if costs[i].len() != n {
            proof {
                assert(c[i as int].len() != c.len());
            }
            return Err(PillarsError::ShapeMismatch);
        }
        i = i + 1;
    }
    if n > MAX_SIDE {
        return Err(PillarsError::CostOutOfRange);
    }
    let mut i: usize = 0;
    while i < n
        invariant
            n == costs@.len(),
            c == costs@.map_values(|v: Vec<i64>| v@),
            is_square(c),
            i <= n,
            forall|u: int, j: int|
                0 <= u < i && 0 <= j < n ==> -COST_BOUND <= #[trigger] c[u][j] <= COST_BOUND,
        decreases n - i,
    {
        let row = &costs[i];
        let mut j: usize = 0;
        while j < n
            invariant
                n == costs@.len(),
                c == costs@.map_values(|v: Vec<i64>| v@),
                is_square(c),
                i < n,
                row@ == c[i as int],
                j <= n,
                forall|u: int, w: int|
                    0 <= u < i && 0 <= w < n ==> -COST_BOUND <= #[trigger] c[u][w] <= COST_BOUND,
                forall|w: int| 0 <= w < j ==> -COST_BOUND <= #[trigger] c[i as int][w] <= COST_BOUND,
            decreases n - j,
        {
            let x = row[j];
            if x < -COST_BOUND || x > COST_BOUND {
                proof {
                    assert(c[i as int].len() == n);
                }
                return Err(PillarsError::CostOutOfRange);
            }
            j = j + 1;
        }
        i = i + 1;
    }
    proof {
        assert forall|u: int, w: int| 0 <= u < c.len() && 0 <= w < c[u].len() implies -COST_BOUND
            <= #[trigger] c[u][w] <= COST_BOUND by {
            assert(c[u].len() == n);
        }
    }
    proof {
        assert forall|u: int| 0 <= u < n implies #[trigger] costs@[u]@.len() == n by {
            assert(c[u] == costs@[u]@);
        }
    }
    let m = match matrix_from_rows(costs) {
        Ok(m) => m,
        Err(_) => {
            return Err(PillarsError::ShapeMismatch);
        },
    };
    let (v, p) = kuhn_munkres_min_costs(&m);
    Ok((v, p))
}

/// The cost matrix with rows and columns exchanged.
pub open spec fn transpose(c: Seq<Seq<i64>>) -> Seq<Seq<i64>> {
    Seq::new(c.len(), |j: int| Seq::new(c.len(), |i: int| c[i][j]))
}

/// The assignment that undoes `p`: column `j` back to its row.
pub open spec fn inverse(p: Seq<usize>, n: int) -> Seq<usize> {
    Seq::new(n as nat, |j: int| (choose|i: int| 0 <= i < n && p[i] == j) as usize)
}

proof fn lemma_seq_sum_update(s: Seq<int>, k: int, v: int)
    requires
        0 <= k < s.len(),
    ensures
        seq_sum(s.update(k, v)) == seq_sum(s) - s[k] + v,
    decreases s.len(),
{
    let u = s.update(k, v);
    if k == s.len() - 1 {
        assert(u.drop_last() =~= s.drop_last());
    } else {
        assert(u.drop_last() =~= s.drop_last().update(k, v));
        lemma_seq_sum_update(s.drop_last(), k, v);
    }
}

proof fn lemma_seq_sum_sign(s: Seq<int>)
    requires
        forall|i: int| 0 <= i < s.len() ==> #[trigger] s[i] >= 0,
    ensures
        seq_sum(s) >= 0,
        (forall|i: int| 0 <= i < s.len() ==> #[trigger] s[i] == 0) ==> seq_sum(s) == 0,
    decreases s.len(),
{
    if s.len() > 0 {
        lemma_seq_sum_sign(s.drop_last());
    }
}

/// Summing `g` in the order that a permutation `t` visits it gives the same total.
proof fn lemma_seq_sum_reindex(g: Seq<int>, t: Seq<usize>)
    requires
        is_perm(t, g.len() as int),
    ensures
        seq_sum(Seq::new(g.len(), |j: int| g[t[j] as int])) == seq_sum(g),
    decreases g.len(),
{
    let n = g.len() as int;
    let s = Seq::new(g.len(), |j: int| g[t[j] as int]);
    if n > 0 {
        assert(takes_value(t, n, n - 1));
        let js = choose|i: int| 0 <= i < n && t[i] == n - 1;
        let t2 = t.update(js, t[n - 1]).drop_last();
        let g2 = g.drop_last();
        assert forall|i: int| 0 <= i < n - 1 implies #[trigger] t2[i] < n - 1 by {
            if i == js {
                assert(t[n - 1] != t[js]);
            } else {
                assert(t[i] != t[js]);
            }
        }
        assert forall|i: int, j: int| 0 <= i < j < n - 1 implies #[trigger] t2[i] != #[trigger] t2[j] by {
            if i == js {
                assert(t[j] != t[n - 1]);
            } else if j == js {
                assert(t[i] != t[n - 1]);
            } else {
                assert(t[i] != t[j]);
            }
        }
        assert forall|v: int| 0 <= v < n - 1 implies #[trigger] takes_value(t2, n - 1, v) by {
            assert(takes_value(t, n, v));
            let i0 = choose|i: int| 0 <= i < n && t[i] == v;
            if i0 == n - 1 {
                assert(t2[js] == v);
            } else {
                assert(t2[i0] == v);
            }
        }
        lemma_seq_sum_reindex(g2, t2);
        let u = Seq::new(g2.len(), |j: int| g2[t2[j] as int]);
        if js == n - 1 {
            assert forall|j: int| 0 <= j < n - 1 implies t[j] != n - 1 by {
                assert(t[j] != t[js]);
            }
            assert(u =~= s.drop_last());
        } else {
            assert forall|j: int| 0 <= j < n - 1 && j != js implies t[j] != n - 1 by {
                assert(t[j] != t[js]);
            }
            assert(t[n - 1] != n - 1);
            assert(u =~= s.drop_last().update(js, g[t[n - 1] as int]));
            lemma_seq_sum_update(s.drop_last(), js, g[t[n - 1] as int]);
        }
    }
}

proof fn lemma_inverse_cost(c: Seq<Seq<i64>>, p: Seq<usize>)
    requires
        is_square(c),
        c.len() <= usize::MAX,
        is_perm(p, c.len() as int),
    ensures
        is_perm(inverse(p, c.len() as int), c.len() as int),
        assignment_cost(transpose(c), inverse(p, c.len() as int)) == assignment_cost(c, p),
{
    let n = c.len() as int;
    let q = inverse(p, n);
    assert forall|j: int| 0 <= j < n implies #[trigger] q[j] < n && p[q[j] as int] == j by {
        assert(takes_value(p, n, j));
    }
    assert forall|i: int, j: int| 0 <= i < j < n implies #[trigger] q[i] != #[trigger] q[j] by {
        assert(p[q[i] as int] == i && p[q[j] as int] == j);
    }
    assert forall|v: int| 0 <= v < n implies #[trigger] takes_value(q, n, v) by {
        let w = p[v] as int;
        assert(q[w] < n && p[q[w] as int] == w);
        if q[w] != v {
            if (q[w] as int) < v {
                assert(p[q[w] as int] != p[v]);
            } else {
                assert(p[v] != p[q[w] as int]);
            }
        }
        assert(q[w] == v);
    }
    let g = Seq::new(n as nat, |i: int| c[i][p[i] as int] as int);
    lemma_seq_sum_reindex(g, q);
    assert(Seq::new(n as nat, |j: int| transpose(c)[j][q[j] as int] as int) =~= Seq::new(
        g.len(),
        |j: int| g[q[j] as int],
    ));
}

/// Exchanging the two point sets exchanges rows and columns of their cost
/// matrix; the least assignment cost stays the same.
pub proof fn lemma_transpose_keeps_min_cost(c: Seq<Seq<i64>>, v1: int, v2: int)
    requires
        is_square(c),
        c.len() <= usize::MAX,
        is_min_cost(c, v1),
        is_min_cost(transpose(c), v2),
    ensures
        v1 == v2,
{
    let n = c.len() as int;
    let ct = transpose(c);
    let p = choose|p: Seq<usize>| is_perm(p, n) && assignment_cost(c, p) == v1;
    lemma_inverse_cost(c, p);
    assert(v2 <= assignment_cost(ct, inverse(p, n)));
    let q = choose|q: Seq<usize>| is_perm(q, n) && assignment_cost(ct, q) == v2;
    lemma_inverse_cost(ct, q);
    assert(transpose(ct) =~~= c);
    assert(v1 <= assignment_cost(c, inverse(q, n)));
}

/// A point set against itself: with no negative cost and a zero diagonal, the
/// least assignment cost is zero.
pub proof fn lemma_zero_diagonal_min_cost_is_zero(c: Seq<Seq<i64>>, v: int)
    requires
        is_square(c),
        c.len() <= usize::MAX,
        forall|i: int, j: int| 0 <= i < c.len() && 0 <= j < c.len() ==> #[trigger] c[i][j] >= 0,
        forall|i: int| 0 <= i < c.len() ==> #[trigger] c[i][i] == 0,
        is_min_cost(c, v),
    ensures
        v == 0,
{
    let n = c.len() as int;
    let id = Seq::new(n as nat, |i: int| i as usize);
    assert forall|x: int| 0 <= x < n implies #[trigger] takes_value(id, n, x) by {
        assert(id[x] == x);
    }
    assert(is_perm(id, n));
    let zeros = Seq::new(n as nat, |i: int| c[i][id[i] as int] as int);
    assert forall|i: int| 0 <= i < n implies #[trigger] zeros[i] == 0 by {
        assert(id[i] == i);
    }
    lemma_seq_sum_sign(zeros);
    let p = choose|p: Seq<usize>| is_perm(p, n) && assignment_cost(c, p) == v;
    let costs = Seq::new(n as nat, |i: int| c[i][p[i] as int] as int);
    assert forall|i: int| 0 <= i < n implies #[trigger] costs[i] >= 0 by {
        assert(p[i] < n);
    }
    lemma_seq_sum_sign(costs);
    assert(v <= assignment_cost(c, id));
}

} // verus!
