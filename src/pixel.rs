use vstd::prelude::*;
use crate::tensor::{PillarsError, Tensor3};

verus! {

/// One match: (row, col, left channel, right channel).
pub type MatchIndex = (usize, usize, usize, usize);

/// |a - b| over the integers.
pub open spec fn abs_diff_spec(a: i64, b: i64) -> int {
    if a >= b { a - b } else { b - a }
}

/// Two samples match: neither is the invalid sentinel and they differ by
/// strictly less than the tolerance.
pub open spec fn samples_match(a: i64, b: i64, tol: i64, invalid: i64) -> bool {
    abs_diff_spec(a, b) < tol && a != invalid && b != invalid
}

/// Matches of left channel `i` against right channels `0..nj` in lane (r, c).
pub open spec fn pair_matches(
    left: Tensor3, right: Tensor3, tol: i64, invalid: i64, r: int, c: int, i: int, nj: int,
) -> Seq<MatchIndex>
    decreases nj,
{
    if nj <= 0 {
        Seq::empty()
    } else {
        let prev = pair_matches(left, right, tol, invalid, r, c, i, nj - 1);
        if samples_match(left.at(r, c, i), right.at(r, c, nj - 1), tol, invalid) {
            prev.push((r as usize, c as usize, i as usize, (nj - 1) as usize))
        } else {
            prev
        }
    }
}

/// Matches of left channels `0..ni` in lane (r, c).
pub open spec fn lane_matches(
    left: Tensor3, right: Tensor3, tol: i64, invalid: i64, r: int, c: int, ni: int,
) -> Seq<MatchIndex>
    decreases ni,
{
    if ni <= 0 {
        Seq::empty()
    } else {
        lane_matches(left, right, tol, invalid, r, c, ni - 1)
            + pair_matches(left, right, tol, invalid, r, c, ni - 1, right.spec_chans() as int)
    }
}

/// Matches of lanes `(r, 0..nc)`.
pub open spec fn row_matches(
    left: Tensor3, right: Tensor3, tol: i64, invalid: i64, r: int, nc: int,
) -> Seq<MatchIndex>
    decreases nc,
{
    if nc <= 0 {
        Seq::empty()
    } else {
        row_matches(left, right, tol, invalid, r, nc - 1)
            + lane_matches(left, right, tol, invalid, r, nc - 1, left.spec_chans() as int)
    }
}

/// Matches of rows `0..nr`.
pub open spec fn grid_matches(left: Tensor3, right: Tensor3, tol: i64, invalid: i64, nr: int) -> Seq<
    MatchIndex,
>
    decreases nr,
{
    if nr <= 0 {
        Seq::empty()
    } else {
        grid_matches(left, right, tol, invalid, nr - 1)
            + row_matches(left, right, tol, invalid, nr - 1, left.spec_cols() as int)
    }
}

/// All match records of two tensors, in row-major, then left-channel, then
/// right-channel order.
pub open spec fn index_matches(left: Tensor3, right: Tensor3, tol: i64, invalid: i64) -> Seq<
    MatchIndex,
> {
    grid_matches(left, right, tol, invalid, left.spec_rows() as int)
}

pub open spec fn rows_of(s: Seq<MatchIndex>) -> Seq<usize> {
    s.map_values(|m: MatchIndex| m.0)
}

pub open spec fn cols_of(s: Seq<MatchIndex>) -> Seq<usize> {
    s.map_values(|m: MatchIndex| m.1)
}

pub open spec fn lefts_of(s: Seq<MatchIndex>) -> Seq<usize> {
    s.map_values(|m: MatchIndex| m.2)
}

pub open spec fn rights_of(s: Seq<MatchIndex>) -> Seq<usize> {
    s.map_values(|m: MatchIndex| m.3)
}

/// The four index columns hold the records of `s`, one entry each.
pub open spec fn columns_hold(
    xs: Seq<usize>, ys: Seq<usize>, ls: Seq<usize>, rs: Seq<usize>, s: Seq<MatchIndex>,
) -> bool {
    &&& xs == rows_of(s)
    &&& ys == cols_of(s)
    &&& ls == lefts_of(s)
    &&& rs == rights_of(s)
}

proof fn lemma_columns_push(s: Seq<MatchIndex>, m: MatchIndex)
    ensures
        rows_of(s.push(m)) == rows_of(s).push(m.0),
        cols_of(s.push(m)) == cols_of(s).push(m.1),
        lefts_of(s.push(m)) == lefts_of(s).push(m.2),
        rights_of(s.push(m)) == rights_of(s).push(m.3),
{
    assert(rows_of(s.push(m)) =~= rows_of(s).push(m.0));
    assert(cols_of(s.push(m)) =~= cols_of(s).push(m.1));
    assert(lefts_of(s.push(m)) =~= lefts_of(s).push(m.2));
    assert(rights_of(s.push(m)) =~= rights_of(s).push(m.3));
}

proof fn lemma_append_assoc(a: Seq<MatchIndex>, b: Seq<MatchIndex>, c: Seq<MatchIndex>)
    ensures
        a + b + c == a + (b + c),
{
    assert(a + b + c =~= a + (b + c));
}

/// `m` names a lane and a channel of each tensor, and the two samples there match.
pub open spec fn is_match_record(left: Tensor3, right: Tensor3, tol: i64, invalid: i64, m: MatchIndex) -> bool {
    &&& m.0 < left.spec_rows()
    &&& m.1 < left.spec_cols()
    &&& m.2 < left.spec_chans()
    &&& m.3 < right.spec_chans()
    &&& samples_match(
        left.at(m.0 as int, m.1 as int, m.2 as int),
        right.at(m.0 as int, m.1 as int, m.3 as int),
        tol,
        invalid,
    )
}

proof fn lemma_pair_members(
    left: Tensor3, right: Tensor3, tol: i64, invalid: i64, r: int, c: int, i: int, nj: int,
)
    requires
        right.wf(),
        0 <= r <= usize::MAX,
        0 <= c <= usize::MAX,
        0 <= i <= usize::MAX,
        0 <= nj <= right.spec_chans(),
    ensures
        forall|m: MatchIndex| #[trigger]
            pair_matches(left, right, tol, invalid, r, c, i, nj).contains(m) <==> (m.0 as int == r
                && m.1 as int == c && m.2 as int == i && m.3 < nj && samples_match(
                left.at(r, c, i),
                right.at(r, c, m.3 as int),
                tol,
                invalid,
            )),
    decreases nj,
{
    broadcast use vstd::seq_lib::lemma_seq_contains_after_push;
    broadcast use vstd::seq_lib::lemma_seq_empty_contains_nothing;

    if nj > 0 {
        lemma_pair_members(left, right, tol, invalid, r, c, i, nj - 1);
        let prev = pair_matches(left, right, tol, invalid, r, c, i, nj - 1);
        let last: MatchIndex = (r as usize, c as usize, i as usize, (nj - 1) as usize);
        assert forall|m: MatchIndex| #[trigger] prev.push(last).contains(m) <==> (prev.contains(m) || m == last) by {}
    }
}

proof fn lemma_lane_members(left: Tensor3, right: Tensor3, tol: i64, invalid: i64, r: int, c: int, ni: int)
    requires
        left.wf(),
        right.wf(),
        0 <= r <= usize::MAX,
        0 <= c <= usize::MAX,
        0 <= ni <= left.spec_chans(),
    ensures
        forall|m: MatchIndex| #[trigger]
            lane_matches(left, right, tol, invalid, r, c, ni).contains(m) <==> (m.0 as int == r
                && m.1 as int == c && m.2 < ni && m.3 < right.spec_chans() && samples_match(
                left.at(r, c, m.2 as int),
                right.at(r, c, m.3 as int),
                tol,
                invalid,
            )),
    decreases ni,
{
    broadcast use vstd::seq_lib::lemma_seq_concat_contains_all_elements;
    broadcast use vstd::seq_lib::lemma_seq_empty_contains_nothing;

    if ni > 0 {
        lemma_lane_members(left, right, tol, invalid, r, c, ni - 1);
        lemma_pair_members(left, right, tol, invalid, r, c, ni - 1, right.spec_chans() as int);
        let prev = lane_matches(left, right, tol, invalid, r, c, ni - 1);
        let last = pair_matches(left, right, tol, invalid, r, c, ni - 1, right.spec_chans() as int);
        assert forall|m: MatchIndex| #[trigger] (prev + last).contains(m) <==> (prev.contains(m) || last.contains(m)) by {}
    }
}

proof fn lemma_row_members(left: Tensor3, right: Tensor3, tol: i64, invalid: i64, r: int, nc: int)
    requires
        left.wf(),
        right.wf(),
        0 <= r <= usize::MAX,
        0 <= nc <= left.spec_cols(),
    ensures
        forall|m: MatchIndex| #[trigger]
            row_matches(left, right, tol, invalid, r, nc).contains(m) <==> (m.0 as int == r && m.1
                < nc && m.2 < left.spec_chans() && m.3 < right.spec_chans() && samples_match(
                left.at(r, m.1 as int, m.2 as int),
                right.at(r, m.1 as int, m.3 as int),
                tol,
                invalid,
            )),
    decreases nc,
{
    broadcast use vstd::seq_lib::lemma_seq_concat_contains_all_elements;
    broadcast use vstd::seq_lib::lemma_seq_empty_contains_nothing;

    if nc > 0 {
        lemma_row_members(left, right, tol, invalid, r, nc - 1);
        lemma_lane_members(left, right, tol, invalid, r, nc - 1, left.spec_chans() as int);
        let prev = row_matches(left, right, tol, invalid, r, nc - 1);
        let last = lane_matches(left, right, tol, invalid, r, nc - 1, left.spec_chans() as int);
        assert forall|m: MatchIndex| #[trigger] (prev + last).contains(m) <==> (prev.contains(m) || last.contains(m)) by {}
    }
}

proof fn lemma_grid_members(left: Tensor3, right: Tensor3, tol: i64, invalid: i64, nr: int)
    requires
        left.wf(),
        right.wf(),
        0 <= nr <= left.spec_rows(),
    ensures
        forall|m: MatchIndex| #[trigger]
            grid_matches(left, right, tol, invalid, nr).contains(m) <==> (m.0 < nr
                && is_match_record(left, right, tol, invalid, m)),
    decreases nr,
{
    broadcast use vstd::seq_lib::lemma_seq_concat_contains_all_elements;
    broadcast use vstd::seq_lib::lemma_seq_empty_contains_nothing;

    if nr > 0 {
        lemma_grid_members(left, right, tol, invalid, nr - 1);
        lemma_row_members(left, right, tol, invalid, nr - 1, left.spec_cols() as int);
        let prev = grid_matches(left, right, tol, invalid, nr - 1);
        let last = row_matches(left, right, tol, invalid, nr - 1, left.spec_cols() as int);
        assert forall|m: MatchIndex| #[trigger] (prev + last).contains(m) <==> (prev.contains(m) || last.contains(m)) by {}
    }
}

/// A record is produced exactly when it names a lane and a channel of each
/// tensor and the two samples there match.
pub proof fn lemma_index_matches_members(left: Tensor3, right: Tensor3, tol: i64, invalid: i64, m: MatchIndex)
    requires
        left.wf(),
        right.wf(),
    ensures
        index_matches(left, right, tol, invalid).contains(m) <==> is_match_record(
            left,
            right,
            tol,
            invalid,
            m,
        ),
{
    lemma_grid_members(left, right, tol, invalid, left.spec_rows() as int);
}

/// No record ever pairs a sample equal to the invalid sentinel.
pub proof fn lemma_sentinel_never_matched(left: Tensor3, right: Tensor3, tol: i64, invalid: i64, m: MatchIndex)
    requires
        left.wf(),
        right.wf(),
        index_matches(left, right, tol, invalid).contains(m),
    ensures
        left.at(m.0 as int, m.1 as int, m.2 as int) != invalid,
        right.at(m.0 as int, m.1 as int, m.3 as int) != invalid,
{
    lemma_index_matches_members(left, right, tol, invalid, m);
}

/// Widening the tolerance keeps every record found under the narrower one.
pub proof fn lemma_wider_tolerance_superset(
    left: Tensor3, right: Tensor3, narrow: i64, wide: i64, invalid: i64, m: MatchIndex,
)
    requires
        left.wf(),
        right.wf(),
        narrow <= wide,
        index_matches(left, right, narrow, invalid).contains(m),
    ensures
        index_matches(left, right, wide, invalid).contains(m),
{
    lemma_index_matches_members(left, right, narrow, invalid, m);
    lemma_index_matches_members(left, right, wide, invalid, m);
}

/// Absolute difference of two samples, computed without overflow.
pub fn abs_diff(a: i64, b: i64) -> (r: u64)
    ensures
        r as int == abs_diff_spec(a, b),
{
    if a >= b {
        (a as i128 - b as i128) as u64
    } else {
        (b as i128 - a as i128) as u64
    }
}

/// Whether two samples match under `tol` and the sentinel `invalid`.
pub fn is_match(a: i64, b: i64, tol: i64, invalid: i64) -> (r: bool)
    ensures
        r == samples_match(a, b, tol, invalid),
{
    let d = abs_diff(a, b);
    (d as i128) < (tol as i128) && a != invalid && b != invalid
}

/// Index mode of the tolerance pixel matcher: for every lane shared by the two
/// tensors, every pair of a left and a right channel whose samples match.
/// The result holds four parallel columns (row, col, left channel, right
/// channel), one entry per record.
pub fn pixel_wise_matching_with_tol_indexes(
    matching_array_left: &Tensor3,
    matching_array_right: &Tensor3,
    tol_match: i64,
    invalid: i64,
) -> (res: Result<(Vec<usize>, Vec<usize>, Vec<usize>, Vec<usize>), PillarsError>)
    requires
        matching_array_left.wf(),
        matching_array_right.wf(),
    ensures
        matching_array_left.same_grid(matching_array_right) <==> res.is_ok(),
        res.is_err() ==> res == Err::<(Vec<usize>, Vec<usize>, Vec<usize>, Vec<usize>), PillarsError>(
            PillarsError::ShapeMismatch,
        ),
        res.is_ok() ==> ({
            let (xs, ys, ls, rs) = res.unwrap();
            columns_hold(
                xs@,
                ys@,
                ls@,
                rs@,
                index_matches(*matching_array_left, *matching_array_right, tol_match, invalid),
            )
        }),
{
    let left = matching_array_left;
    let right = matching_array_right;
    if left.rows() != right.rows() || left.cols() != right.cols() {
        return Err(PillarsError::ShapeMismatch);
    }
    let nr = left.rows();
    let nc = left.cols();
    let nl = left.chans();
    let nrc = right.chans();
    let mut xs: Vec<usize> = Vec::new();
    let mut ys: Vec<usize> = Vec::new();
    let mut ls: Vec<usize> = Vec::new();
    let mut rs: Vec<usize> = Vec::new();
    let ghost mut acc: Seq<MatchIndex> = Seq::empty();
    proof {
        assert(rows_of(acc) =~= xs@);
        assert(cols_of(acc) =~= ys@);
        assert(lefts_of(acc) =~= ls@);
        assert(rights_of(acc) =~= rs@);
    }
    let mut r: usize = 0;
    while r < nr
        invariant
            left.wf(),
            right.wf(),
            left.same_grid(right),
            nr == left.spec_rows(),
            nc == left.spec_cols(),
            nl == left.spec_chans(),
            nrc == right.spec_chans(),
            r <= nr,
            acc == grid_matches(*left, *right, tol_match, invalid, r as int),
            columns_hold(xs@, ys@, ls@, rs@, acc),
        decreases nr - r,
    {
        let ghost base_r = acc;
        let mut c: usize = 0;
        while c < nc
            invariant
                left.wf(),
                right.wf(),
                left.same_grid(right),
                nr == left.spec_rows(),
                nc == left.spec_cols(),
                nl == left.spec_chans(),
                nrc == right.spec_chans(),
                r < nr,
                c <= nc,
                acc == base_r + row_matches(*left, *right, tol_match, invalid, r as int, c as int),
                columns_hold(xs@, ys@, ls@, rs@, acc),
            decreases nc - c,
        {
            let ghost base_c = acc;
            let mut i: usize = 0;
            while i < nl
                invariant
                    left.wf(),
                    right.wf(),
                    left.same_grid(right),
                    nr == left.spec_rows(),
                    nc == left.spec_cols(),
                    nl == left.spec_chans(),
                    nrc == right.spec_chans(),
                    r < nr,
                    c < nc,
                    i <= nl,
                    acc == base_c + lane_matches(*left, *right, tol_match, invalid, r as int, c as int, i as int),
                    columns_hold(xs@, ys@, ls@, rs@, acc),
                decreases nl - i,
            {
                let ghost base_i = acc;
                let a = left.get(r, c, i);
                let mut j: usize = 0;
                while j < nrc
                    invariant
                        left.wf(),
                        right.wf(),
                        left.same_grid(right),
                        nr == left.spec_rows(),
                        nc == left.spec_cols(),
                        nl == left.spec_chans(),
                        nrc == right.spec_chans(),
                        r < nr,
                        c < nc,
                        i < nl,
                        j <= nrc,
                        a == left.at(r as int, c as int, i as int),
                        acc == base_i + pair_matches(
                            *left, *right, tol_match, invalid, r as int, c as int, i as int, j as int,
                        ),
                        columns_hold(xs@, ys@, ls@, rs@, acc),
                    decreases nrc - j,
                {
                    let b = right.get(r, c, j);
                    if is_match(a, b, tol_match, invalid) {
                        let ghost m: MatchIndex = (r, c, i, j);
                        proof {
                            lemma_columns_push(acc, m);
                            assert(base_i + pair_matches(*left, *right, tol_match, invalid, r as int, c as int, i as int, j + 1)
                                =~= acc.push(m));
                            acc = acc.push(m);
                        }
                        xs.push(r);
                        ys.push(c);
                        ls.push(i);
                        rs.push(j);
                    }
                    j = j + 1;
                }
                proof {
                    lemma_append_assoc(
                        base_c,
                        lane_matches(*left, *right, tol_match, invalid, r as int, c as int, i as int),
                        pair_matches(*left, *right, tol_match, invalid, r as int, c as int, i as int, nrc as int),
                    );
                }
                i = i + 1;
            }
            proof {
                lemma_append_assoc(
                    base_r,
                    row_matches(*left, *right, tol_match, invalid, r as int, c as int),
                    lane_matches(*left, *right, tol_match, invalid, r as int, c as int, nl as int),
                );
            }
            c = c + 1;
        }
        r = r + 1;
    }
    Ok((xs, ys, ls, rs))
}

/// Left measurement at each record.
pub open spec fn left_values(left: Tensor3, s: Seq<MatchIndex>) -> Seq<i64> {
    s.map_values(|m: MatchIndex| left.at(m.0 as int, m.1 as int, m.2 as int))
}

/// Right measurement at each record.
pub open spec fn right_values(right: Tensor3, s: Seq<MatchIndex>) -> Seq<i64> {
    s.map_values(|m: MatchIndex| right.at(m.0 as int, m.1 as int, m.3 as int))
}

/// Left auxiliary value minus right auxiliary value at each record.
pub open spec fn aux_differences(aux_left: Tensor3, aux_right: Tensor3, s: Seq<MatchIndex>) -> Seq<i128> {
    s.map_values(
        |m: MatchIndex|
            (aux_left.at(m.0 as int, m.1 as int, m.2 as int) - aux_right.at(
                m.0 as int,
                m.1 as int,
                m.3 as int,
            )) as i128,
    )
}

/// Value mode of the tolerance pixel matcher: the records of the index mode,
/// each given as (left measurement, right measurement, left auxiliary value
/// minus right auxiliary value). Each auxiliary tensor must have the shape of
/// its measurement tensor, and the two measurement tensors the same lanes.
pub fn pixel_wise_matching_with_tol(
    matching_array_left: &Tensor3,
    differencing_array_left: &Tensor3,
    matching_array_right: &Tensor3,
    differencing_array_right: &Tensor3,
    tol_match: i64,
    invalid: i64,
) -> (res: Result<(Vec<i64>, Vec<i64>, Vec<i128>), PillarsError>)
    requires
        matching_array_left.wf(),
        differencing_array_left.wf(),
        matching_array_right.wf(),
        differencing_array_right.wf(),
    ensures
        (matching_array_left.same_shape(differencing_array_left) && matching_array_right.same_shape(
            differencing_array_right,
        ) && matching_array_left.same_grid(matching_array_right)) <==> res.is_ok(),
        res.is_err() ==> res == Err::<(Vec<i64>, Vec<i64>, Vec<i128>), PillarsError>(
            PillarsError::ShapeMismatch,
        ),
        res.is_ok() ==> ({
            let (lv, rv, dv) = res.unwrap();
            let recs = index_matches(*matching_array_left, *matching_array_right, tol_match, invalid);
            &&& lv@ == left_values(*matching_array_left, recs)
            &&& rv@ == right_values(*matching_array_right, recs)
            &&& dv@ == aux_differences(*differencing_array_left, *differencing_array_right, recs)
        }),
{
    let ml = matching_array_left;
    let dl = differencing_array_left;
    let mr = matching_array_right;
    let dr = differencing_array_right;
    if ml.rows() != dl.rows() || ml.cols() != dl.cols() || ml.chans() != dl.chans() || mr.rows()
        != dr.rows() || mr.cols() != dr.cols() || mr.chans() != dr.chans() {
        return Err(PillarsError::ShapeMismatch);
    }
    let found = pixel_wise_matching_with_tol_indexes(ml, mr, tol_match, invalid);
    let (xs, ys, ls, rs) = match found {
        Err(e) => {
            return Err(e);
        },
        Ok(cols) => cols,
    };
    let ghost recs = index_matches(*ml, *mr, tol_match, invalid);
    let mut lv: Vec<i64> = Vec::new();
    let mut rv: Vec<i64> = Vec::new();
    let mut dv: Vec<i128> = Vec::new();
    let n = xs.len();
    let mut t: usize = 0;
    while t < n
        invariant
            ml.wf(),
            dl.wf(),
            mr.wf(),
            dr.wf(),
            ml.same_shape(dl),
            mr.same_shape(dr),
            ml.same_grid(mr),
            recs == index_matches(*ml, *mr, tol_match, invalid),
            columns_hold(xs@, ys@, ls@, rs@, recs),
            n == recs.len(),
            t <= n,
            lv@.len() == t,
            rv@.len() == t,
            dv@.len() == t,
            forall|u: int| 0 <= u < t ==> lv@[u] == #[trigger] left_values(*ml, recs)[u],
            forall|u: int| 0 <= u < t ==> rv@[u] == #[trigger] right_values(*mr, recs)[u],
            forall|u: int| 0 <= u < t ==> dv@[u] == #[trigger] aux_differences(*dl, *dr, recs)[u],
        decreases n - t,
    {
        proof {
            assert(recs.contains(recs[t as int]));
            lemma_index_matches_members(*ml, *mr, tol_match, invalid, recs[t as int]);
        }
        let (x, y, i, j) = (xs[t], ys[t], ls[t], rs[t]);
        let a = ml.get(x, y, i);
        let b = mr.get(x, y, j);
        let da = dl.get(x, y, i);
        let db = dr.get(x, y, j);
        lv.push(a);
        rv.push(b);
        dv.push(da as i128 - db as i128);
        t = t + 1;
    }
    proof {
        assert(lv@ =~= left_values(*ml, recs));
        assert(rv@ =~= right_values(*mr, recs));
        assert(dv@ =~= aux_differences(*dl, *dr, recs));
    }
    Ok((lv, rv, dv))
}

} // verus!
