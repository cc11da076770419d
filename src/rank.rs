use vstd::prelude::*;
use crate::pixel::{abs_diff, abs_diff_spec};
use crate::tensor::PillarsError;

verus! {

/// Index `a` comes before index `b` in the stable ascending order of `keys`:
/// a smaller key first, equal keys by lower index.
pub open spec fn ranks_before(keys: Seq<u64>, a: int, b: int) -> bool {
    keys[a] < keys[b] || (keys[a] == keys[b] && a < b)
}

/// The indices of `p` stand in strictly increasing stable order of `keys`.
pub open spec fn sorted_by_rank(keys: Seq<u64>, p: Seq<usize>) -> bool {
    forall|s: int, t: int|
        0 <= s < t < p.len() ==> #[trigger] ranks_before(keys, p[s] as int, p[t] as int)
}

/// `p` lists every index of `keys` once, in stable ascending order of the keys.
pub open spec fn is_argsort(keys: Seq<u64>, p: Seq<usize>) -> bool {
    &&& p.len() == keys.len()
    &&& forall|s: int| 0 <= s < p.len() ==> #[trigger] p[s] < keys.len()
    &&& sorted_by_rank(keys, p)
    &&& forall|j: int| 0 <= j < keys.len() ==> #[trigger] p.contains(j as usize)
}

proof fn lemma_insert_contains(p: Seq<usize>, pos: int, x: usize, y: usize)
    requires
        0 <= pos <= p.len(),
    ensures
        p.insert(pos, x).contains(y) <==> (p.contains(y) || y == x),
{
    let q = p.insert(pos, x);
    if p.contains(y) {
        let s = choose|s: int| 0 <= s < p.len() && p[s] == y;
        if s < pos {
            assert(q[s] == y);
        } else {
            assert(q[s + 1] == y);
        }
    }
    if y == x {
        assert(q[pos] == y);
    }
    if q.contains(y) {
        let s = choose|s: int| 0 <= s < q.len() && q[s] == y;
        if s < pos {
            assert(p[s] == y);
        } else if s > pos {
            assert(p[s - 1] == y);
        }
    }
}

/// Indices of `data` in stable ascending order of their values: smaller
/// values first, equal values in index order.
pub fn argsort(data: &Vec<u64>) -> (p: Vec<usize>)
    ensures
        is_argsort(data@, p@),
{
    let n = data.len();
    let mut p: Vec<usize> = Vec::new();
    let mut j: usize = 0;
    while j < n
        invariant
            n == data@.len(),
            j <= n,
            p@.len() == j,
            forall|s: int| 0 <= s < j ==> #[trigger] p@[s] < j,
            sorted_by_rank(data@, p@),
            forall|x: int| 0 <= x < j ==> #[trigger] p@.contains(x as usize),
        decreases n - j,
    {
        let kj = data[j];
        let mut pos: usize = 0;
        while pos < p.len() && data[p[pos]] <= kj
            invariant
                n == data@.len(),
                j < n,
                kj == data@[j as int],
                p@.len() == j,
                forall|s: int| 0 <= s < j ==> #[trigger] p@[s] < j,
                pos <= p@.len(),
                forall|s: int| 0 <= s < pos ==> data@[#[trigger] p@[s] as int] <= kj,
            decreases p@.len() - pos,
        {
            pos = pos + 1;
        }
        let ghost old_p = p@;
        proof {
            assert forall|s: int| pos <= s < old_p.len() implies kj < data@[#[trigger] old_p[s] as int] by {
                if s > pos {
                    assert(ranks_before(data@, old_p[pos as int] as int, old_p[s] as int));
                }
            }
        }
        p.insert(pos, j);
        proof {
            let q = p@;
            assert(q == old_p.insert(pos as int, j));
            assert forall|s: int| 0 <= s < j + 1 implies #[trigger] q[s] < j + 1 by {
                if s < pos {
                    assert(q[s] == old_p[s]);
                } else if s > pos {
                    assert(q[s] == old_p[s - 1]);
                }
            }
            assert forall|s: int, t: int| 0 <= s < t < q.len() implies #[trigger] ranks_before(
                data@,
                q[s] as int,
                q[t] as int,
            ) by {
                if t < pos {
                    assert(ranks_before(data@, old_p[s] as int, old_p[t] as int));
                } else if t == pos {
                    assert(q[s] == old_p[s]);
                    assert(data@[old_p[s] as int] <= kj);
                } else if s < pos {
                    assert(q[t] == old_p[t - 1]);
                    assert(ranks_before(data@, old_p[s] as int, old_p[t - 1] as int));
                } else if s == pos {
                    assert(q[t] == old_p[t - 1]);
                    assert(kj < data@[old_p[t - 1] as int]);
                } else {
                    assert(ranks_before(data@, old_p[s - 1] as int, old_p[t - 1] as int));
                }
            }
            assert forall|x: int| 0 <= x < j + 1 implies #[trigger] q.contains(x as usize) by {
                lemma_insert_contains(old_p, pos as int, j, x as usize);
            }
        }
        j = j + 1;
    }
    p
}

/// `r` holds, in stable ascending order of `keys`, indices of `keys` that
/// come before every index left out of `r`: the first `r.len()` of the order.
pub open spec fn is_closest_prefix(keys: Seq<u64>, r: Seq<usize>) -> bool {
    &&& forall|s: int| 0 <= s < r.len() ==> #[trigger] r[s] < keys.len()
    &&& sorted_by_rank(keys, r)
    &&& forall|j: int, s: int|
        0 <= j < keys.len() && !r.contains(j as usize) && 0 <= s < r.len() ==> #[trigger] ranks_before(
            keys,
            r[s] as int,
            j,
        )
}

proof fn lemma_argsort_prefix(keys: Seq<u64>, p: Seq<usize>, n: int)
    requires
        is_argsort(keys, p),
        keys.len() <= usize::MAX,
        0 <= n <= p.len(),
    ensures
        is_closest_prefix(keys, p.take(n)),
{
    let r = p.take(n);
    assert forall|s: int, t: int| 0 <= s < t < r.len() implies #[trigger] ranks_before(
        keys,
        r[s] as int,
        r[t] as int,
    ) by {
        assert(ranks_before(keys, p[s] as int, p[t] as int));
    }
    assert forall|j: int, s: int| 0 <= j < keys.len() && !r.contains(j as usize) && 0 <= s < r.len() implies #[trigger] ranks_before(
        keys,
        r[s] as int,
        j,
    ) by {
        assert(p.contains(j as usize));
        let q = choose|q: int| 0 <= q < p.len() && p[q] == j as usize;
        if q < n {
            assert(r[q] == j as usize);
        }
        assert(r[s] == p[s]);
        assert(ranks_before(keys, p[s] as int, p[q] as int));
    }
}

/// Nearest-neighbour ranking: the indices of the `n` smallest distances, in
/// ascending order, ties to the lower index. `n` must be strictly less than
/// the number of references.
pub fn closest_n(distances: &Vec<u64>, n: usize) -> (res: Result<Vec<usize>, PillarsError>)
    ensures
        (n < distances@.len()) <==> res.is_ok(),
        res.is_err() ==> res == Err::<Vec<usize>, PillarsError>(PillarsError::InvalidCount),
        res.is_ok() ==> res.unwrap()@.len() == n && is_closest_prefix(distances@, res.unwrap()@),
{
    if n >= distances.len() {
        return Err(PillarsError::InvalidCount);
    }
    let p = argsort(distances);
    let mut r: Vec<usize> = Vec::new();
    let mut s: usize = 0;
    while s < n
        invariant
            n < distances@.len(),
            is_argsort(distances@, p@),
            s <= n,
            r@ == p@.take(s as int),
        decreases n - s,
    {
        r.push(p[s]);
        s = s + 1;
        proof {
            assert(r@ =~= p@.take(s as int));
        }
    }
    proof {
        lemma_argsort_prefix(distances@, p@, n as int);
    }
    Ok(r)
}

/// Bulk form of the nearest-neighbour ranking: one row per query, in query
/// order. Every query must rank strictly more than `n` references.
pub fn closest_n_bulk(distances: &Vec<Vec<u64>>, n: usize) -> (res: Result<Vec<Vec<usize>>, PillarsError>)
    ensures
        (forall|q: int| 0 <= q < distances@.len() ==> n < #[trigger] distances@[q]@.len()) <==> res.is_ok(),
        res.is_err() ==> res == Err::<Vec<Vec<usize>>, PillarsError>(PillarsError::InvalidCount),
        res.is_ok() ==> ({
            let rows = res.unwrap();
            &&& rows@.len() == distances@.len()
            &&& forall|q: int|
                0 <= q < rows@.len() ==> #[trigger] rows@[q]@.len() == n && is_closest_prefix(
                    distances@[q]@,
                    rows@[q]@,
                )
        }),
{
    let mut q: usize = 0;
    while q < distances.len()
        invariant
            q <= distances@.len(),
            forall|u: int| 0 <= u < q ==> n < #[trigger] distances@[u]@.len(),
        decreases distances@.len() - q,
    {
        if n >= distances[q].len() {
            return Err(PillarsError::InvalidCount);
        }
        q = q + 1;
    }
    let mut rows: Vec<Vec<usize>> = Vec::new();
    let mut q: usize = 0;
    while q < distances.len()
        invariant
            q <= distances@.len(),
            forall|u: int| 0 <= u < distances@.len() ==> n < #[trigger] distances@[u]@.len(),
            rows@.len() == q,
            forall|u: int|
                0 <= u < q ==> #[trigger] rows@[u]@.len() == n && is_closest_prefix(
                    distances@[u]@,
                    rows@[u]@,
                ),
        decreases distances@.len() - q,
    {
        let row = closest_n(&distances[q], n);
        match row {
            Ok(row) => rows.push(row),
            Err(e) => {
                return Err(e);
            },
        }
        q = q + 1;
    }
    Ok(rows)
}

/// When reference 0 lies at the smallest distance of all (as a copy of the
/// query does) and `n` is one less than the number of references, the
/// ranking starts with reference 0.
pub proof fn lemma_copy_of_query_ranks_first(distances: Seq<u64>, r: Seq<usize>)
    requires
        distances.len() >= 2,
        r.len() == distances.len() - 1,
        is_closest_prefix(distances, r),
        forall|j: int| 0 <= j < distances.len() ==> distances[0] <= #[trigger] distances[j],
    ensures
        r[0] == 0,
{
    if r[0] != 0 {
        let x = r[0] as int;
        assert(distances[0] <= distances[x]);
        if r.contains(0usize) {
            let q = choose|q: int| 0 <= q < r.len() && r[q] == 0usize;
            assert(q != 0);
            assert(ranks_before(distances, r[0] as int, r[q] as int));
        } else {
            assert(ranks_before(distances, r[0] as int, 0));
        }
    }
}

/// Slot value that marks a rank with no candidate within tolerance.
pub const BAD_INDEX: i32 = -9999;

/// A distance beyond the tolerance ranks as unreachable.
pub open spec fn capped(d: u64, tol: u64) -> u64 {
    if d > tol { u64::MAX } else { d }
}

/// `row` is the top-`k` row for distances `d` under tolerance `tol`: the
/// indices within tolerance in stable ascending order of distance, as many as
/// fit in `k` slots, the remaining slots holding `BAD_INDEX`.
pub open spec fn is_topk_row(d: Seq<u64>, tol: u64, k: nat, row: Seq<i32>) -> bool {
    &&& row.len() == k
    &&& forall|s: int|
        0 <= s < k ==> #[trigger] row[s] == BAD_INDEX || (0 <= row[s] < d.len() && d[row[s] as int]
            <= tol)
    &&& forall|s: int, t: int|
        0 <= s < t < k && #[trigger] row[s] == BAD_INDEX ==> #[trigger] row[t] == BAD_INDEX
    &&& forall|s: int, t: int|
        0 <= s < t < k && #[trigger] row[t] != BAD_INDEX ==> ranks_before(
            d,
            #[trigger] row[s] as int,
            row[t] as int,
        )
    &&& forall|j: int|
        0 <= j < d.len() && #[trigger] d[j] <= tol ==> (row.contains(j as i32) || forall|s: int|
            0 <= s < k ==> #[trigger] row[s] != BAD_INDEX && ranks_before(d, row[s] as int, j))
}

/// One row of the top-K tolerance matcher: given the distance from one left
/// element to every right element, the indices of the `topk` nearest right
/// elements within `tolerance`, nearest first, ties to the lower index, and
/// `BAD_INDEX` in each slot that no such element fills. `topk` must be
/// strictly less than the number of right elements.
pub fn topk_within_tolerance(dist: &Vec<u64>, tolerance: u64, topk: usize) -> (res: Result<
    Vec<i32>,
    PillarsError,
>)
    requires
        dist@.len() <= i32::MAX,
    ensures
        (topk < dist@.len()) <==> res.is_ok(),
        res.is_err() ==> res == Err::<Vec<i32>, PillarsError>(PillarsError::InvalidCount),
        res.is_ok() ==> is_topk_row(dist@, tolerance, topk as nat, res.unwrap()@),
{
    let n = dist.len();
    if topk >= n {
        return Err(PillarsError::InvalidCount);
    }
    let mut keys: Vec<u64> = Vec::new();
    let mut j: usize = 0;
    while j < n
        invariant
            n == dist@.len(),
            j <= n,
            keys@.len() == j,
            forall|u: int| 0 <= u < j ==> #[trigger] keys@[u] == capped(dist@[u], tolerance),
        decreases n - j,
    {
        if dist[j] > tolerance {
            keys.push(u64::MAX);
        } else {
            keys.push(dist[j]);
        }
        j = j + 1;
    }
    let p = argsort(&keys);
    let mut row: Vec<i32> = Vec::new();
    let mut s: usize = 0;
    while s < topk
        invariant
            n == dist@.len(),
            n <= i32::MAX,
            topk < n,
            keys@.len() == n,
            forall|u: int| 0 <= u < n ==> #[trigger] keys@[u] == capped(dist@[u], tolerance),
            is_argsort(keys@, p@),
            s <= topk,
            row@.len() == s,
            forall|u: int|
                0 <= u < s ==> #[trigger] row@[u] == if keys@[p@[u] as int] > tolerance {
                    BAD_INDEX
                } else {
                    p@[u] as i32
                },
        decreases topk - s,
    {
        let i = p[s];
        if keys[i] > tolerance {
            row.push(BAD_INDEX);
        } else {
            row.push(i as i32);
        }
        s = s + 1;
    }
    proof {
        let d = dist@;
        let ks = keys@;
        let pp = p@;
        let rw = row@;
        let k = topk as int;
        assert forall|u: int| 0 <= u < n implies (#[trigger] ks[u] > tolerance <==> d[u] > tolerance)
            && (d[u] <= tolerance ==> ks[u] == d[u]) by {
            assert(ks[u] == capped(d[u], tolerance));
        }
        assert forall|s: int| 0 <= s < k implies #[trigger] rw[s] == BAD_INDEX || (0 <= rw[s] < d.len()
            && d[rw[s] as int] <= tolerance) by {
            assert(pp[s] < n);
        }
        assert forall|s: int, t: int| 0 <= s < t < k && #[trigger] rw[s] == BAD_INDEX implies #[trigger] rw[t]
            == BAD_INDEX by {
            assert(pp[s] < n && pp[t] < n);
            assert(ranks_before(ks, pp[s] as int, pp[t] as int));
        }
        assert forall|s: int, t: int| 0 <= s < t < k && #[trigger] rw[t] != BAD_INDEX implies ranks_before(
            d,
            #[trigger] rw[s] as int,
            rw[t] as int,
        ) by {
            assert(pp[s] < n && pp[t] < n);
            assert(ranks_before(ks, pp[s] as int, pp[t] as int));
        }
        assert forall|j: int| 0 <= j < d.len() && #[trigger] d[j] <= tolerance implies (rw.contains(
            j as i32,
        ) || forall|s: int| 0 <= s < k ==> #[trigger] rw[s] != BAD_INDEX && ranks_before(d, rw[s] as int, j)) by {
            assert(pp.contains(j as usize));
            let q = choose|q: int| 0 <= q < pp.len() && pp[q] == j as usize;
            if q < k {
                assert(rw[q] == j as i32);
            } else {
                assert forall|s: int| 0 <= s < k implies #[trigger] rw[s] != BAD_INDEX && ranks_before(
                    d,
                    rw[s] as int,
                    j,
                ) by {
                    assert(pp[s] < n);
                    assert(ranks_before(ks, pp[s] as int, pp[q] as int));
                }
            }
        }
    }
    Ok(row)
}

/// Distance from `v` to each element of `right`.
pub open spec fn distances_to(right: Seq<i64>, v: i64) -> Seq<u64> {
    right.map_values(|x: i64| abs_diff_spec(x, v) as u64)
}

/// Top-K tolerance matcher over integer samples: for each left element, the
/// top-`topk` row over its distances to the right elements. `topk` must be
/// strictly less than the number of right elements.
pub fn find_topk_with_tolerance(left: &Vec<i64>, right: &Vec<i64>, tolerance: u64, topk: usize) -> (res:
    Result<Vec<Vec<i32>>, PillarsError>)
    requires
        right@.len() <= i32::MAX,
    ensures
        (topk < right@.len()) <==> res.is_ok(),
        res.is_err() ==> res == Err::<Vec<Vec<i32>>, PillarsError>(PillarsError::InvalidCount),
        res.is_ok() ==> ({
            let rows = res.unwrap();
            &&& rows@.len() == left@.len()
            &&& forall|i: int|
                0 <= i < rows@.len() ==> is_topk_row(
                    distances_to(right@, left@[i]),
                    tolerance,
                    topk as nat,
                    #[trigger] rows@[i]@,
                )
        }),
{
    if topk >= right.len() {
        return Err(PillarsError::InvalidCount);
    }
    let mut rows: Vec<Vec<i32>> = Vec::new();
    let mut i: usize = 0;
    while i < left.len()
        invariant
            right@.len() <= i32::MAX,
            topk < right@.len(),
            i <= left@.len(),
            rows@.len() == i,
            forall|u: int|
                0 <= u < i ==> is_topk_row(
                    distances_to(right@, left@[u]),
                    tolerance,
                    topk as nat,
                    #[trigger] rows@[u]@,
                ),
        decreases left@.len() - i,
    {
        let v = left[i];
        let mut dist: Vec<u64> = Vec::new();
        let mut j: usize = 0;
        while j < right.len()
            invariant
                v == left@[i as int],
                j <= right@.len(),
                dist@.len() == j,
                forall|u: int| 0 <= u < j ==> #[trigger] dist@[u] == abs_diff_spec(right@[u], v) as u64,
            decreases right@.len() - j,
        {
            dist.push(abs_diff(right[j], v));
            j = j + 1;
        }
        proof {
            assert(dist@ =~= distances_to(right@, v));
        }
        match topk_within_tolerance(&dist, tolerance, topk) {
            Ok(row) => rows.push(row),
            Err(e) => {
                return Err(e);
            },
        }
        i = i + 1;
    }
    Ok(rows)
}

/// Indices of `d` within tolerance.
pub open spec fn candidates(d: Seq<u64>, tol: u64) -> Set<int> {
    Set::new(|j: int| 0 <= j < d.len() && d[j] <= tol)
}

/// In a top-K row, when fewer than `k` elements lie within tolerance, every
/// slot from their count on holds `BAD_INDEX`; the filled slots stand in
/// ascending order of distance.
pub proof fn lemma_unmet_slots_hold_sentinel(d: Seq<u64>, tol: u64, k: nat, row: Seq<i32>, s: int)
    requires
        is_topk_row(d, tol, k, row),
        0 <= s < k,
    ensures
        s >= candidates(d, tol).len() ==> row[s] == BAD_INDEX,
        forall|t: int|
            0 <= t < s && row[s] != BAD_INDEX ==> d[#[trigger] row[t] as int] <= d[row[s] as int],
{
    if row[s] != BAD_INDEX {
        let filled = row.take(s + 1).map_values(|v: i32| v as int);
        assert forall|a: int, b: int| 0 <= a < b < filled.len() implies filled[a] != filled[b] by {
            assert(ranks_before(d, row[a] as int, row[b] as int));
        }
        assert(filled.no_duplicates());
        filled.unique_seq_to_set();
        vstd::set_lib::lemma_int_range(0, d.len() as int);
        let cands = candidates(d, tol);
        assert(cands.subset_of(vstd::set_lib::set_int_range(0, d.len() as int)));
        vstd::set_lib::lemma_len_subset(cands, vstd::set_lib::set_int_range(0, d.len() as int));
        assert forall|x: int| filled.to_set().contains(x) implies cands.contains(x) by {
            let a = choose|a: int| 0 <= a < filled.len() && filled[a] == x;
            if row[a] == BAD_INDEX {
                assert(row[s] == BAD_INDEX);
            }
        }
        vstd::set_lib::lemma_len_subset(filled.to_set(), cands);
        assert forall|t: int| 0 <= t < s implies d[#[trigger] row[t] as int] <= d[row[s] as int] by {
            assert(ranks_before(d, row[t] as int, row[s] as int));
        }
    }
}

} // verus!
