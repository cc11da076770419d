use vstd::prelude::*;

verus! {

/// Errors reported to the caller before any scan or ranking starts.
#[derive(Debug, Clone, Copy, PartialEq, Eq, Structural)]
pub enum PillarsError {
    /// Tensors, point sets or a buffer disagree in an extent that must match.
    ShapeMismatch,
    /// A requested count is not strictly below the size of the candidate pool.
    InvalidCount,
    /// A cost or a matrix side lies beyond what the assignment solver accepts.
    CostOutOfRange,
}

/// Dense 3-D measurement tensor with axes (row, col, channel), stored in
/// row-major order. A lane is the channel vector at one (row, col).
pub struct Tensor3 {
    rows: usize,
    cols: usize,
    chans: usize,
    data: Vec<i64>,
}

/// Offset of `(r, c, k)` stays inside a buffer of `rows * cols * chans` items.
pub proof fn lemma_offset_in_bounds(rows: int, cols: int, chans: int, r: int, c: int, k: int)
    requires
        0 <= r < rows,
        0 <= c < cols,
        0 <= k < chans,
    ensures
        0 <= r * cols <= r * cols + c < rows * cols,
        r * cols + c <= (r * cols + c) * chans <= (r * cols + c) * chans + k < rows * cols * chans,
{
    assert(0 <= r * cols) by (nonlinear_arith)
        requires 0 <= r, 0 <= cols;
    assert(r * cols + c < rows * cols) by (nonlinear_arith)
        requires 0 <= r < rows, 0 <= c < cols;
    let m = r * cols + c;
    assert(m <= m * chans) by (nonlinear_arith)
        requires 0 <= m, 1 <= chans;
    assert(m * chans + k < rows * cols * chans) by (nonlinear_arith)
        requires 0 <= m < rows * cols, 0 <= k < chans;
}

impl Tensor3 {
    pub closed spec fn spec_rows(&self) -> nat {
        self.rows as nat
    }

    pub closed spec fn spec_cols(&self) -> nat {
        self.cols as nat
    }

    pub closed spec fn spec_chans(&self) -> nat {
        self.chans as nat
    }

    /// The samples in row-major order.
    pub closed spec fn spec_data(&self) -> Seq<i64> {
        self.data@
    }

    /// The buffer holds exactly one sample per (row, col, channel).
    pub open spec fn wf(&self) -> bool {
        &&& self.spec_data().len() == self.spec_rows() * self.spec_cols() * self.spec_chans()
        &&& self.spec_rows() <= usize::MAX
        &&& self.spec_cols() <= usize::MAX
        &&& self.spec_chans() <= usize::MAX
    }

    pub open spec fn offset(&self, r: int, c: int, k: int) -> int {
        (r * self.spec_cols() + c) * self.spec_chans() + k
    }

    /// Sample at row `r`, column `c`, channel `k`.
    pub open spec fn at(&self, r: int, c: int, k: int) -> i64 {
        self.spec_data()[self.offset(r, c, k)]
    }

    /// Same (row, col) extents: the lanes of the two tensors line up.
    pub open spec fn same_grid(&self, o: &Tensor3) -> bool {
        self.spec_rows() == o.spec_rows() && self.spec_cols() == o.spec_cols()
    }

    /// Same extents on all three axes.
    pub open spec fn same_shape(&self, o: &Tensor3) -> bool {
        self.same_grid(o) && self.spec_chans() == o.spec_chans()
    }

    /// Builds a tensor from its extents and its samples in row-major order;
    /// fails when the buffer length is not `rows * cols * chans`.
    pub fn new(rows: usize, cols: usize, chans: usize, data: Vec<i64>) -> (r: Result<Tensor3, PillarsError>)
        ensures
            (data@.len() == rows * cols * chans) <==> r.is_ok(),
            r.is_err() ==> r == Err::<Tensor3, PillarsError>(PillarsError::ShapeMismatch),
            r.is_ok() ==> ({
                let t = r.unwrap();
                &&& t.wf()
                &&& t.spec_rows() == rows
                &&& t.spec_cols() == cols
                &&& t.spec_chans() == chans
                &&& t.spec_data() == data@
            }),
    {
        let len = data.len();
        match rows.checked_mul(cols) {
            None => {
                proof {
                    assert(rows * cols * chans >= rows * cols || chans == 0) by (nonlinear_arith)
                        requires rows >= 0, cols >= 0, chans >= 0;
                    if chans == 0 {
                        assert(rows * cols * chans == 0) by (nonlinear_arith)
                            requires chans == 0;
                    }
                }
                if chans == 0 && len == 0 {
                    Ok(Tensor3 { rows, cols, chans, data })
                } else {
                    Err(PillarsError::ShapeMismatch)
                }
            },
            Some(rc) => match rc.checked_mul(chans) {
                None => Err(PillarsError::ShapeMismatch),
                Some(n) => {
                    if n == len {
                        Ok(Tensor3 { rows, cols, chans, data })
                    } else {
                        Err(PillarsError::ShapeMismatch)
                    }
                },
            },
        }
    }

    pub fn rows(&self) -> (r: usize)
        ensures
            r == self.spec_rows(),
    {
        self.rows
    }

    pub fn cols(&self) -> (r: usize)
        ensures
            r == self.spec_cols(),
    {
        self.cols
    }

    pub fn chans(&self) -> (r: usize)
        ensures
            r == self.spec_chans(),
    {
        self.chans
    }

    /// Sample at row `r`, column `c`, channel `k`.
    pub fn get(&self, r: usize, c: usize, k: usize) -> (v: i64)
        requires
            self.wf(),
            r < self.spec_rows(),
            c < self.spec_cols(),
            k < self.spec_chans(),
        ensures
            v == self.at(r as int, c as int, k as int),
    {
        // Reading the length brings in that it fits in a usize.
        let _len = self.data.len();
        proof {
            lemma_offset_in_bounds(self.rows as int, self.cols as int, self.chans as int, r as int, c as int, k as int);
        }
        self.data[(r * self.cols + c) * self.chans + k]
    }
}

} // verus!
