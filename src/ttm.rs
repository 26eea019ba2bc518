//! Tensor-times-matrix multiplication.
//!
//! The tensor `A` must be sorted with the common axis as the least significant
//! key, so that the blocks that agree on every other sparse axis form fibers.
//! Fiber `f` gives output block `f`: for each value position `p` of the input
//! blocks and each column `c` of the matrix, the entry `p * r + c` sums
//! `A[m][p] * B[row(m)][c]` over the blocks `m` of the fiber, in order, with
//! wrapping arithmetic.
use crate::axis::{
    copy_axes, copy_axes_except, copy_axes_substituted, copy_axes_without, drop_axis, has_axis,
    is_first_position, lemma_first_position_unique, position_of, substitute_axis, AxisModel,
};
use crate::fiber::{fiber_offsets, group_fibers, lemma_fiber_offsets, remove_at, rows_have_len};
use crate::tensor::{block_size_of, blocks_view, row_in_range, rows_view, COOTensor};
use vstd::arithmetic::div_mod::lemma_fundamental_div_mod_converse;
use rayon::iter::{IndexedParallelIterator, IntoParallelIterator, ParallelIterator};
use vstd::prelude::*;

verus! {

/// What block `m` adds to entry `j` of its fiber's output block, where the matrix
/// `b` has `r` columns and its rows start at index `lower` of the common axis.
pub open spec fn contribution(
    rows: Seq<Seq<usize>>,
    blocks: Seq<Seq<i64>>,
    k: int,
    lower: int,
    b: Seq<i64>,
    r: int,
    m: int,
    j: int,
) -> i64 {
    blocks[m][j / r].wrapping_mul(b[(rows[m][k] - lower) * r + j % r])
}

/// Entry `j` of the output block of the fiber made of blocks `lo..hi`.
pub open spec fn fiber_sum(
    rows: Seq<Seq<usize>>,
    blocks: Seq<Seq<i64>>,
    k: int,
    lower: int,
    b: Seq<i64>,
    r: int,
    lo: int,
    hi: int,
    j: int,
) -> i64
    decreases hi - lo,
{
    if hi <= lo {
        0
    } else {
        fiber_sum(rows, blocks, k, lower, b, r, lo, hi - 1, j).wrapping_add(
            contribution(rows, blocks, k, lower, b, r, hi - 1, j),
        )
    }
}

/// What a call of the kernel on blocks `lo..hi` needs of its inputs.
pub open spec fn kernel_inputs(
    rows: Seq<Seq<usize>>,
    blocks: Seq<Seq<i64>>,
    k: int,
    lower: int,
    b: Seq<i64>,
    d: int,
    r: int,
    p_len: int,
    lo: int,
    hi: int,
) -> bool {
    &&& 0 <= lo <= hi <= rows.len()
    &&& blocks.len() == rows.len()
    &&& p_len * r <= usize::MAX
    &&& b.len() == d * r
    &&& forall|m: int|
        lo <= m < hi ==> k < (#[trigger] rows[m]).len() && lower <= rows[m][k] < lower + d
    &&& forall|m: int| lo <= m < hi ==> (#[trigger] blocks[m]).len() == p_len
}

proof fn lemma_flat_index(p: int, c: int, n: int, r: int)
    requires
        0 <= p < n,
        0 <= c < r,
    ensures
        p * r + c < n * r,
        p * r + r == (p + 1) * r,
        (p + 1) * r <= n * r,
        0 <= p * r,
{
    assert((p + 1) * r <= n * r) by (nonlinear_arith)
        requires
            0 <= p < n,
            0 <= c < r,
    ;
    assert(p * r + c < n * r) by (nonlinear_arith)
        requires
            0 <= p < n,
            0 <= c < r,
    ;
    assert(p * r + r == (p + 1) * r) by (nonlinear_arith);
    assert(0 <= p * r) by (nonlinear_arith)
        requires
            0 <= p,
            0 <= c < r,
    ;
}

/// The output block of the fiber made of blocks `lo..hi`: `p_len * r` entries.
pub fn fiber_block(
    indices: &Vec<Vec<usize>>,
    values: &Vec<Vec<i64>>,
    k: usize,
    lower: usize,
    b: &Vec<i64>,
    d: usize,
    r: usize,
    p_len: usize,
    lo: usize,
    hi: usize,
) -> (out: Vec<i64>)
    requires
        kernel_inputs(
            rows_view(indices@),
            blocks_view(values@),
            k as int,
            lower as int,
            b@,
            d as int,
            r as int,
            p_len as int,
            lo as int,
            hi as int,
        ),
    ensures
        out@.len() == p_len * r,
        forall|j: int|
            0 <= j < p_len * r ==> #[trigger] out@[j] == fiber_sum(
                rows_view(indices@),
                blocks_view(values@),
                k as int,
                lower as int,
                b@,
                r as int,
                lo as int,
                hi as int,
                j,
            ),
{
    let ghost rows = rows_view(indices@);
    let ghost blocks = blocks_view(values@);
    let b_len = b.len();
    let n = p_len * r;
    let mut out: Vec<i64> = Vec::new();
    let mut z: usize = 0;
    while z < n
        invariant
            z <= n,
            out@.len() == z,
            forall|j: int| 0 <= j < z ==> #[trigger] out@[j] == 0,
        decreases n - z,
    {
        out.push(0);
        z = z + 1;
    }
    let mut m: usize = lo;
    while m < hi
        invariant
            kernel_inputs(
                rows,
                blocks,
                k as int,
                lower as int,
                b@,
                d as int,
                r as int,
                p_len as int,
                lo as int,
                hi as int,
            ),
            rows == rows_view(indices@),
            blocks == blocks_view(values@),
            n == p_len * r,
            b_len == b@.len(),
            lo <= m <= hi,
            out@.len() == n,
            forall|j: int|
                0 <= j < n ==> #[trigger] out@[j] == fiber_sum(
                    rows,
                    blocks,
                    k as int,
                    lower as int,
                    b@,
                    r as int,
                    lo as int,
                    m as int,
                    j,
                ),
        decreases hi - m,
    {
        assert(rows[m as int] == indices@[m as int]@);
        assert(blocks[m as int] == values@[m as int]@);
        let x = indices[m][k] - lower;
        proof {
            if r > 0 {
                lemma_flat_index(x as int, 0, d as int, r as int);
            } else {
                assert(x * r == 0) by (nonlinear_arith)
                    requires
                        r == 0,
                ;
            }
        }
        let xb = x * r;
        let blk = &values[m];
        let mut p: usize = 0;
        while p < p_len
            invariant
                kernel_inputs(
                    rows,
                    blocks,
                    k as int,
                    lower as int,
                    b@,
                    d as int,
                    r as int,
                    p_len as int,
                    lo as int,
                    hi as int,
                ),
                rows == rows_view(indices@),
                blocks == blocks_view(values@),
                n == p_len * r,
                b_len == b@.len(),
                lo <= m < hi,
                x == rows[m as int][k as int] - lower,
                x < d,
                xb == x * r,
                blk@ == blocks[m as int],
                p <= p_len,
                out@.len() == n,
                forall|j: int|
                    0 <= j < n ==> #[trigger] out@[j] == if j < p * r {
                        fiber_sum(
                            rows,
                            blocks,
                            k as int,
                            lower as int,
                            b@,
                            r as int,
                            lo as int,
                            m + 1,
                            j,
                        )
                    } else {
                        fiber_sum(
                            rows,
                            blocks,
                            k as int,
                            lower as int,
                            b@,
                            r as int,
                            lo as int,
                            m as int,
                            j,
                        )
                    },
            decreases p_len - p,
        {
            let a = blk[p];
            proof {
                if r > 0 {
                    lemma_flat_index(p as int, 0, p_len as int, r as int);
                } else {
                    assert(p * r == 0 && (p + 1) * r == 0) by (nonlinear_arith)
                        requires
                            r == 0,
                    ;
                }
            }
            let base = p * r;
            let mut c: usize = 0;
            while c < r
                invariant
                    kernel_inputs(
                        rows,
                        blocks,
                        k as int,
                        lower as int,
                        b@,
                        d as int,
                        r as int,
                        p_len as int,
                        lo as int,
                        hi as int,
                    ),
                    rows == rows_view(indices@),
                    blocks == blocks_view(values@),
                    n == p_len * r,
                    b_len == b@.len(),
                    lo <= m < hi,
                    x == rows[m as int][k as int] - lower,
                    x < d,
                    xb == x * r,
                    blk@ == blocks[m as int],
                    p < p_len,
                    a == blk@[p as int],
                    base == p * r,
                    base + r == (p + 1) * r,
                    base + r <= n,
                    c <= r,
                    out@.len() == n,
                    forall|j: int|
                        0 <= j < n ==> #[trigger] out@[j] == if j < base + c {
                            fiber_sum(
                                rows,
                                blocks,
                                k as int,
                                lower as int,
                                b@,
                                r as int,
                                lo as int,
                                m + 1,
                                j,
                            )
                        } else {
                            fiber_sum(
                                rows,
                                blocks,
                                k as int,
                                lower as int,
                                b@,
                                r as int,
                                lo as int,
                                m as int,
                                j,
                            )
                        },
                decreases r - c,
            {
                let j = base + c;
                proof {
                    lemma_fundamental_div_mod_converse(j as int, r as int, p as int, c as int);
                    lemma_flat_index(x as int, c as int, d as int, r as int);
                }
                let v = out[j].wrapping_add(a.wrapping_mul(b[xb + c]));
                out.set(j, v);
                c = c + 1;
            }
            p = p + 1;
        }
        m = m + 1;
    }
    out
}

/// The output block of fiber `f`, whose blocks are `offsets[f]..offsets[f + 1]`.
pub fn fiber_block_at(
    indices: &Vec<Vec<usize>>,
    values: &Vec<Vec<i64>>,
    k: usize,
    lower: usize,
    b: &Vec<i64>,
    d: usize,
    r: usize,
    p_len: usize,
    offsets: &Vec<usize>,
    f: usize,
) -> (out: Vec<i64>)
    requires
        f + 1 < offsets@.len(),
        offsets@[f as int] <= offsets@[f + 1],
        kernel_inputs(
            rows_view(indices@),
            blocks_view(values@),
            k as int,
            lower as int,
            b@,
            d as int,
            r as int,
            p_len as int,
            offsets@[f as int] as int,
            offsets@[f + 1] as int,
        ),
    ensures
        out@ == Seq::new(
            (p_len * r) as nat,
            |j: int|
                fiber_sum(
                    rows_view(indices@),
                    blocks_view(values@),
                    k as int,
                    lower as int,
                    b@,
                    r as int,
                    offsets@[f as int] as int,
                    offsets@[f + 1] as int,
                    j,
                ),
        ),
{
    let _ = offsets.len();
    let out = fiber_block(indices, values, k, lower, b, d, r, p_len, offsets[f], offsets[f + 1]);
    assert(out@ =~= Seq::new(
        (p_len * r) as nat,
        |j: int|
            fiber_sum(
                rows_view(indices@),
                blocks_view(values@),
                k as int,
                lower as int,
                b@,
                r as int,
                offsets@[f as int] as int,
                offsets@[f + 1] as int,
                j,
            ),
    ));
    out
}

/// Smallest number of fibers handed to one parallel task.
pub const MIN_FIBERS_PER_TASK: usize = 256;

/// Why a multiplication was refused.
#[derive(Clone, Copy, Debug, PartialEq, Eq, Structural)]
pub enum TtmError {
    /// The tensor has dense axes where only sparse ones are allowed.
    TensorNotFullySparse,
    /// The matrix does not have exactly two axes.
    MatrixNotTwoAxes,
    /// The matrix is not one dense block over its two axes.
    MatrixNotDense,
    /// The first axis of the matrix is not among the sparse axes of the tensor.
    CommonAxisNotFound,
    /// The second axis of the matrix is among the sparse axes of the tensor too.
    MultipleCommonAxes,
    /// The rows of the tensor are not known to be sorted.
    TensorNotSorted,
    /// The sort key of the tensor does not end with the common axis.
    NotSortedAlongCommonAxis,
    /// The common axis has another range in the tensor than in the matrix.
    CommonAxisRangeMismatch,
    /// An output block would hold more values than `usize` counts.
    ResultTooLarge,
}

/// The column of the common axis among the sparse axes of `a`.
pub open spec fn common_column(a: COOTensor, b: COOTensor) -> int {
    choose|i: int| is_first_position(a.sparse_view(), b.dense_view()[0].id, i)
}

/// The error a multiplication of `a` by `b` returns, if any; `fully_sparse` asks
/// that `a` have no dense axes.
pub open spec fn ttm_error(a: COOTensor, b: COOTensor, fully_sparse: bool) -> Option<TtmError> {
    if fully_sparse && a.dense_axes@.len() != 0 {
        Some(TtmError::TensorNotFullySparse)
    } else if b.shape@.len() != 2 {
        Some(TtmError::MatrixNotTwoAxes)
    } else if b.sparse_axes@.len() != 0 || b.indices@.len() != 1 {
        Some(TtmError::MatrixNotDense)
    } else if !has_axis(a.sparse_view(), b.dense_view()[0].id) {
        Some(TtmError::CommonAxisNotFound)
    } else if has_axis(a.sparse_view(), b.dense_view()[1].id) {
        Some(TtmError::MultipleCommonAxes)
    } else if !a.sparse_is_sorted {
        Some(TtmError::TensorNotSorted)
    } else if a.sparse_sort_order@.len() == 0 || a.order_view().last().id != b.dense_view()[0].id {
        Some(TtmError::NotSortedAlongCommonAxis)
    } else if a.sparse_view()[common_column(a, b)].lower != b.dense_view()[0].lower
        || a.sparse_view()[common_column(a, b)].upper != b.dense_view()[0].upper {
        Some(TtmError::CommonAxisRangeMismatch)
    } else if a.block_len() * b.dense_view()[1].size() > usize::MAX {
        Some(TtmError::ResultTooLarge)
    } else {
        None
    }
}

/// Whether `out` is the product of `a` and `b`.
///
/// Its shape is that of `a` with the common axis replaced by the free axis of `b`;
/// the common axis leaves the sparse axes and the sort key; the free axis is added
/// as the last dense axis. Output row `f` is the row that opens fiber `f` without
/// the common column, and output block `f` is the fiber's sum.
pub open spec fn ttm_result(a: COOTensor, b: COOTensor, out: COOTensor) -> bool {
    let k = common_column(a, b);
    let common = b.dense_view()[0];
    let free = b.dense_view()[1];
    let r = free.size() as int;
    let rows = a.rows();
    let o = fiber_offsets(rows, k);
    &&& out.wf()
    &&& out.name.is_none()
    &&& out.shape_view() == substitute_axis(a.shape_view(), common.id, free)
    &&& out.sparse_view() == a.sparse_view().remove(k)
    &&& out.dense_view() == a.dense_view().push(free)
    &&& out.order_view() == drop_axis(a.order_view(), common.id)
    &&& out.sparse_is_sorted
    &&& out.rows().len() == o.len() - 1
    &&& forall|f: int|
        0 <= f < o.len() - 1 ==> #[trigger] out.rows()[f] == remove_at(rows[o[f]], k)
    &&& forall|f: int|
        0 <= f < o.len() - 1 ==> #[trigger] out.blocks()[f] == Seq::new(
            (a.block_len() * r) as nat,
            |j: int|
                fiber_sum(rows, a.blocks(), k, common.lower as int, b.blocks()[0], r, o[f], o[f + 1], j),
        )
}

/// A row with its common column removed lies in the remaining axes.
proof fn lemma_remove_in_range(row: Seq<usize>, axes: Seq<AxisModel>, k: int)
    requires
        row_in_range(row, axes),
        0 <= k < axes.len(),
    ensures
        row_in_range(remove_at(row, k), axes.remove(k)),
{
    let rr = remove_at(row, k);
    let ar = axes.remove(k);
    assert forall|c: int| 0 <= c < rr.len() implies #[trigger] ar[c].contains(rr[c]) by {
        if c < k {
            assert(rr[c] == row[c] && ar[c] == axes[c]);
            assert(axes[c].contains(row[c]));
        } else {
            assert(rr[c] == row[c + 1] && ar[c] == axes[c + 1]);
            assert(axes[c + 1].contains(row[c + 1]));
        }
    }
}

/// The output blocks of fibers `0..n`, computed in parallel.
///
/// Relies on rayon: `into_par_iter` on `0..n` with `map` calls `fiber_block_at` once
/// for each fiber, and `collect_into_vec` stores the result of fiber `f` at index `f`.
#[verifier::external_body]
fn par_fiber_blocks(
    indices: &Vec<Vec<usize>>,
    values: &Vec<Vec<i64>>,
    k: usize,
    lower: usize,
    b: &Vec<i64>,
    d: usize,
    r: usize,
    p_len: usize,
    offsets: &Vec<usize>,
    n: usize,
    min_len: usize,
) -> (out: Vec<Vec<i64>>)
    requires
        n + 1 == offsets@.len(),
        forall|f: int|
            0 <= f < n ==> offsets@[f] <= #[trigger] offsets@[f + 1] && kernel_inputs(
                rows_view(indices@),
                blocks_view(values@),
                k as int,
                lower as int,
                b@,
                d as int,
                r as int,
                p_len as int,
                offsets@[f] as int,
                offsets@[f + 1] as int,
            ),
    ensures
        out@.len() == n,
        forall|f: int|
            0 <= f < n ==> (#[trigger] out@[f])@ == Seq::new(
                (p_len * r) as nat,
                |j: int|
                    fiber_sum(
                        rows_view(indices@),
                        blocks_view(values@),
                        k as int,
                        lower as int,
                        b@,
                        r as int,
                        offsets@[f] as int,
                        offsets@[f + 1] as int,
                        j,
                    ),
            ),
{
    let mut out = Vec::new();
    (0..n).into_par_iter().with_min_len(min_len).map(
        |f| fiber_block_at(indices, values, k, lower, b, d, r, p_len, offsets, f),
    ).collect_into_vec(&mut out);
    out
}

/// Multiplies `a` by the matrix `b` along their common axis; `fully_sparse` asks
/// that `a` have no dense axes, and `multi_thread` spreads the fibers over threads.
pub fn multiply(a: &COOTensor, b: &COOTensor, fully_sparse: bool, multi_thread: bool) -> (res: Result<
    COOTensor,
    TtmError,
>)
    requires
        a.wf(),
        b.wf(),
    ensures
        match res {
            Ok(out) => ttm_error(*a, *b, fully_sparse).is_none() && ttm_result(*a, *b, out),
            Err(e) => ttm_error(*a, *b, fully_sparse) == Some(e),
        },
{
    if fully_sparse && a.dense_axes.len() != 0 {
        return Err(TtmError::TensorNotFullySparse);
    }
    if b.shape.len() != 2 {
        return Err(TtmError::MatrixNotTwoAxes);
    }
    if b.sparse_axes.len() != 0 || b.indices.len() != 1 {
        return Err(TtmError::MatrixNotDense);
    }
    let common = &b.dense_axes[0];
    let free = &b.dense_axes[1];
    let k = match position_of(a.sparse_axes.as_slice(), common) {
        Some(k) => k,
        None => {
            return Err(TtmError::CommonAxisNotFound);
        },
    };
    proof {
        assert(is_first_position(a.sparse_view(), b.dense_view()[0].id, k as int));
        lemma_first_position_unique(
            a.sparse_view(),
            b.dense_view()[0].id,
            common_column(*a, *b),
            k as int,
        );
    }
    if position_of(a.sparse_axes.as_slice(), free).is_some() {
        return Err(TtmError::MultipleCommonAxes);
    }
    if !a.sparse_is_sorted {
        return Err(TtmError::TensorNotSorted);
    }
    let order_len = a.sparse_sort_order.len();
    if order_len == 0 || !a.sparse_sort_order[order_len - 1].same_as(common) {
        return Err(TtmError::NotSortedAlongCommonAxis);
    }
    if a.sparse_axes[k].lower != common.lower || a.sparse_axes[k].upper != common.upper {
        return Err(TtmError::CommonAxisRangeMismatch);
    }
    let p_len = a.block_size();
    let r = free.size();
    let n = match p_len.checked_mul(r) {
        Some(n) => n,
        None => {
            return Err(TtmError::ResultTooLarge);
        },
    };
    let ghost rows = a.rows();
    let ghost blocks = a.blocks();
    let s = a.sparse_axes.len();
    proof {
        assert(rows_have_len(rows_view(a.indices@), s as nat)) by {
            assert forall|m: int| 0 <= m < rows.len() implies (#[trigger] rows[m]).len() == s by {
                assert(rows[m] == a.indices@[m]@);
                assert(row_in_range(a.indices@[m]@, a.sparse_view()));
            }
        }
    }
    let (out_rows, offsets) = group_fibers(&a.indices, s, k);
    proof {
        lemma_fiber_offsets(rows, k as int);
    }
    let d = common.size();
    let lower = common.lower;
    let bm = &b.values[0];
    let nf = out_rows.len();
    proof {
        let bd = b.dense_view();
        assert(bd.drop_last().drop_last() =~= Seq::<AxisModel>::empty());
        assert(block_size_of(bd.drop_last()) == block_size_of(bd.drop_last().drop_last()) * bd[0].size());
        assert(b.blocks()[0] == bm@);
        assert(bm@.len() == d * r);
        let o = fiber_offsets(rows, k as int);
        assert forall|f: int|
            0 <= f < nf implies offsets@[f] <= #[trigger] offsets@[f + 1] && kernel_inputs(
                rows_view(a.indices@),
                blocks_view(a.values@),
                k as int,
                lower as int,
                bm@,
                d as int,
                r as int,
                p_len as int,
                offsets@[f] as int,
                offsets@[f + 1] as int,
            ) by {
            assert(o[f] < o[f + 1]);
            assert forall|m: int| offsets@[f] <= m < offsets@[f + 1] implies k < (
            #[trigger] rows[m]).len() && lower <= rows[m][k as int] < lower + d by {
                assert(rows[m] == a.indices@[m]@);
                assert(row_in_range(a.indices@[m]@, a.sparse_view()));
                assert(a.sparse_view()[k as int].contains(rows[m][k as int]));
            }
            assert forall|m: int| offsets@[f] <= m < offsets@[f + 1] implies (
            #[trigger] blocks[m]).len() == p_len by {
                assert(blocks[m] == a.values@[m]@);
            }
        }
    }
    let out_values = if multi_thread {
        par_fiber_blocks(
            &a.indices,
            &a.values,
            k,
            lower,
            bm,
            d,
            r,
            p_len,
            &offsets,
            nf,
            MIN_FIBERS_PER_TASK,
        )
    } else {
        let mut vals: Vec<Vec<i64>> = Vec::new();
        let mut f: usize = 0;
        while f < nf
            invariant
                f <= nf,
                nf + 1 == offsets@.len(),
                vals@.len() == f,
                forall|g: int|
                    0 <= g < nf ==> offsets@[g] <= #[trigger] offsets@[g + 1] && kernel_inputs(
                        rows_view(a.indices@),
                        blocks_view(a.values@),
                        k as int,
                        lower as int,
                        bm@,
                        d as int,
                        r as int,
                        p_len as int,
                        offsets@[g] as int,
                        offsets@[g + 1] as int,
                    ),
                forall|g: int|
                    0 <= g < f ==> (#[trigger] vals@[g])@ == Seq::new(
                        (p_len * r) as nat,
                        |j: int|
                            fiber_sum(
                                rows_view(a.indices@),
                                blocks_view(a.values@),
                                k as int,
                                lower as int,
                                bm@,
                                r as int,
                                offsets@[g] as int,
                                offsets@[g + 1] as int,
                                j,
                            ),
                    ),
            decreases nf - f,
        {
            vals.push(fiber_block_at(&a.indices, &a.values, k, lower, bm, d, r, p_len, &offsets, f));
            f = f + 1;
        }
        vals
    };
    let shape = copy_axes_substituted(a.shape.as_slice(), common, free);
    let sparse_axes = copy_axes_except(a.sparse_axes.as_slice(), k);
    let mut dense_axes = copy_axes(a.dense_axes.as_slice());
    dense_axes.push(free.duplicate());
    let order = copy_axes_without(a.sparse_sort_order.as_slice(), common);
    let out = COOTensor {
        name: None,
        shape,
        sparse_axes,
        dense_axes,
        indices: out_rows,
        values: out_values,
        sparse_is_sorted: true,
        sparse_sort_order: order,
    };
    proof {
        let o = fiber_offsets(rows, k as int);
        assert(out.dense_view() =~= a.dense_view().push(b.dense_view()[1]));
        assert(out.dense_view().drop_last() =~= a.dense_view());
        assert forall|f: int| 0 <= f < out.indices@.len() implies row_in_range(
            #[trigger] out.indices@[f]@,
            out.sparse_view(),
        ) by {
            assert(rows[o[f]] == a.indices@[o[f]]@);
            assert(row_in_range(a.indices@[o[f]]@, a.sparse_view()));
            lemma_remove_in_range(rows[o[f]], a.sparse_view(), k as int);
        }
        assert forall|f: int| 0 <= f < o.len() - 1 implies #[trigger] out.rows()[f] == remove_at(
            rows[o[f]],
            k as int,
        ) by {
            assert(out.rows()[f] == out.indices@[f]@);
        }
        assert forall|f: int| 0 <= f < o.len() - 1 implies #[trigger] out.blocks()[f] == Seq::new(
            (a.block_len() * r) as nat,
            |j: int|
                fiber_sum(rows, a.blocks(), k as int, lower as int, b.blocks()[0], r as int, o[f], o[f + 1], j),
        ) by {
            assert(out.blocks()[f] == out.values@[f]@);
        }
        assert(out.rows().len() == o.len() - 1);
        assert(ttm_error(*a, *b, fully_sparse).is_none());
        assert(out.shape_view().len() == out.shape@.len());
        assert(out.sparse_view().len() == out.sparse_axes@.len());
        assert(out.dense_view().len() == out.dense_axes@.len());
        assert(a.shape_view().len() == a.shape@.len());
        assert(a.sparse_view().len() == a.sparse_axes@.len());
        assert(a.dense_view().len() == a.dense_axes@.len());
        assert(out.shape@.len() == out.sparse_axes@.len() + out.dense_axes@.len());
        assert(out.block_len() == a.block_len() * r);
        assert forall|f: int| 0 <= f < out.values@.len() implies (
        #[trigger] out.values@[f])@.len() == out.block_len() by {
            assert(out.values@[f]@ == out.blocks()[f]);
        }
        assert(out.wf());
        assert(out.shape_view() == substitute_axis(a.shape_view(), common@.id, free@));
        assert(out.sparse_view() == a.sparse_view().remove(k as int));
        assert(out.order_view() == drop_axis(a.order_view(), common@.id));
    }
    Ok(out)
}

/// The product of a tensor with no dense axes and a dense matrix.
pub struct COOTensorMulDenseMatrix<'a> {
    pub tensor: &'a COOTensor,
    pub matrix: &'a COOTensor,
    /// Whether the fibers are spread over threads; the result is the same either way.
    pub multi_thread: bool,
}

impl<'a> COOTensorMulDenseMatrix<'a> {
    /// A serial multiplication of `tensor` by `matrix`.
    pub fn new(tensor: &'a COOTensor, matrix: &'a COOTensor) -> (r: COOTensorMulDenseMatrix<'a>)
        ensures
            r.tensor == tensor,
            r.matrix == matrix,
            !r.multi_thread,
    {
        COOTensorMulDenseMatrix { tensor, matrix, multi_thread: false }
    }

    /// Performs the multiplication.
    pub fn execute(self) -> (res: Result<COOTensor, TtmError>)
        requires
            self.tensor.wf(),
            self.matrix.wf(),
        ensures
            match res {
                Ok(out) => ttm_error(*self.tensor, *self.matrix, true).is_none() && ttm_result(
                    *self.tensor,
                    *self.matrix,
                    out,
                ),
                Err(e) => ttm_error(*self.tensor, *self.matrix, true) == Some(e),
            },
    {
        multiply(self.tensor, self.matrix, true, self.multi_thread)
    }
}

/// The product of a tensor that may have dense axes and a dense matrix.
pub struct SemiCOOTensorMulDenseMatrix<'a> {
    pub tensor: &'a COOTensor,
    pub matrix: &'a COOTensor,
    /// Whether the fibers are spread over threads; the result is the same either way.
    pub multi_thread: bool,
}

impl<'a> SemiCOOTensorMulDenseMatrix<'a> {
    /// A serial multiplication of `tensor` by `matrix`.
    pub fn new(tensor: &'a COOTensor, matrix: &'a COOTensor) -> (r: SemiCOOTensorMulDenseMatrix<'a>)
        ensures
            r.tensor == tensor,
            r.matrix == matrix,
            !r.multi_thread,
    {
        SemiCOOTensorMulDenseMatrix { tensor, matrix, multi_thread: false }
    }

    /// Performs the multiplication.
    pub fn execute(self) -> (res: Result<COOTensor, TtmError>)
        requires
            self.tensor.wf(),
            self.matrix.wf(),
        ensures
            match res {
                Ok(out) => ttm_error(*self.tensor, *self.matrix, false).is_none() && ttm_result(
                    *self.tensor,
                    *self.matrix,
                    out,
                ),
                Err(e) => ttm_error(*self.tensor, *self.matrix, false) == Some(e),
            },
    {
        multiply(self.tensor, self.matrix, false, self.multi_thread)
    }
}

/// The product's shape is the tensor's shape with the common axis replaced by the
/// matrix's free axis, the product is sorted, and it has no more blocks than the tensor.
pub proof fn lemma_ttm_shape(a: COOTensor, b: COOTensor, out: COOTensor)
    requires
        ttm_result(a, b, out),
    ensures
        out.shape_view() == substitute_axis(a.shape_view(), b.dense_view()[0].id, b.dense_view()[1]),
        out.sparse_is_sorted,
        out.indices@.len() <= a.indices@.len(),
{
    lemma_fiber_offsets(a.rows(), common_column(a, b));
}

/// The product is a function of the tensor and the matrix alone: two products of
/// the same inputs, serial or parallel, hold the same axes, rows and values.
pub proof fn lemma_ttm_deterministic(a: COOTensor, b: COOTensor, out1: COOTensor, out2: COOTensor)
    requires
        ttm_result(a, b, out1),
        ttm_result(a, b, out2),
    ensures
        out1.shape_view() == out2.shape_view(),
        out1.sparse_view() == out2.sparse_view(),
        out1.dense_view() == out2.dense_view(),
        out1.order_view() == out2.order_view(),
        out1.sparse_is_sorted == out2.sparse_is_sorted,
        out1.rows() == out2.rows(),
        out1.blocks() == out2.blocks(),
{
    let o = fiber_offsets(a.rows(), common_column(a, b));
    assert(out1.blocks().len() == out1.values@.len());
    assert(out2.blocks().len() == out2.values@.len());
    assert(out1.rows() =~= out2.rows());
    assert forall|f: int| 0 <= f < out1.blocks().len() implies #[trigger] out1.blocks()[f]
        == out2.blocks()[f] by {
        assert(out1.rows().len() == o.len() - 1);
    }
    assert(out1.blocks() =~= out2.blocks());
}

} // verus!
