//! The product compared with a plain scatter over every block of the tensor.
use crate::fiber::{eq_except, fiber_offsets, lemma_fiber_offsets, remove_at};
use crate::axis::{has_axis, is_first_position, AxisModel};
use crate::sort::{is_sort_key, key_columns, lex_le, lex_lt_from, rows_sorted, sort_post};
use crate::ttm::ttm_error;
use vstd::seq_lib::seq_to_set_is_finite;
use vstd::set_lib::{lemma_int_range, lemma_subset_equality, set_int_range};
use crate::tensor::COOTensor;
use crate::ttm::{common_column, contribution, fiber_sum, ttm_result};
use vstd::prelude::*;

verus! {

/// Entry `j` of the accumulator cell `key` after scattering the first `n` blocks:
/// each block whose coordinates outside column `k` are `key` adds its contribution.
pub open spec fn scatter_sum(
    rows: Seq<Seq<usize>>,
    blocks: Seq<Seq<i64>>,
    k: int,
    lower: int,
    b: Seq<i64>,
    r: int,
    key: Seq<usize>,
    n: int,
    j: int,
) -> i64
    decreases n,
{
    if n <= 0 {
        0
    } else if remove_at(rows[n - 1], k) == key {
        scatter_sum(rows, blocks, k, lower, b, r, key, n - 1, j).wrapping_add(
            contribution(rows, blocks, k, lower, b, r, n - 1, j),
        )
    } else {
        scatter_sum(rows, blocks, k, lower, b, r, key, n - 1, j)
    }
}

/// Whether blocks that agree outside column `k` are adjacent: any block between two
/// such blocks agrees with them too.
pub open spec fn keys_contiguous(rows: Seq<Seq<usize>>, k: int) -> bool {
    forall|x: int, y: int, z: int|
        0 <= x < y < z < rows.len() && eq_except(#[trigger] rows[x], #[trigger] rows[z], k) ==> eq_except(
            #[trigger] rows[y],
            rows[x],
            k,
        )
}

proof fn lemma_eq_except_remove(a: Seq<usize>, b: Seq<usize>, k: int)
    requires
        a.len() == b.len(),
        0 <= k < a.len(),
    ensures
        eq_except(a, b, k) <==> remove_at(a, k) == remove_at(b, k),
{
    let ra = remove_at(a, k);
    let rb = remove_at(b, k);
    if eq_except(a, b, k) {
        assert forall|c: int| 0 <= c < ra.len() implies ra[c] == rb[c] by {
            if c < k {
                assert(ra[c] == a[c] && rb[c] == b[c]);
            } else {
                assert(ra[c] == a[c + 1] && rb[c] == b[c + 1]);
            }
        }
        assert(ra =~= rb);
    }
    if ra == rb {
        assert forall|c: int| 0 <= c < a.len() && c != k implies #[trigger] a[c] == b[c] by {
            if c < k {
                assert(ra[c] == a[c] && rb[c] == b[c]);
            } else {
                assert(ra[c - 1] == a[c] && rb[c - 1] == b[c]);
            }
        }
    }
}

/// Agreement outside a column is symmetric and transitive.
proof fn lemma_eq_except_equiv(a: Seq<usize>, b: Seq<usize>, c: Seq<usize>, k: int)
    ensures
        eq_except(a, b, k) ==> eq_except(b, a, k),
        eq_except(a, b, k) && eq_except(b, c, k) ==> eq_except(a, c, k),
{
}

/// The scatter over blocks outside `lo..hi` adds nothing, and over them adds the fiber's sum.
proof fn lemma_scatter_fiber(
    rows: Seq<Seq<usize>>,
    blocks: Seq<Seq<i64>>,
    k: int,
    lower: int,
    b: Seq<i64>,
    r: int,
    key: Seq<usize>,
    lo: int,
    hi: int,
    n: int,
    j: int,
)
    requires
        0 <= lo <= hi <= rows.len(),
        0 <= n <= rows.len(),
        forall|m: int| 0 <= m < rows.len() ==> (remove_at(#[trigger] rows[m], k) == key <==> lo <= m < hi),
    ensures
        scatter_sum(rows, blocks, k, lower, b, r, key, n, j) == if n <= lo {
            0
        } else if n <= hi {
            fiber_sum(rows, blocks, k, lower, b, r, lo, n, j)
        } else {
            fiber_sum(rows, blocks, k, lower, b, r, lo, hi, j)
        },
    decreases n,
{
    if n > 0 {
        lemma_scatter_fiber(rows, blocks, k, lower, b, r, key, lo, hi, n - 1, j);
        let prev = scatter_sum(rows, blocks, k, lower, b, r, key, n - 1, j);
        let add = contribution(rows, blocks, k, lower, b, r, n - 1, j);
        if lo <= n - 1 < hi {
            assert(remove_at(rows[n - 1], k) == key);
            assert(scatter_sum(rows, blocks, k, lower, b, r, key, n, j) == prev.wrapping_add(add));
            assert(fiber_sum(rows, blocks, k, lower, b, r, lo, n, j) == fiber_sum(
                rows,
                blocks,
                k,
                lower,
                b,
                r,
                lo,
                n - 1,
                j,
            ).wrapping_add(add));
            if n - 1 == lo {
                assert(fiber_sum(rows, blocks, k, lower, b, r, lo, n - 1, j) == 0);
            }
        } else {
            assert(remove_at(rows[n - 1], k) != key);
            assert(scatter_sum(rows, blocks, k, lower, b, r, key, n, j) == prev);
        }
    }
}

/// What grouping guarantees of the offsets `o` of `rows` along column `k`.
pub open spec fn offsets_shape(rows: Seq<Seq<usize>>, k: int, o: Seq<int>) -> bool {
    &&& o.len() >= 1
    &&& o[0] == 0
    &&& o.last() == rows.len()
    &&& forall|f: int| 0 <= f < o.len() ==> 0 <= #[trigger] o[f] <= rows.len()
    &&& forall|f: int| 0 <= f < o.len() - 1 ==> #[trigger] o[f] < o[f + 1]
    &&& forall|f: int, m: int|
        0 <= f < o.len() - 1 && o[f] <= m < o[f + 1] ==> eq_except(
            #[trigger] rows[m],
            #[trigger] rows[o[f]],
            k,
        )
    &&& forall|f: int| 0 <= f < o.len() - 2 ==> !eq_except(#[trigger] rows[o[f + 1]], rows[o[f]], k)
}

/// With adjacent keys, a block lies in fiber `f` exactly when it agrees with the
/// block that opens the fiber.
proof fn lemma_fiber_membership(rows: Seq<Seq<usize>>, k: int, o: Seq<int>, f: int, m: int)
    requires
        offsets_shape(rows, k, o),
        keys_contiguous(rows, k),
        0 <= f < o.len() - 1,
        0 <= m < rows.len(),
    ensures
        eq_except(rows[m], rows[o[f]], k) <==> o[f] <= m < o[f + 1],
{
    if eq_except(rows[m], rows[o[f]], k) {
        if m >= o[f + 1] {
            assert(o[f] < o[f + 1]);
            assert(f + 1 < o.len() - 1);
            assert(eq_except(rows[o[f + 1]], rows[o[f]], k));
        } else if m < o[f] {
            let p = o[f] - 1;
            assert(f > 0);
            assert(o[f - 1] < o[f]);
            assert(eq_except(rows[p], rows[m], k));
            assert(eq_except(rows[p], rows[o[f - 1]], k));
            lemma_eq_except_equiv(rows[m], rows[o[f]], rows[p], k);
            lemma_eq_except_equiv(rows[o[f]], rows[m], rows[p], k);
            lemma_eq_except_equiv(rows[o[f]], rows[p], rows[o[f - 1]], k);
            assert(eq_except(rows[o[f]], rows[o[f - 1]], k));
            assert(!eq_except(rows[o[f - 1 + 1]], rows[o[f - 1]], k));
        }
    }
}

/// Output entry `j` of fiber `f` is the scatter sum of its row.
proof fn lemma_fiber_entry(
    rows: Seq<Seq<usize>>,
    blocks: Seq<Seq<i64>>,
    k: int,
    lower: int,
    b: Seq<i64>,
    r: int,
    o: Seq<int>,
    f: int,
    j: int,
)
    requires
        offsets_shape(rows, k, o),
        keys_contiguous(rows, k),
        0 <= f < o.len() - 1,
        0 <= k < rows[o[f]].len(),
        forall|m: int| 0 <= m < rows.len() ==> (#[trigger] rows[m]).len() == rows[o[f]].len(),
    ensures
        fiber_sum(rows, blocks, k, lower, b, r, o[f], o[f + 1], j) == scatter_sum(
            rows,
            blocks,
            k,
            lower,
            b,
            r,
            remove_at(rows[o[f]], k),
            rows.len() as int,
            j,
        ),
{
    let key = remove_at(rows[o[f]], k);
    assert forall|m: int| 0 <= m < rows.len() implies (remove_at(#[trigger] rows[m], k) == key <==> o[f]
        <= m < o[f + 1]) by {
        lemma_eq_except_remove(rows[m], rows[o[f]], k);
        lemma_fiber_membership(rows, k, o, f, m);
    }
    lemma_scatter_fiber(rows, blocks, k, lower, b, r, key, o[f], o[f + 1], rows.len() as int, j);
}

/// The product agrees with the plain scatter: when blocks that agree outside the
/// common column are adjacent, which sorting with the common axis last ensures,
/// entry `j` of output block `f` is what scattering every block of the tensor, in
/// order, into the accumulator cell of output row `f` gives; and no two output rows
/// are equal, so each cell of the accumulator is one output row.
#[verifier::rlimit(60)]
pub proof fn lemma_ttm_reference(a: COOTensor, b: COOTensor, out: COOTensor)
    requires
        a.wf(),
        ttm_result(a, b, out),
        0 <= common_column(a, b) < a.sparse_axes@.len(),
        keys_contiguous(a.rows(), common_column(a, b)),
    ensures
        forall|f: int, j: int|
            0 <= f < out.rows().len() && 0 <= j < out.blocks()[f].len() ==> #[trigger] out.blocks()[f][j]
                == scatter_sum(
                a.rows(),
                a.blocks(),
                common_column(a, b),
                b.dense_view()[0].lower as int,
                b.blocks()[0],
                b.dense_view()[1].size() as int,
                out.rows()[f],
                a.rows().len() as int,
                j,
            ),
        forall|f: int, g: int|
            0 <= f < out.rows().len() && 0 <= g < out.rows().len() && f != g ==> #[trigger] out.rows()[f]
                != #[trigger] out.rows()[g],
{
    let k = common_column(a, b);
    let rows = a.rows();
    let o = fiber_offsets(rows, k);
    lemma_fiber_offsets(rows, k);
    assert(offsets_shape(rows, k, o));
    assert forall|m: int| 0 <= m < rows.len() implies (#[trigger] rows[m]).len()
        == a.sparse_axes@.len() by {
        assert(rows[m] == a.indices@[m]@);
    }
    let p = a.block_len();
    let r = b.dense_view()[1].size() as int;
    assert forall|f: int, j: int|
        0 <= f < o.len() - 1 && 0 <= j < out.blocks()[f].len() implies #[trigger] out.blocks()[f][j]
            == fiber_sum(rows, a.blocks(), k, b.dense_view()[0].lower as int, b.blocks()[0], r, o[f], o[f + 1], j) by {
        assert(out.blocks()[f] == Seq::new(
            (p * r) as nat,
            |j: int|
                fiber_sum(rows, a.blocks(), k, b.dense_view()[0].lower as int, b.blocks()[0], r, o[f], o[f + 1], j),
        ));
    }
    lemma_reference_core(
        rows,
        a.blocks(),
        k,
        b.dense_view()[0].lower as int,
        b.blocks()[0],
        b.dense_view()[1].size() as int,
        o,
        a.sparse_axes@.len() as int,
        out.rows(),
        out.blocks(),
    );
}

/// The reference law over plain sequences: `out_rows` and `out_blocks` are the
/// rows and blocks that the fibers at offsets `o` give.
proof fn lemma_reference_core(
    rows: Seq<Seq<usize>>,
    blocks: Seq<Seq<i64>>,
    k: int,
    lower: int,
    b: Seq<i64>,
    r: int,
    o: Seq<int>,
    s: int,
    out_rows: Seq<Seq<usize>>,
    out_blocks: Seq<Seq<i64>>,
)
    requires
        offsets_shape(rows, k, o),
        keys_contiguous(rows, k),
        0 <= k < s,
        forall|m: int| 0 <= m < rows.len() ==> (#[trigger] rows[m]).len() == s,
        out_rows.len() == o.len() - 1,
        forall|f: int| 0 <= f < o.len() - 1 ==> #[trigger] out_rows[f] == remove_at(rows[o[f]], k),
        forall|f: int, j: int|
            0 <= f < o.len() - 1 && 0 <= j < out_blocks[f].len() ==> #[trigger] out_blocks[f][j]
                == fiber_sum(rows, blocks, k, lower, b, r, o[f], o[f + 1], j),
    ensures
        forall|f: int, j: int|
            0 <= f < out_rows.len() && 0 <= j < out_blocks[f].len() ==> #[trigger] out_blocks[f][j]
                == scatter_sum(rows, blocks, k, lower, b, r, out_rows[f], rows.len() as int, j),
        forall|f: int, g: int|
            0 <= f < out_rows.len() && 0 <= g < out_rows.len() && f != g ==> #[trigger] out_rows[f]
                != #[trigger] out_rows[g],
{
    assert forall|f: int, j: int|
        0 <= f < out_rows.len() && 0 <= j < out_blocks[f].len() implies #[trigger] out_blocks[f][j]
            == scatter_sum(rows, blocks, k, lower, b, r, out_rows[f], rows.len() as int, j) by {
        lemma_fiber_entry(rows, blocks, k, lower, b, r, o, f, j);
    }
    assert forall|f: int, g: int|
        0 <= f < out_rows.len() && 0 <= g < out_rows.len() && f != g implies #[trigger] out_rows[f]
            != #[trigger] out_rows[g] by {
        lemma_eq_except_remove(rows[o[g]], rows[o[f]], k);
        lemma_fiber_membership(rows, k, o, f, o[g]);
        if f < g {
            lemma_offsets_monotone(o, f + 1, g);
        } else {
            lemma_offsets_monotone(o, g + 1, f);
            assert(o[g] < o[g + 1]);
        }
    }
}

/// Strictly increasing offsets are increasing between any two positions.
proof fn lemma_offsets_monotone(o: Seq<int>, x: int, y: int)
    requires
        0 <= x <= y < o.len(),
        forall|f: int| 0 <= f < o.len() - 1 ==> #[trigger] o[f] < o[f + 1],
    ensures
        o[x] <= o[y],
    decreases y - x,
{
    if x < y {
        lemma_offsets_monotone(o, x, y - 1);
    }
}

/// Whether `a` and `b` agree on the columns `cols[i..n]`.
pub open spec fn agree_on(a: Seq<usize>, b: Seq<usize>, cols: Seq<usize>, i: int, n: int) -> bool {
    forall|p: int| i <= p < n ==> a[#[trigger] cols[p] as int] == b[cols[p] as int]
}

/// Whether the key `cols` over rows of `s` columns names each column, and column `k` last only.
pub open spec fn key_ends_with(cols: Seq<usize>, s: int, k: int) -> bool {
    &&& cols.len() >= 1
    &&& cols.last() == k
    &&& forall|p: int| 0 <= p < cols.len() ==> #[trigger] cols[p] < s
    &&& forall|p: int| 0 <= p < cols.len() - 1 ==> #[trigger] cols[p] != k
    &&& forall|c: int| 0 <= c < s ==> #[trigger] names_column(cols, c)
}

/// Whether the key `cols` names column `c`.
pub open spec fn names_column(cols: Seq<usize>, c: int) -> bool {
    exists|p: int| 0 <= p < cols.len() && #[trigger] cols[p] == c
}

/// The order of rows under a key is transitive.
pub proof fn lemma_le_transitive(a: Seq<usize>, b: Seq<usize>, c: Seq<usize>, cols: Seq<usize>, i: int)
    requires
        0 <= i,
        !lex_lt_from(b, a, cols, i),
        !lex_lt_from(c, b, cols, i),
        forall|p: int| 0 <= p < cols.len() ==> #[trigger] cols[p] < a.len() && cols[p] < b.len() && cols[p] < c.len(),
    ensures
        !lex_lt_from(c, a, cols, i),
    decreases cols.len() - i,
{
    if i < cols.len() {
        let x = cols[i] as int;
        if a[x] == b[x] && b[x] == c[x] {
            lemma_le_transitive(a, b, c, cols, i + 1);
        }
    }
}

/// Sorted rows are in order between any two positions.
pub proof fn lemma_sorted_le(rows: Seq<Seq<usize>>, cols: Seq<usize>, x: int, y: int)
    requires
        rows_sorted(rows, cols),
        0 <= x <= y < rows.len(),
        forall|m: int, p: int|
            0 <= m < rows.len() && 0 <= p < cols.len() ==> #[trigger] cols[p] < (#[trigger] rows[m]).len(),
    ensures
        lex_le(rows[x], rows[y], cols),
    decreases y - x,
{
    if x == y {
        lemma_le_refl(rows[x], cols, 0);
    } else {
        lemma_sorted_le(rows, cols, x, y - 1);
        assert(lex_le(rows[y - 1], rows[y], cols));
        lemma_le_transitive(rows[x], rows[y - 1], rows[y], cols, 0);
    }
}

/// A row is at most itself under any key.
pub proof fn lemma_le_refl(a: Seq<usize>, cols: Seq<usize>, i: int)
    requires
        0 <= i,
    ensures
        !lex_lt_from(a, a, cols, i),
    decreases cols.len() - i,
{
    if i < cols.len() {
        lemma_le_refl(a, cols, i + 1);
    }
}

/// A row between two rows that agree on the leading key columns agrees with them there.
proof fn lemma_squeeze(a: Seq<usize>, b: Seq<usize>, c: Seq<usize>, cols: Seq<usize>, i: int, n: int)
    requires
        0 <= i <= n <= cols.len(),
        !lex_lt_from(b, a, cols, i),
        !lex_lt_from(c, b, cols, i),
        agree_on(a, c, cols, i, n),
        forall|p: int| 0 <= p < cols.len() ==> #[trigger] cols[p] < a.len() && cols[p] < b.len() && cols[p] < c.len(),
    ensures
        agree_on(a, b, cols, i, n),
    decreases n - i,
{
    if i < n {
        let x = cols[i] as int;
        assert(a[x] == c[x]);
        assert(a[x] == b[x]);
        lemma_squeeze(a, b, c, cols, i + 1, n);
    }
}

/// Rows sorted under a key that names every column, the common column `k` last,
/// keep the blocks that agree outside column `k` adjacent.
pub proof fn lemma_sorted_keys_contiguous(rows: Seq<Seq<usize>>, cols: Seq<usize>, s: int, k: int)
    requires
        rows_sorted(rows, cols),
        key_ends_with(cols, s, k),
        forall|m: int| 0 <= m < rows.len() ==> (#[trigger] rows[m]).len() == s,
    ensures
        keys_contiguous(rows, k),
{
    let n = cols.len() - 1;
    assert forall|m: int, p: int|
        0 <= m < rows.len() && 0 <= p < cols.len() implies #[trigger] cols[p] < (#[trigger] rows[m]).len() by {}
    assert forall|x: int, y: int, z: int|
        0 <= x < y < z < rows.len() && eq_except(#[trigger] rows[x], #[trigger] rows[z], k) implies eq_except(
        #[trigger] rows[y],
        rows[x],
        k,
    ) by {
        lemma_sorted_le(rows, cols, x, y);
        lemma_sorted_le(rows, cols, y, z);
        assert(agree_on(rows[x], rows[z], cols, 0, n));
        lemma_squeeze(rows[x], rows[y], rows[z], cols, 0, n);
        assert forall|c: int| 0 <= c < rows[y].len() && c != k implies #[trigger] rows[y][c] == rows[x][c] by {
            assert(names_column(cols, c));
            let p = choose|p: int| 0 <= p < cols.len() && #[trigger] cols[p] == c;
            assert(p < n);
        }
    }
}

/// An axis that occurs has a first occurrence.
pub proof fn lemma_first_position_exists(axes: Seq<AxisModel>, id: u64)
    requires
        has_axis(axes, id),
    ensures
        exists|i: int| is_first_position(axes, id, i),
    decreases axes.len(),
{
    let d = axes.drop_last();
    if has_axis(d, id) {
        lemma_first_position_exists(d, id);
        let i = choose|i: int| is_first_position(d, id, i);
        assert(axes[i] == d[i]);
        assert forall|j: int| 0 <= j < i implies #[trigger] axes[j].id != id by {
            assert(d[j] == axes[j]);
        }
        assert(is_first_position(axes, id, i));
    } else {
        let i = axes.len() - 1;
        let w = choose|w: int| 0 <= w < axes.len() && #[trigger] axes[w].id == id;
        if w < i {
            assert(d[w] == axes[w]);
            assert(has_axis(d, id));
        }
        assert forall|j: int| 0 <= j < i implies #[trigger] axes[j].id != id by {
            assert(d[j] == axes[j]);
        }
        assert(is_first_position(axes, id, i));
    }
}

/// The columns of a sort key are the sparse columns, each once.
pub proof fn lemma_key_columns(order: Seq<AxisModel>, sparse: Seq<AxisModel>)
    requires
        is_sort_key(order, sparse),
        sparse.len() <= usize::MAX,
    ensures
        ({
            let cols = key_columns(order, sparse);
            &&& cols.len() == sparse.len()
            &&& forall|p: int|
                0 <= p < cols.len() ==> is_first_position(sparse, order[p].id, #[trigger] cols[p] as int)
            &&& forall|p: int, q: int| 0 <= p < cols.len() && 0 <= q < cols.len() && p != q ==> #[trigger] cols[p]
                != #[trigger] cols[q]
            &&& forall|c: int| 0 <= c < sparse.len() ==> #[trigger] names_column(cols, c)
        }),
{
    let cols = key_columns(order, sparse);
    let s = sparse.len() as int;
    assert forall|p: int| 0 <= p < cols.len() implies is_first_position(
        sparse,
        order[p].id,
        #[trigger] cols[p] as int,
    ) by {
        assert(has_axis(sparse, order[p].id));
        lemma_first_position_exists(sparse, order[p].id);
        let c = choose|c: int| is_first_position(sparse, order[p].id, c);
        assert(cols[p] == c as usize);
    }
    assert forall|p: int, q: int| 0 <= p < cols.len() && 0 <= q < cols.len() && p != q implies #[trigger] cols[p]
        != #[trigger] cols[q] by {
        assert(sparse[cols[p] as int].id == order[p].id);
        assert(sparse[cols[q] as int].id == order[q].id);
    }
    let ci = cols.map_values(|c: usize| c as int);
    assert(ci.no_duplicates()) by {
        assert forall|p: int, q: int| 0 <= p < ci.len() && 0 <= q < ci.len() && p != q implies ci[p] != ci[q] by {
            assert(cols[p] != cols[q]);
        }
    }
    ci.unique_seq_to_set();
    seq_to_set_is_finite(ci);
    lemma_int_range(0, s);
    assert(ci.to_set().subset_of(set_int_range(0, s))) by {
        assert forall|x: int| ci.to_set().contains(x) implies set_int_range(0, s).contains(x) by {
            let p = choose|p: int| 0 <= p < ci.len() && ci[p] == x;
            assert(ci[p] == cols[p] as int);
        }
    }
    lemma_subset_equality(ci.to_set(), set_int_range(0, s));
    assert forall|c: int| 0 <= c < s implies #[trigger] names_column(cols, c) by {
        assert(set_int_range(0, s).contains(c));
        assert(ci.to_set().contains(c));
        let p = choose|p: int| 0 <= p < ci.len() && ci[p] == c;
        assert(cols[p] == c);
    }
}

/// Sorting a tensor under a key that ends with the common axis, then multiplying,
/// gives the plain scatter: each output entry is what scattering every block of the
/// sorted tensor into the accumulator cell of its output row gives, and no two
/// output rows are equal.
pub proof fn lemma_sorted_product_is_scatter(
    t0: COOTensor,
    t1: COOTensor,
    order: Seq<AxisModel>,
    b: COOTensor,
    fully_sparse: bool,
    out: COOTensor,
)
    requires
        t0.wf(),
        t0.sparse_axes@.len() <= usize::MAX,
        is_sort_key(order, t0.sparse_view()),
        sort_post(t0, t1, order),
        ttm_error(t1, b, fully_sparse).is_none(),
        ttm_result(t1, b, out),
    ensures
        forall|f: int, j: int|
            0 <= f < out.rows().len() && 0 <= j < out.blocks()[f].len() ==> #[trigger] out.blocks()[f][j]
                == scatter_sum(
                t1.rows(),
                t1.blocks(),
                common_column(t1, b),
                b.dense_view()[0].lower as int,
                b.blocks()[0],
                b.dense_view()[1].size() as int,
                out.rows()[f],
                t1.rows().len() as int,
                j,
            ),
        forall|f: int, g: int|
            0 <= f < out.rows().len() && 0 <= g < out.rows().len() && f != g ==> #[trigger] out.rows()[f]
                != #[trigger] out.rows()[g],
{
    let sparse = t0.sparse_view();
    let cols = key_columns(order, sparse);
    let s = sparse.len() as int;
    let k = common_column(t1, b);
    lemma_key_columns(order, sparse);
    assert(t1.sparse_view() == sparse);
    assert(cols.last() == k);
    assert(key_ends_with(cols, s, k)) by {
        assert forall|p: int| 0 <= p < cols.len() - 1 implies #[trigger] cols[p] != k by {
            assert(cols[p] != cols[cols.len() - 1]);
        }
        assert forall|p: int| 0 <= p < cols.len() implies #[trigger] cols[p] < s by {
            assert(is_first_position(sparse, order[p].id, cols[p] as int));
        }
    }
    assert forall|m: int| 0 <= m < t1.rows().len() implies (#[trigger] t1.rows()[m]).len() == s by {
        assert(t1.rows()[m] == t1.indices@[m]@);
    }
    lemma_sorted_keys_contiguous(t1.rows(), cols, s, k);
    assert(0 <= k < t1.sparse_axes@.len()) by {
        lemma_first_position_exists(sparse, b.dense_view()[0].id);
    }
    lemma_ttm_reference(t1, b, out);
}

} // verus!
