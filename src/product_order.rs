//! The product keeps the sort of the tensor: its rows are sorted under its own
//! sort key, which is the tensor's key without the common axis.
use crate::axis::{has_axis, is_first_position, lemma_first_position_unique, drop_axis, AxisModel};
use crate::fiber::{fiber_offsets, lemma_fiber_offsets, remove_at};
use crate::reference::{lemma_key_columns, lemma_sorted_le};
use crate::sort::{is_sort_key, key_columns, lex_lt_from, sort_state_ok};
use crate::tensor::COOTensor;
use crate::ttm::{common_column, ttm_error, ttm_result};
use vstd::prelude::*;

verus! {

/// The place of column `c` once column `k` is removed.
pub open spec fn shifted(c: int, k: int) -> int {
    if c < k {
        c
    } else {
        c - 1
    }
}

proof fn lemma_drop_absent(axes: Seq<AxisModel>, id: u64)
    requires
        forall|i: int| 0 <= i < axes.len() ==> #[trigger] axes[i].id != id,
    ensures
        drop_axis(axes, id) == axes,
    decreases axes.len(),
{
    if axes.len() > 0 {
        let d = axes.drop_last();
        assert forall|i: int| 0 <= i < d.len() implies #[trigger] d[i].id != id by {
            assert(d[i] == axes[i]);
        }
        lemma_drop_absent(d, id);
        assert(d.push(axes.last()) =~= axes);
    }
}

/// Rows compared on the key without its last column.
proof fn lemma_le_prefix(a: Seq<usize>, b: Seq<usize>, cols: Seq<usize>, i: int)
    requires
        0 <= i,
        cols.len() >= 1,
        !lex_lt_from(b, a, cols, i),
    ensures
        !lex_lt_from(b, a, cols.drop_last(), i),
    decreases cols.len() - i,
{
    if i < cols.len() - 1 {
        assert(cols.drop_last()[i] == cols[i]);
        if b[cols[i] as int] == a[cols[i] as int] {
            lemma_le_prefix(a, b, cols, i + 1);
        }
    }
}

/// Comparing rows without column `k` on the shifted key is comparing them on the key.
proof fn lemma_lex_removed(a: Seq<usize>, b: Seq<usize>, cols: Seq<usize>, shifted_cols: Seq<usize>, k: int, i: int)
    requires
        0 <= i,
        0 <= k < a.len(),
        a.len() == b.len(),
        shifted_cols.len() == cols.len(),
        forall|p: int| 0 <= p < cols.len() ==> #[trigger] cols[p] < a.len() && cols[p] != k,
        forall|p: int| 0 <= p < cols.len() ==> #[trigger] shifted_cols[p] == shifted(cols[p] as int, k),
    ensures
        lex_lt_from(remove_at(b, k), remove_at(a, k), shifted_cols, i) == lex_lt_from(b, a, cols, i),
    decreases cols.len() - i,
{
    if i < cols.len() {
        let c = cols[i] as int;
        let ra = remove_at(a, k);
        let rb = remove_at(b, k);
        if c < k {
            assert(ra[c] == a[c] && rb[c] == b[c]);
        } else {
            assert(ra[c - 1] == a[c] && rb[c - 1] == b[c]);
        }
        lemma_lex_removed(a, b, cols, shifted_cols, k, i + 1);
    }
}

/// The product of a tensor whose sort flag tells the truth has a sort flag that
/// tells the truth: its rows are sorted under its key.
pub proof fn lemma_ttm_keeps_sort(a: COOTensor, b: COOTensor, fully_sparse: bool, out: COOTensor)
    requires
        a.wf(),
        a.sparse_axes@.len() <= usize::MAX,
        sort_state_ok(a),
        ttm_error(a, b, fully_sparse).is_none(),
        ttm_result(a, b, out),
    ensures
        sort_state_ok(out),
{
    let sparse = a.sparse_view();
    let order = a.order_view();
    let s = sparse.len() as int;
    let cid = b.dense_view()[0].id;
    let k = common_column(a, b);
    let cols = key_columns(order, sparse);
    let rows = a.rows();
    lemma_key_columns(order, sparse);
    assert(cols.last() == k);
    assert(0 <= k < s);
    // The key of the product is the tensor's key without its last axis.
    let order2 = order.drop_last();
    assert forall|i: int| 0 <= i < order2.len() implies #[trigger] order2[i].id != cid by {
        assert(order2[i] == order[i]);
        assert(order[i].id != order[order.len() - 1].id);
    }
    lemma_drop_absent(order2, cid);
    assert(order.drop_last().push(order.last()) =~= order);
    assert(drop_axis(order, cid) == drop_axis(order2, cid));
    assert(out.order_view() == order2);
    let sparse2 = sparse.remove(k);
    assert(out.sparse_view() == sparse2);
    let cols2 = key_columns(order2, sparse2);
    assert forall|p: int| 0 <= p < order2.len() implies #[trigger] cols2[p] == shifted(cols[p] as int, k)
        && is_first_position(sparse2, order2[p].id, shifted(cols[p] as int, k)) by {
        let c = cols[p] as int;
        assert(is_first_position(sparse, order[p].id, c));
        assert(c != k) by {
            assert(cols[p] != cols[cols.len() - 1]);
        }
        let sc = shifted(c, k);
        assert(sparse2[sc] == sparse[c]);
        assert forall|j: int| 0 <= j < sc implies #[trigger] sparse2[j].id != order2[p].id by {
            if j < k {
                assert(sparse2[j] == sparse[j]);
            } else {
                assert(sparse2[j] == sparse[j + 1]);
            }
        }
        assert(is_first_position(sparse2, order2[p].id, sc));
        let chosen = choose|x: int| is_first_position(sparse2, order2[p].id, x);
        lemma_first_position_unique(sparse2, order2[p].id, chosen, sc);
    }
    assert(is_sort_key(order2, sparse2)) by {
        assert forall|i: int| 0 <= i < order2.len() implies has_axis(sparse2, #[trigger] order2[i].id) by {
            assert(is_first_position(sparse2, order2[i].id, shifted(cols[i] as int, k)));
        }
        assert forall|i: int, j: int|
            0 <= i < order2.len() && 0 <= j < order2.len() && i != j implies #[trigger] order2[i].id
                != #[trigger] order2[j].id by {
            assert(order2[i] == order[i] && order2[j] == order[j]);
        }
    }
    // Adjacent output rows come from fiber openers in order.
    let o = fiber_offsets(rows, k);
    lemma_fiber_offsets(rows, k);
    assert forall|m: int| 0 <= m < rows.len() implies (#[trigger] rows[m]).len() == s by {
        assert(rows[m] == a.indices@[m]@);
    }
    assert forall|m: int, p: int| 0 <= m < rows.len() && 0 <= p < cols.len() implies #[trigger] cols[p] < (
    #[trigger] rows[m]).len() by {}
    let pc = cols.drop_last();
    assert forall|f: int| 0 <= f < out.rows().len() - 1 implies crate::sort::lex_le(
        #[trigger] out.rows()[f],
        out.rows()[f + 1],
        cols2,
    ) by {
        assert(o[f] < o[f + 1]);
        lemma_sorted_le(rows, cols, o[f], o[f + 1]);
        lemma_le_prefix(rows[o[f]], rows[o[f + 1]], cols, 0);
        assert forall|p: int| 0 <= p < pc.len() implies #[trigger] pc[p] < rows[o[f]].len() && pc[p] != k by {
            assert(pc[p] == cols[p]);
            assert(cols[p] != cols[cols.len() - 1]);
        }
        assert forall|p: int| 0 <= p < pc.len() implies #[trigger] cols2[p] == shifted(pc[p] as int, k) by {
            assert(pc[p] == cols[p]);
        }
        lemma_lex_removed(rows[o[f]], rows[o[f + 1]], pc, cols2, k, 0);
    }
}

/// Whether the sparse and dense axes of `t` lie in its shape and are all distinct
/// by identity, so that they partition it.
pub open spec fn axes_partitioned(t: COOTensor) -> bool {
    let sp = t.sparse_view();
    let de = t.dense_view();
    &&& crate::iter::axes_in_shape(t)
    &&& forall|i: int, j: int| 0 <= i < sp.len() && 0 <= j < sp.len() && i != j ==> #[trigger] sp[i].id != #[trigger] sp[j].id
    &&& forall|i: int, j: int| 0 <= i < de.len() && 0 <= j < de.len() && i != j ==> #[trigger] de[i].id != #[trigger] de[j].id
    &&& forall|i: int, j: int| 0 <= i < sp.len() && 0 <= j < de.len() ==> #[trigger] sp[i].id != #[trigger] de[j].id
}

/// The product of a tensor whose axes partition its shape has axes that partition
/// its shape, when the free axis of the matrix is not a dense axis of the tensor.
pub proof fn lemma_ttm_keeps_partition(a: COOTensor, b: COOTensor, fully_sparse: bool, out: COOTensor)
    requires
        axes_partitioned(a),
        ttm_error(a, b, fully_sparse).is_none(),
        ttm_result(a, b, out),
        !has_axis(a.dense_view(), b.dense_view()[1].id),
    ensures
        axes_partitioned(out),
{
    let k = common_column(a, b);
    let sp = a.sparse_view();
    let de = a.dense_view();
    let sh = a.shape_view();
    let common = b.dense_view()[0];
    let free = b.dense_view()[1];
    let cid = common.id;
    assert(has_axis(sp, cid));
    crate::reference::lemma_first_position_exists(sp, cid);
    assert(is_first_position(sp, cid, k));
    let sp2 = out.sparse_view();
    let de2 = out.dense_view();
    let sh2 = out.shape_view();
    assert(sp2 == sp.remove(k));
    assert(de2 == de.push(free));
    assert(sh2 == crate::axis::substitute_axis(sh, cid, free));
    // An axis of the tensor other than the common one keeps its place in the shape.
    assert forall|c: int| 0 <= c < sp2.len() implies has_axis(sh2, #[trigger] sp2[c].id) by {
        let c2 = if c < k { c } else { c + 1 };
        assert(sp2[c] == sp[c2]);
        assert(sp[c2].id != sp[k].id);
        assert(has_axis(sh, sp[c2].id));
        let i = choose|i: int| 0 <= i < sh.len() && #[trigger] sh[i].id == sp[c2].id;
        assert(sh2[i] == sh[i]);
    }
    assert forall|e: int| 0 <= e < de2.len() implies has_axis(sh2, #[trigger] de2[e].id) by {
        if e < de.len() {
            assert(de2[e] == de[e]);
            assert(de[e].id != sp[k].id);
            assert(has_axis(sh, de[e].id));
            let i = choose|i: int| 0 <= i < sh.len() && #[trigger] sh[i].id == de[e].id;
            assert(sh2[i] == sh[i]);
        } else {
            assert(de2[e] == free);
            assert(has_axis(sh, sp[k].id));
            let i = choose|i: int| 0 <= i < sh.len() && #[trigger] sh[i].id == sp[k].id;
            assert(sh2[i] == free);
        }
    }
    assert forall|i: int, j: int| 0 <= i < sp2.len() && 0 <= j < sp2.len() && i != j implies #[trigger] sp2[i].id
        != #[trigger] sp2[j].id by {
        let i2 = if i < k { i } else { i + 1 };
        let j2 = if j < k { j } else { j + 1 };
        assert(sp2[i] == sp[i2] && sp2[j] == sp[j2]);
    }
    assert forall|i: int, j: int| 0 <= i < de2.len() && 0 <= j < de2.len() && i != j implies #[trigger] de2[i].id
        != #[trigger] de2[j].id by {
        if i < de.len() && j < de.len() {
            assert(de2[i] == de[i] && de2[j] == de[j]);
        } else if i < de.len() {
            assert(de2[i] == de[i] && de2[j] == free);
        } else {
            assert(de2[j] == de[j] && de2[i] == free);
        }
    }
    assert forall|i: int, j: int| 0 <= i < sp2.len() && 0 <= j < de2.len() implies #[trigger] sp2[i].id
        != #[trigger] de2[j].id by {
        let i2 = if i < k { i } else { i + 1 };
        assert(sp2[i] == sp[i2]);
        if j < de.len() {
            assert(de2[j] == de[j]);
        } else {
            assert(de2[j] == free);
            assert(!has_axis(sp, free.id));
        }
    }
    assert(out.sparse_axes@.len() == sp2.len() && out.dense_axes@.len() == de2.len());
}

} // verus!
