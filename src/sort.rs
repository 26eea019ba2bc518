//! Sorting the blocks of a tensor by their sparse coordinates.
//!
//! Rows are compared lexicographically on a list of columns, most significant
//! first. A sort moves each index row together with its value block.
use crate::axis::{axes_view, copy_axes, has_axis, is_first_position, lemma_first_position_unique, map_axes_ok, Axis, AxisModel};
use crate::tensor::{row_in_range, rows_view, COOTensor};
use vstd::prelude::*;

verus! {

/// Whether `a` comes strictly before `b` on the columns `cols[i..]`.
pub open spec fn lex_lt_from(a: Seq<usize>, b: Seq<usize>, cols: Seq<usize>, i: int) -> bool
    decreases cols.len() - i,
{
    if i < 0 || i >= cols.len() {
        false
    } else if a[cols[i] as int] < b[cols[i] as int] {
        true
    } else if a[cols[i] as int] > b[cols[i] as int] {
        false
    } else {
        lex_lt_from(a, b, cols, i + 1)
    }
}

/// Whether `a` comes strictly before `b` under the key `cols`.
pub open spec fn lex_lt(a: Seq<usize>, b: Seq<usize>, cols: Seq<usize>) -> bool {
    lex_lt_from(a, b, cols, 0)
}

/// Whether `a` comes before `b` or ties with it under the key `cols`.
pub open spec fn lex_le(a: Seq<usize>, b: Seq<usize>, cols: Seq<usize>) -> bool {
    !lex_lt(b, a, cols)
}

/// Whether each row is at most the next one under the key `cols`.
pub open spec fn rows_sorted(rows: Seq<Seq<usize>>, cols: Seq<usize>) -> bool {
    forall|m: int| 0 <= m < rows.len() - 1 ==> lex_le(#[trigger] rows[m], rows[m + 1], cols)
}

/// Whether `p` is a permutation of `0..n`.
pub open spec fn is_permutation(p: Seq<int>, n: nat) -> bool {
    &&& p.len() == n
    &&& forall|i: int| 0 <= i < n ==> 0 <= #[trigger] p[i] < n
    &&& forall|i: int, j: int| 0 <= i < n && 0 <= j < n && i != j ==> #[trigger] p[i] != #[trigger] p[j]
}

/// Whether `new` holds the items of `old` in the order `p`.
pub open spec fn permuted<T>(new: Seq<T>, old: Seq<T>, p: Seq<int>) -> bool {
    &&& new.len() == old.len()
    &&& forall|i: int| 0 <= i < new.len() ==> #[trigger] new[i] == old[p[i]]
}

/// Whether every column of `cols` is a column of every row.
pub open spec fn cols_fit(rows: Seq<Seq<usize>>, cols: Seq<usize>) -> bool {
    forall|m: int, c: int|
        0 <= m < rows.len() && 0 <= c < cols.len() ==> #[trigger] cols[c] < (#[trigger] rows[m]).len()
}

proof fn lemma_lex_asym(a: Seq<usize>, b: Seq<usize>, cols: Seq<usize>, i: int)
    requires
        lex_lt_from(a, b, cols, i),
    ensures
        !lex_lt_from(b, a, cols, i),
    decreases cols.len() - i,
{
    if 0 <= i < cols.len() && a[cols[i] as int] == b[cols[i] as int] {
        lemma_lex_asym(a, b, cols, i + 1);
    }
}

/// Whether row `a` comes strictly before row `b` under the key `cols`.
pub fn index_less_than(cols: &Vec<usize>, a: &Vec<usize>, b: &Vec<usize>) -> (r: bool)
    requires
        forall|c: int| 0 <= c < cols@.len() ==> #[trigger] cols@[c] < a@.len() && cols@[c] < b@.len(),
    ensures
        r == lex_lt(a@, b@, cols@),
{
    let mut i: usize = 0;
    while i < cols.len()
        invariant
            i <= cols@.len(),
            forall|c: int| 0 <= c < cols@.len() ==> #[trigger] cols@[c] < a@.len() && cols@[c] < b@.len(),
            lex_lt_from(a@, b@, cols@, 0) == lex_lt_from(a@, b@, cols@, i as int),
        decreases cols@.len() - i,
    {
        let c = cols[i];
        if a[c] < b[c] {
            return true;
        }
        if a[c] > b[c] {
            return false;
        }
        i = i + 1;
    }
    false
}

/// Swaps rows `a` and `b` of `indices`, and blocks `a` and `b` of `values`.
pub fn swap_block(indices: &mut Vec<Vec<usize>>, values: &mut Vec<Vec<i64>>, a: usize, b: usize)
    requires
        a < old(indices)@.len(),
        b < old(indices)@.len(),
        a != b,
        old(values)@.len() == old(indices)@.len(),
    ensures
        final(indices)@ == old(indices)@.update(a as int, old(indices)@[b as int]).update(
            b as int,
            old(indices)@[a as int],
        ),
        final(values)@ == old(values)@.update(a as int, old(values)@[b as int]).update(
            b as int,
            old(values)@[a as int],
        ),
{
    let mut row: Vec<usize> = Vec::new();
    indices.set_and_swap(a, &mut row);
    indices.set_and_swap(b, &mut row);
    indices.set_and_swap(a, &mut row);
    let mut block: Vec<i64> = Vec::new();
    values.set_and_swap(a, &mut block);
    values.set_and_swap(b, &mut block);
    values.set_and_swap(a, &mut block);
    assert(indices@ =~= old(indices)@.update(a as int, old(indices)@[b as int]).update(
        b as int,
        old(indices)@[a as int],
    ));
    assert(values@ =~= old(values)@.update(a as int, old(values)@[b as int]).update(
        b as int,
        old(values)@[a as int],
    ));
}

/// Whether `p` is a permutation of `0..n` that moves only places in `lo..hi`, among themselves.
pub open spec fn perm_within(p: Seq<int>, n: nat, lo: int, hi: int) -> bool {
    &&& is_permutation(p, n)
    &&& forall|i: int| 0 <= i < n && !(lo <= i < hi) ==> #[trigger] p[i] == i
    &&& forall|i: int| lo <= i < hi ==> lo <= #[trigger] p[i] < hi
}

/// Whether every column of `cols` is a column of every row of `rows`.
pub open spec fn key_fits(rows: Seq<Vec<usize>>, cols: Seq<usize>) -> bool {
    forall|m: int, c: int| 0 <= m < rows.len() && 0 <= c < cols.len() ==> #[trigger] cols[c] < (#[trigger] rows[m])@.len()
}

/// Splits rows `lo..=r` around the value of the middle row, Hoare's way: rows
/// `lo..=j` end up at most that value, rows `j + 1..=r` at least it.
fn partition(indices: &mut Vec<Vec<usize>>, values: &mut Vec<Vec<i64>>, cols: &Vec<usize>, lo: usize, r: usize) -> (res: (
    usize,
    Ghost<Seq<int>>,
    Ghost<Seq<usize>>,
))
    requires
        lo < r < old(indices)@.len(),
        old(values)@.len() == old(indices)@.len(),
        key_fits(old(indices)@, cols@),
    ensures
        final(indices)@.len() == old(indices)@.len(),
        final(values)@.len() == old(values)@.len(),
        key_fits(final(indices)@, cols@),
        lo <= res.0 < r,
        perm_within(res.1@, old(indices)@.len(), lo as int, r + 1),
        permuted(final(indices)@, old(indices)@, res.1@),
        permuted(final(values)@, old(values)@, res.1@),
        forall|c: int| 0 <= c < cols@.len() ==> #[trigger] cols@[c] < res.2@.len(),
        forall|m: int| lo <= m <= res.0 ==> !lex_lt(res.2@, (#[trigger] final(indices)@[m])@, cols@),
        forall|m: int| res.0 < m <= r ==> !lex_lt((#[trigger] final(indices)@[m])@, res.2@, cols@),
{
    let n = indices.len();
    let ghost old_rows = indices@;
    let ghost old_vals = values@;
    let mid = lo + (r - lo) / 2;
    assert(mid < r);
    let pivot = crate::tensor::copy_slice(indices[mid].as_slice());
    let ghost pv = pivot@;
    proof {
        lemma_le_refl_sort(pv, cols@, 0);
    }
    let ghost mut perm: Seq<int> = Seq::new(n as nat, |k: int| k);
    let ghost mut si: int = mid as int;
    let ghost mut sj: int = mid as int;
    let ghost mut first = true;
    let mut i: usize = lo;
    let mut j: usize = r;
    loop
        invariant
            n == old_rows.len(),
            old_rows == old(indices)@,
            old_vals == old(values)@,
            indices@.len() == n,
            values@.len() == n,
            key_fits(indices@, cols@),
            pivot@ == pv,
            forall|c: int| 0 <= c < cols@.len() ==> #[trigger] cols@[c] < pv.len(),
            lo < r < n,
            mid == lo + (r - lo) / 2,
            perm_within(perm, n as nat, lo as int, r + 1),
            permuted(indices@, old_rows, perm),
            permuted(values@, old_vals, perm),
            lo <= i <= si <= r,
            !lex_lt(indices@[si]@, pv, cols@),
            lo <= sj <= j <= r,
            !lex_lt(pv, indices@[sj]@, cols@),
            forall|m: int| lo <= m < i ==> !lex_lt(pv, (#[trigger] indices@[m])@, cols@),
            forall|m: int| j < m <= r ==> !lex_lt((#[trigger] indices@[m])@, pv, cols@),
            first ==> si == mid && i <= mid,
            !first ==> j < r,
        decreases r + 1 - i,
    {
        let ghost i0 = i;
        while index_less_than(cols, &indices[i], &pivot)
            invariant
                i0 <= i,
                indices@.len() == n,
                key_fits(indices@, cols@),
                pivot@ == pv,
                forall|c: int| 0 <= c < cols@.len() ==> #[trigger] cols@[c] < pv.len(),
                lo <= i <= si <= r < n,
                !lex_lt(indices@[si]@, pv, cols@),
                forall|m: int| lo <= m < i ==> !lex_lt(pv, (#[trigger] indices@[m])@, cols@),
                first ==> si == mid,
            decreases si - i,
        {
            proof {
                lemma_lex_asym(indices@[i as int]@, pv, cols@, 0);
            }
            i = i + 1;
        }
        while index_less_than(cols, &pivot, &indices[j])
            invariant
                indices@.len() == n,
                key_fits(indices@, cols@),
                pivot@ == pv,
                forall|c: int| 0 <= c < cols@.len() ==> #[trigger] cols@[c] < pv.len(),
                lo <= sj <= j <= r < n,
                !lex_lt(pv, indices@[sj]@, cols@),
                forall|m: int| j < m <= r ==> !lex_lt((#[trigger] indices@[m])@, pv, cols@),
                !first ==> j < r,
            decreases j - sj,
        {
            proof {
                lemma_lex_asym(pv, indices@[j as int]@, cols@, 0);
            }
            j = j - 1;
        }
        if i >= j {
            return (j, Ghost(perm), Ghost(pv));
        }
        let ghost before = indices@;
        let ghost pi = perm[i as int];
        let ghost pj = perm[j as int];
        swap_block(indices, values, i, j);
        proof {
            let old_perm = perm;
            perm = perm.update(i as int, pj).update(j as int, pi);
            assert forall|m: int, c: int| 0 <= m < n && 0 <= c < cols@.len() implies #[trigger] cols@[c] < (
            #[trigger] indices@[m])@.len() by {
                if m == i {
                    assert(indices@[m] == before[j as int]);
                } else if m == j {
                    assert(indices@[m] == before[i as int]);
                } else {
                    assert(indices@[m] == before[m]);
                }
            }
            assert forall|a: int, b: int| 0 <= a < n && 0 <= b < n && a != b implies #[trigger] perm[a] != #[trigger] perm[b] by {
                let a0 = if a == i { j as int } else if a == j { i as int } else { a };
                let b0 = if b == i { j as int } else if b == j { i as int } else { b };
                assert(perm[a] == old_perm[a0] && perm[b] == old_perm[b0]);
                assert(a0 != b0);
            }
            si = j as int;
            sj = i as int;
            first = false;
        }
        i = i + 1;
        j = j - 1;
    }
}

/// Whether rows `lo..hi` are each at most the next under the key `cols`.
pub open spec fn sorted_within(rows: Seq<Vec<usize>>, cols: Seq<usize>, lo: int, hi: int) -> bool {
    forall|m: int| lo <= m < hi - 1 ==> lex_le((#[trigger] rows[m])@, rows[m + 1]@, cols)
}

proof fn lemma_identity_perm(n: nat, lo: int, hi: int)
    requires
        0 <= lo <= hi <= n,
    ensures
        perm_within(Seq::new(n, |k: int| k), n, lo, hi),
{
}

proof fn lemma_compose(p1: Seq<int>, p2: Seq<int>, n: nat, lo: int, hi: int, lo2: int, hi2: int)
    requires
        perm_within(p1, n, lo, hi),
        perm_within(p2, n, lo2, hi2),
        0 <= lo <= lo2 <= hi2 <= hi <= n,
    ensures
        perm_within(Seq::new(n, |k: int| p1[p2[k]]), n, lo, hi),
{
    let q = Seq::new(n, |k: int| p1[p2[k]]);
    assert forall|a: int, b: int| 0 <= a < n && 0 <= b < n && a != b implies #[trigger] q[a] != #[trigger] q[b] by {
        assert(p2[a] != p2[b]);
    }
    assert forall|k: int| 0 <= k < n && !(lo <= k < hi) implies #[trigger] q[k] == k by {
        assert(p2[k] == k);
    }
    assert forall|k: int| lo <= k < hi implies lo <= #[trigger] q[k] < hi by {
        if lo2 <= k < hi2 {
            assert(lo2 <= p2[k] < hi2);
        } else {
            assert(p2[k] == k);
        }
    }
}

/// Sorts rows `lo..hi` under the key `cols` by quicksort, moving the blocks of
/// `values` along; the other rows stay where they are.
fn quicksort(indices: &mut Vec<Vec<usize>>, values: &mut Vec<Vec<i64>>, cols: &Vec<usize>, lo: usize, hi: usize) -> (res: Ghost<Seq<int>>)
    requires
        lo <= hi <= old(indices)@.len(),
        old(values)@.len() == old(indices)@.len(),
        key_fits(old(indices)@, cols@),
    ensures
        final(indices)@.len() == old(indices)@.len(),
        final(values)@.len() == old(values)@.len(),
        key_fits(final(indices)@, cols@),
        perm_within(res@, old(indices)@.len(), lo as int, hi as int),
        permuted(final(indices)@, old(indices)@, res@),
        permuted(final(values)@, old(values)@, res@),
        sorted_within(final(indices)@, cols@, lo as int, hi as int),
    decreases hi - lo,
{
    let n = indices.len();
    if hi - lo < 2 {
        proof {
            lemma_identity_perm(n as nat, lo as int, hi as int);
        }
        return Ghost(Seq::new(n as nat, |k: int| k));
    }
    let ghost s0 = indices@;
    let ghost v0 = values@;
    let (j, p1, pv) = partition(indices, values, cols, lo, hi - 1);
    let ghost s1 = indices@;
    let ghost v1 = values@;
    let p2 = quicksort(indices, values, cols, lo, j + 1);
    let ghost s2 = indices@;
    let ghost v2 = values@;
    let p3 = quicksort(indices, values, cols, j + 1, hi);
    let ghost s3 = indices@;
    let ghost q = Seq::new(n as nat, |k: int| p1@[p2@[p3@[k]]]);
    proof {
        let nn = n as nat;
        lemma_compose(p2@, p3@, nn, lo as int, hi as int, j + 1, hi as int);
        let q23 = Seq::new(nn, |k: int| p2@[p3@[k]]);
        assert(perm_within(p2@, nn, lo as int, hi as int));
        lemma_compose(p1@, q23, nn, lo as int, hi as int, lo as int, hi as int);
        assert(q =~= Seq::new(nn, |k: int| p1@[q23[k]]));
        assert forall|k: int| 0 <= k < n implies #[trigger] indices@[k] == s0[q[k]] && values@[k] == v0[q[k]] by {
            assert(indices@[k] == s2[p3@[k]]);
            assert(s2[p3@[k]] == s1[p2@[p3@[k]]]);
            assert(values@[k] == v2[p3@[k]]);
            assert(v2[p3@[k]] == v1[p2@[p3@[k]]]);
        }
        // The left part stays at most the pivot, the right part at least it.
        assert forall|m: int| lo <= m <= j implies !lex_lt(pv@, (#[trigger] s3[m])@, cols@) by {
            assert(p3@[m] == m);
            assert(s3[m] == s2[m]);
            assert(lo <= p2@[m] < j + 1);
            assert(s2[m] == s1[p2@[m]]);
        }
        assert forall|m: int| j < m < hi implies !lex_lt((#[trigger] s3[m])@, pv@, cols@) by {
            let x = p3@[m];
            assert(j + 1 <= x < hi);
            assert(p2@[x] == x);
            assert(s3[m] == s2[x]);
            assert(s2[x] == s1[x]);
        }
        assert forall|m: int| lo <= m < hi - 1 implies lex_le((#[trigger] s3[m])@, s3[m + 1]@, cols@) by {
            if m < j {
                assert(p3@[m] == m && p3@[m + 1] == m + 1);
                assert(s3[m] == s2[m] && s3[m + 1] == s2[m + 1]);
            } else if m == j {
                crate::reference::lemma_le_transitive(s3[m]@, pv@, s3[m + 1]@, cols@, 0);
            }
        }
    }
    Ghost(q)
}

/// Whether the rows of `indices` are each at most the next under the key `cols`.
fn rows_are_sorted(indices: &Vec<Vec<usize>>, cols: &Vec<usize>) -> (r: bool)
    requires
        key_fits(indices@, cols@),
    ensures
        r == sorted_within(indices@, cols@, 0, indices@.len() as int),
{
    let n = indices.len();
    if n < 2 {
        return true;
    }
    let mut m: usize = 0;
    while m + 1 < n
        invariant
            n == indices@.len(),
            n >= 2,
            m + 1 <= n,
            key_fits(indices@, cols@),
            forall|k: int| 0 <= k < m ==> lex_le((#[trigger] indices@[k])@, indices@[k + 1]@, cols@),
        decreases n - m,
    {
        if index_less_than(cols, &indices[m + 1], &indices[m]) {
            return false;
        }
        m = m + 1;
    }
    true
}

proof fn lemma_le_refl_sort(a: Seq<usize>, cols: Seq<usize>, i: int)
    requires
        0 <= i,
    ensures
        !lex_lt_from(a, a, cols, i),
    decreases cols.len() - i,
{
    if i < cols.len() {
        lemma_le_refl_sort(a, cols, i + 1);
    }
}

/// Sorts the rows of `indices` under the key `cols`, moving the blocks of `values` along.
///
/// Rows that are already sorted stay as they are; others are sorted by quicksort,
/// partitioned Hoare's way around the middle row.
pub fn sort_rows(indices: &mut Vec<Vec<usize>>, values: &mut Vec<Vec<i64>>, cols: &Vec<usize>)
    requires
        old(values)@.len() == old(indices)@.len(),
        cols_fit(rows_view(old(indices)@), cols@),
    ensures
        final(indices)@.len() == old(indices)@.len(),
        final(values)@.len() == old(values)@.len(),
        rows_sorted(rows_view(final(indices)@), cols@),
        exists|p: Seq<int>|
            is_permutation(p, old(indices)@.len()) && permuted(final(indices)@, old(indices)@, p)
                && permuted(final(values)@, old(values)@, p),
        rows_sorted(rows_view(old(indices)@), cols@) ==> final(indices)@
            == old(indices)@ && final(values)@ == old(values)@,
{
    let ghost old_rows = indices@;
    let ghost old_vals = values@;
    let n = indices.len();
    proof {
        assert forall|m: int, c: int| 0 <= m < n && 0 <= c < cols@.len() implies #[trigger] cols@[c] < (
        #[trigger] old_rows[m])@.len() by {
            assert(rows_view(old_rows)[m] == old_rows[m]@);
        }
    }
    if rows_are_sorted(indices, cols) {
        proof {
            lemma_identity_perm(n as nat, 0, n as int);
            let id = Seq::new(n as nat, |k: int| k);
            assert(permuted(indices@, old_rows, id));
            assert(permuted(values@, old_vals, id));
            assert forall|m: int| 0 <= m < n - 1 implies lex_le(#[trigger] rows_view(indices@)[m], rows_view(indices@)[m + 1], cols@) by {
                assert(rows_view(indices@)[m] == indices@[m]@);
                assert(rows_view(indices@)[m + 1] == indices@[m + 1]@);
            }
        }
        return;
    }
    let p = quicksort(indices, values, cols, 0, n);
    proof {
        assert(permuted(indices@, old_rows, p@));
        assert forall|m: int| 0 <= m < n - 1 implies lex_le(#[trigger] rows_view(indices@)[m], rows_view(indices@)[m + 1], cols@) by {
            assert(rows_view(indices@)[m] == indices@[m]@);
            assert(rows_view(indices@)[m + 1] == indices@[m + 1]@);
        }
        if rows_sorted(rows_view(old_rows), cols@) {
            assert forall|m: int| 0 <= m < n - 1 implies lex_le((#[trigger] old_rows[m])@, old_rows[m + 1]@, cols@) by {
                assert(rows_view(old_rows)[m] == old_rows[m]@);
                assert(rows_view(old_rows)[m + 1] == old_rows[m + 1]@);
            }
            assert(false);
        }
    }
}

/// The column of each axis of `order` among the sparse axes `sparse`.
pub open spec fn key_columns(order: Seq<AxisModel>, sparse: Seq<AxisModel>) -> Seq<usize> {
    Seq::new(
        order.len(),
        |i: int| (choose|c: int| is_first_position(sparse, order[i].id, c)) as usize,
    )
}

/// Whether `order` names each of the sparse axes `sparse` once, by identity.
pub open spec fn is_sort_key(order: Seq<AxisModel>, sparse: Seq<AxisModel>) -> bool {
    &&& order.len() == sparse.len()
    &&& forall|i: int| 0 <= i < order.len() ==> has_axis(sparse, #[trigger] order[i].id)
    &&& forall|i: int, j: int|
        0 <= i < order.len() && 0 <= j < order.len() && i != j ==> #[trigger] order[i].id
            != #[trigger] order[j].id
}

/// What a sort of `before` under the key `order` leaves in `after`.
pub open spec fn sort_post(before: COOTensor, after: COOTensor, order: Seq<AxisModel>) -> bool {
    let cols = key_columns(order, before.sparse_view());
    &&& after.wf()
    &&& rows_sorted(after.rows(), cols)
    &&& after.order_view() == order
    &&& after.sparse_is_sorted
    &&& exists|p: Seq<int>|
        is_permutation(p, before.indices@.len()) && permuted(after.indices@, before.indices@, p)
            && permuted(after.values@, before.values@, p)
    &&& rows_sorted(before.rows(), cols) ==> after.indices@ == before.indices@ && after.values@
        == before.values@
    &&& after.name == before.name
    &&& after.shape == before.shape
    &&& after.sparse_axes == before.sparse_axes
    &&& after.dense_axes == before.dense_axes
}

/// Whether the sort flag of `t` tells the truth: when it is set, the sort order
/// names each sparse axis once and the rows are sorted under it.
pub open spec fn sort_state_ok(t: COOTensor) -> bool {
    t.sparse_is_sorted ==> is_sort_key(t.order_view(), t.sparse_view()) && rows_sorted(
        t.rows(),
        key_columns(t.order_view(), t.sparse_view()),
    )
}

/// Why a sort was refused.
#[derive(Clone, Copy, Debug, PartialEq, Eq, Structural)]
pub enum SortError {
    /// The key does not name each sparse axis of the tensor exactly once.
    OrderNotPermutation,
}

/// The columns of the axes of `order` among `sparse`, when `order` is a sort key.
fn sort_columns(order: &[Axis], sparse: &[Axis]) -> (r: Option<Vec<usize>>)
    ensures
        r.is_some() == is_sort_key(axes_view(order@), axes_view(sparse@)),
        r.is_some() ==> r.unwrap()@ == key_columns(axes_view(order@), axes_view(sparse@)),
        r.is_some() ==> forall|c: int| 0 <= c < r.unwrap()@.len() ==> #[trigger] r.unwrap()@[c] < sparse@.len(),
{
    let ghost ov = axes_view(order@);
    let ghost sv = axes_view(sparse@);
    if order.len() != sparse.len() {
        return None;
    }
    let found = map_axes_ok(order, sparse);
    let mut cols: Vec<usize> = Vec::new();
    let mut i: usize = 0;
    while i < found.len()
        invariant
            found@.len() == order@.len(),
            ov == axes_view(order@),
            sv == axes_view(sparse@),
            i <= found@.len(),
            cols@.len() == i,
            forall|j: int|
                0 <= j < order@.len() ==> match #[trigger] found@[j] {
                    Some(p) => is_first_position(sv, order@[j].id, p as int),
                    None => !has_axis(sv, order@[j].id),
                },
            forall|j: int| 0 <= j < i ==> is_first_position(sv, ov[j].id, #[trigger] cols@[j] as int),
        decreases found@.len() - i,
    {
        match found[i] {
            Some(p) => cols.push(p),
            None => {
                assert(!has_axis(sv, ov[i as int].id));
                return None;
            },
        }
        i = i + 1;
    }
    let mut a: usize = 0;
    while a < order.len()
        invariant
            ov == axes_view(order@),
            a <= order@.len(),
            forall|x: int, y: int|
                0 <= x < a && 0 <= y < order@.len() && x != y ==> #[trigger] ov[x].id != #[trigger] ov[y].id,
        decreases order@.len() - a,
    {
        let mut b: usize = 0;
        while b < order.len()
            invariant
                ov == axes_view(order@),
                a < order@.len(),
                b <= order@.len(),
                forall|x: int, y: int|
                    0 <= x < a && 0 <= y < order@.len() && x != y ==> #[trigger] ov[x].id != #[trigger] ov[y].id,
                forall|y: int| 0 <= y < b && a != y ==> ov[a as int].id != #[trigger] ov[y].id,
            decreases order@.len() - b,
        {
            if a != b && order[a].same_as(&order[b]) {
                assert(ov[a as int].id == ov[b as int].id);
                return None;
            }
            b = b + 1;
        }
        a = a + 1;
    }
    proof {
        assert forall|j: int| 0 <= j < ov.len() implies has_axis(sv, #[trigger] ov[j].id) by {
            assert(sv[cols@[j] as int].id == ov[j].id);
        }
        let kc = key_columns(ov, sv);
        assert forall|j: int| 0 <= j < cols@.len() implies cols@[j] == #[trigger] kc[j] by {
            let c = choose|c: int| is_first_position(sv, ov[j].id, c);
            assert(is_first_position(sv, ov[j].id, cols@[j] as int));
            lemma_first_position_unique(sv, ov[j].id, c, cols@[j] as int);
        }
        assert(cols@ =~= kc);
    }
    Some(cols)
}

/// Sorts the blocks of `tensor` under the key `order`, most significant axis first,
/// and records `order` as the tensor's sort order.
pub fn sort_tensor(tensor: &mut COOTensor, order: &[Axis]) -> (res: Result<(), SortError>)
    requires
        old(tensor).wf(),
    ensures
        match res {
            Ok(()) => is_sort_key(axes_view(order@), old(tensor).sparse_view()) && sort_post(
                *old(tensor),
                *final(tensor),
                axes_view(order@),
            ) && sort_state_ok(*final(tensor)),
            Err(e) => !is_sort_key(axes_view(order@), old(tensor).sparse_view()) && *final(tensor)
                == *old(tensor),
        },
{
    let cols = match sort_columns(order, tensor.sparse_axes.as_slice()) {
        Some(c) => c,
        None => {
            return Err(SortError::OrderNotPermutation);
        },
    };
    let ghost before = *tensor;
    proof {
        assert forall|m: int, c: int|
            0 <= m < before.rows().len() && 0 <= c < cols@.len() implies #[trigger] cols@[c] < (
        #[trigger] before.rows()[m]).len() by {
            assert(before.rows()[m] == before.indices@[m]@);
            assert(row_in_range(before.indices@[m]@, before.sparse_view()));
        }
    }
    sort_rows(&mut tensor.indices, &mut tensor.values, &cols);
    tensor.sparse_sort_order = copy_axes(order);
    tensor.sparse_is_sorted = true;
    proof {
        let p = choose|p: Seq<int>|
            is_permutation(p, before.indices@.len()) && permuted(tensor.indices@, before.indices@, p)
                && permuted(tensor.values@, before.values@, p);
        assert forall|m: int| 0 <= m < tensor.indices@.len() implies row_in_range(
            #[trigger] tensor.indices@[m]@,
            tensor.sparse_view(),
        ) by {
            assert(tensor.indices@[m] == before.indices@[p[m]]);
        }
        assert forall|m: int| 0 <= m < tensor.values@.len() implies (
        #[trigger] tensor.values@[m])@.len() == tensor.block_len() by {
            assert(tensor.values@[m] == before.values@[p[m]]);
        }
    }
    Ok(())
}

/// Sorting twice under the same key gives what sorting once gives.
pub proof fn lemma_sort_idempotent(
    t0: COOTensor,
    t1: COOTensor,
    t2: COOTensor,
    order: Seq<AxisModel>,
)
    requires
        sort_post(t0, t1, order),
        sort_post(t1, t2, order),
    ensures
        t2.indices@ == t1.indices@,
        t2.values@ == t1.values@,
        t2.order_view() == t1.order_view(),
        t2.sparse_is_sorted == t1.sparse_is_sorted,
{
}

/// Sorts a tensor's blocks in place.
pub struct SortCOOTensor<'a> {
    pub order: &'a [Axis],
}

impl<'a> SortCOOTensor<'a> {
    /// A sort under the key `order`, most significant axis first.
    pub fn new(order: &'a [Axis]) -> (r: SortCOOTensor<'a>)
        ensures
            r.order == order,
    {
        SortCOOTensor { order }
    }

    /// Sorts `tensor`; see [`sort_tensor`].
    pub fn execute(self, tensor: &mut COOTensor) -> (res: Result<(), SortError>)
        requires
            old(tensor).wf(),
        ensures
            match res {
                Ok(()) => is_sort_key(axes_view(self.order@), old(tensor).sparse_view()) && sort_post(
                    *old(tensor),
                    *final(tensor),
                    axes_view(self.order@),
                ) && sort_state_ok(*final(tensor)),
                Err(e) => !is_sort_key(axes_view(self.order@), old(tensor).sparse_view())
                    && *final(tensor) == *old(tensor),
            },
    {
        sort_tensor(tensor, self.order)
    }
}

} // verus!
