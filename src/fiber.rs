//! Grouping of sorted index rows into fibers.
//!
//! A fiber is a run of adjacent rows that agree on every column but the
//! common one. The grouping opens a new fiber at each row that differs from
//! the row that opened the current fiber.
use crate::tensor::rows_view;
use vstd::prelude::*;

verus! {

/// Whether `a` and `b` agree on every column but column `k`.
pub open spec fn eq_except(a: Seq<usize>, b: Seq<usize>, k: int) -> bool {
    &&& a.len() == b.len()
    &&& forall|c: int| 0 <= c < a.len() && c != k ==> #[trigger] a[c] == b[c]
}

/// The row `a` without its column `k`.
pub open spec fn remove_at(a: Seq<usize>, k: int) -> Seq<usize> {
    a.subrange(0, k) + a.subrange(k + 1, a.len() as int)
}

/// The rows among the first `n` of `rows` that open a fiber.
pub open spec fn fiber_openers(rows: Seq<Seq<usize>>, k: int, n: nat) -> Seq<int>
    decreases n,
{
    if n == 0 {
        Seq::empty()
    } else {
        let g = fiber_openers(rows, k, (n - 1) as nat);
        if g.len() == 0 || !eq_except(rows[n - 1], rows[g.last()], k) {
            g.push(n - 1)
        } else {
            g
        }
    }
}

/// The fiber offsets of `rows`: the opening row of each fiber, then the number of rows.
pub open spec fn fiber_offsets(rows: Seq<Seq<usize>>, k: int) -> Seq<int> {
    fiber_openers(rows, k, rows.len()).push(rows.len() as int)
}

/// Whether every row has `s` columns.
pub open spec fn rows_have_len(rows: Seq<Seq<usize>>, s: nat) -> bool {
    forall|m: int| 0 <= m < rows.len() ==> (#[trigger] rows[m]).len() == s
}

/// The fiber offsets start at zero, end at the number of rows and increase strictly;
/// each row agrees with the row that opens its fiber on every column but `k`,
/// and the rows that open two adjacent fibers differ outside column `k`.
pub proof fn lemma_fiber_offsets(rows: Seq<Seq<usize>>, k: int)
    ensures
        ({
            let o = fiber_offsets(rows, k);
            &&& o[0] == 0
            &&& o.last() == rows.len()
            &&& o.len() - 1 <= rows.len()
            &&& forall|f: int| 0 <= f < o.len() ==> 0 <= #[trigger] o[f] <= rows.len()
            &&& forall|f: int| 0 <= f < o.len() - 1 ==> #[trigger] o[f] < o[f + 1]
            &&& forall|f: int, m: int|
                0 <= f < o.len() - 1 && o[f] <= m < o[f + 1] ==> eq_except(
                    #[trigger] rows[m],
                    #[trigger] rows[o[f]],
                    k,
                )
            &&& forall|f: int|
                0 <= f < o.len() - 2 ==> !eq_except(#[trigger] rows[o[f + 1]], rows[o[f]], k)
        }),
{
    lemma_openers(rows, k, rows.len());
}

/// The shape of the openers among the first `n` rows.
proof fn lemma_openers(rows: Seq<Seq<usize>>, k: int, n: nat)
    requires
        n <= rows.len(),
    ensures
        ({
            let g = fiber_openers(rows, k, n);
            &&& n == 0 <==> g.len() == 0
            &&& g.len() <= n
            &&& n > 0 ==> g[0] == 0
            &&& forall|f: int| 0 <= f < g.len() ==> 0 <= #[trigger] g[f] < n
            &&& forall|f: int| 0 <= f < g.len() - 1 ==> #[trigger] g[f] < g[f + 1]
            &&& forall|f: int, m: int|
                0 <= f < g.len() - 1 && g[f] <= m < g[f + 1] ==> eq_except(
                    #[trigger] rows[m],
                    #[trigger] rows[g[f]],
                    k,
                )
            &&& forall|m: int|
                g.len() > 0 && g.last() <= m < n ==> eq_except(#[trigger] rows[m], rows[g.last()], k)
            &&& forall|f: int|
                0 <= f < g.len() - 1 ==> !eq_except(#[trigger] rows[g[f + 1]], rows[g[f]], k)
        }),
    decreases n,
{
    if n > 0 {
        lemma_openers(rows, k, (n - 1) as nat);
        let g0 = fiber_openers(rows, k, (n - 1) as nat);
        let g = fiber_openers(rows, k, n);
        if g0.len() == 0 || !eq_except(rows[n - 1], rows[g0.last()], k) {
            assert(g == g0.push(n - 1));
            assert forall|f: int, m: int|
                0 <= f < g.len() - 1 && g[f] <= m < g[f + 1] implies eq_except(
                #[trigger] rows[m],
                #[trigger] rows[g[f]],
                k,
            ) by {
                if f < g0.len() - 1 {
                    assert(g[f] == g0[f] && g[f + 1] == g0[f + 1]);
                } else {
                    assert(g[f] == g0.last());
                }
            }
            assert forall|f: int| 0 <= f < g.len() - 1 implies !eq_except(
                #[trigger] rows[g[f + 1]],
                rows[g[f]],
                k,
            ) by {
                if f < g0.len() - 1 {
                    assert(g[f] == g0[f] && g[f + 1] == g0[f + 1]);
                }
            }
        } else {
            assert(g == g0);
            assert(eq_except(rows[n - 1], rows[g0.last()], k));
        }
    }
}

/// Whether rows `a` and `b` agree on every column but column `k`.
pub fn index_eq_except_axis(indices: &Vec<Vec<usize>>, a: usize, b: usize, k: usize) -> (r: bool)
    requires
        a < indices@.len(),
        b < indices@.len(),
        indices@[a as int]@.len() == indices@[b as int]@.len(),
    ensures
        r == eq_except(indices@[a as int]@, indices@[b as int]@, k as int),
{
    let ra = &indices[a];
    let rb = &indices[b];
    let mut i: usize = ra.len();
    while i > 0
        invariant
            i <= ra@.len(),
            ra@.len() == rb@.len(),
            ra@ == indices@[a as int]@,
            rb@ == indices@[b as int]@,
            forall|c: int| i <= c < ra@.len() && c != k ==> #[trigger] ra@[c] == rb@[c],
        decreases i,
    {
        i = i - 1;
        if i != k && ra[i] != rb[i] {
            return false;
        }
    }
    true
}

/// The row `row` without its column `k`.
pub fn copy_index_except_axis(row: &Vec<usize>, k: usize) -> (r: Vec<usize>)
    requires
        k < row@.len(),
    ensures
        r@ == remove_at(row@, k as int),
{
    let mut r: Vec<usize> = Vec::new();
    let mut i: usize = 0;
    while i < row.len()
        invariant
            k < row@.len(),
            i <= row@.len(),
            i <= k ==> r@ == row@.subrange(0, i as int),
            i > k ==> r@ == row@.subrange(0, k as int) + row@.subrange(k + 1, i as int),
        decreases row@.len() - i,
    {
        if i != k {
            r.push(row[i]);
        }
        i = i + 1;
        assert(i <= k ==> r@ =~= row@.subrange(0, i as int));
        assert(i > k ==> r@ =~= row@.subrange(0, k as int) + row@.subrange(k + 1, i as int));
    }
    r
}

/// Groups the rows of `indices`, each of `num_axes` columns, into fibers along column `k`.
///
/// Returns the row of each fiber without column `k`, and the fiber offsets: fiber `f`
/// holds the rows from `offsets[f]` up to, not including, `offsets[f + 1]`.
pub fn group_fibers(indices: &Vec<Vec<usize>>, num_axes: usize, k: usize) -> (r: (
    Vec<Vec<usize>>,
    Vec<usize>,
))
    requires
        k < num_axes,
        rows_have_len(rows_view(indices@), num_axes as nat),
    ensures
        ({
            let rows = rows_view(indices@);
            let o = fiber_offsets(rows, k as int);
            &&& r.1@.len() == o.len()
            &&& forall|f: int| 0 <= f < o.len() ==> #[trigger] r.1@[f] as int == o[f]
            &&& r.0@.len() == o.len() - 1
            &&& forall|f: int|
                0 <= f < r.0@.len() ==> (#[trigger] r.0@[f])@ == remove_at(rows[o[f]], k as int)
        }),
{
    let ghost rows = rows_view(indices@);
    let n = indices.len();
    let mut out: Vec<Vec<usize>> = Vec::new();
    let mut offsets: Vec<usize> = Vec::new();
    let mut last: usize = 0;
    let mut i: usize = 0;
    while i < n
        invariant
            n == indices@.len(),
            rows == rows_view(indices@),
            rows_have_len(rows, num_axes as nat),
            k < num_axes,
            i <= n,
            offsets@.len() == fiber_openers(rows, k as int, i as nat).len(),
            forall|f: int|
                0 <= f < offsets@.len() ==> #[trigger] offsets@[f] as int == fiber_openers(
                    rows,
                    k as int,
                    i as nat,
                )[f],
            out@.len() == offsets@.len(),
            forall|f: int|
                0 <= f < out@.len() ==> (#[trigger] out@[f])@ == remove_at(
                    rows[offsets@[f] as int],
                    k as int,
                ),
            i > 0 ==> offsets@.len() > 0 && last as int == offsets@.last() && last < i,
        decreases n - i,
    {
        proof {
            lemma_openers(rows, k as int, i as nat);
            assert(rows[i as int] == indices@[i as int]@);
            if i > 0 {
                assert(rows[last as int] == indices@[last as int]@);
            }
        }
        let open_new = if i == 0 {
            true
        } else {
            !index_eq_except_axis(indices, last, i, k)
        };
        if open_new {
            out.push(copy_index_except_axis(&indices[i], k));
            offsets.push(i);
            last = i;
        }
        i = i + 1;
    }
    offsets.push(n);
    (out, offsets)
}

} // verus!
