//! Walking over every stored value of a tensor with its logical index.
//!
//! Blocks come in order; inside a block the dense positions come in row-major
//! order over the dense axes. The logical index of a value holds the block's
//! sparse coordinates at the places of the sparse axes in the shape, and the
//! dense coordinates, offset by each dense axis's lower bound, at the places of
//! the dense axes.
use crate::axis::{axes_view, has_axis, is_first_position, lemma_first_position_unique, map_axes_unwrap, AxisModel};
use crate::tensor::{block_size_of, lemma_block_size_zero, COOTensor};
use vstd::arithmetic::div_mod::{lemma_div_denominator, lemma_fundamental_div_mod_converse, lemma_mod_bound};
use vstd::prelude::*;

verus! {

/// Number of dense positions spanned by one step of axis `i - 1`: the product of
/// the sizes of `axes[i..]`.
pub open spec fn trailing_size(axes: Seq<AxisModel>, i: int) -> nat
    decreases axes.len() - i,
{
    if i < 0 || i >= axes.len() {
        1
    } else {
        axes[i].size() * trailing_size(axes, i + 1)
    }
}

/// The dense coordinates of position `q` of a block over `axes`, row-major.
pub open spec fn dense_coords(axes: Seq<AxisModel>, q: int) -> Seq<usize> {
    Seq::new(
        axes.len(),
        |e: int| (axes[e].lower + (q / trailing_size(axes, e + 1) as int) % axes[e].size() as int) as usize,
    )
}

/// `base` with `vals[i]` written at `pos[i]`, for each `i < n` in turn.
pub open spec fn scatter(base: Seq<usize>, pos: Seq<int>, vals: Seq<usize>, n: int) -> Seq<usize>
    decreases n,
{
    if n <= 0 || n > pos.len() {
        base
    } else {
        scatter(base, pos, vals, n - 1).update(pos[n - 1], vals[n - 1])
    }
}

/// The place in `shape` of each of `axes`, by identity.
pub open spec fn places(axes: Seq<AxisModel>, shape: Seq<AxisModel>) -> Seq<int> {
    Seq::new(axes.len(), |i: int| choose|p: int| is_first_position(shape, axes[i].id, p))
}

/// Whether every sparse and dense axis of `t` is in its shape.
pub open spec fn axes_in_shape(t: COOTensor) -> bool {
    &&& forall|c: int| 0 <= c < t.sparse_axes@.len() ==> has_axis(t.shape_view(), #[trigger] t.sparse_view()[c].id)
    &&& forall|e: int| 0 <= e < t.dense_axes@.len() ==> has_axis(t.shape_view(), #[trigger] t.dense_view()[e].id)
}

/// The logical index of value `q` of block `m`.
pub open spec fn logical_index(t: COOTensor, m: int, q: int) -> Seq<usize> {
    let shape = t.shape_view();
    let with_sparse = scatter(
        Seq::new(shape.len(), |i: int| 0usize),
        places(t.sparse_view(), shape),
        t.rows()[m],
        t.sparse_axes@.len() as int,
    );
    scatter(with_sparse, places(t.dense_view(), shape), dense_coords(t.dense_view(), q), t.dense_axes@.len() as int)
}

/// The place of each of `axes` in `shape`.
fn places_of(axes: &[crate::axis::Axis], shape: &[crate::axis::Axis]) -> (r: Vec<usize>)
    requires
        forall|i: int| 0 <= i < axes@.len() ==> has_axis(axes_view(shape@), #[trigger] axes_view(axes@)[i].id),
    ensures
        r@.len() == axes@.len(),
        forall|i: int| 0 <= i < axes@.len() ==> (#[trigger] r@[i]) as int == places(axes_view(axes@), axes_view(shape@))[i],
        forall|i: int| 0 <= i < axes@.len() ==> #[trigger] r@[i] < shape@.len(),
{
    proof {
        assert forall|i: int| 0 <= i < axes@.len() implies has_axis(axes_view(shape@), #[trigger] axes@[i].id) by {
            assert(axes_view(axes@)[i].id == axes@[i].id);
        }
    }
    let r = map_axes_unwrap(axes, shape);
    proof {
        assert forall|i: int| 0 <= i < axes@.len() implies (#[trigger] r@[i]) as int == places(
            axes_view(axes@),
            axes_view(shape@),
        )[i] by {
            let v = axes_view(axes@);
            assert(v[i].id == axes@[i].id);
            let c = choose|p: int| is_first_position(axes_view(shape@), v[i].id, p);
            lemma_first_position_unique(axes_view(shape@), v[i].id, c, r@[i] as int);
        }
    }
    r
}

/// The coordinates of position `q` of a row-major block over `axes`, each offset by
/// its axis's lower bound.
pub fn position_coords(axes: &[crate::axis::Axis], q: usize) -> (r: Vec<usize>)
    requires
        q < block_size_of(axes_view(axes@)),
    ensures
        r@ == dense_coords(axes_view(axes@), q as int),
{
    let ghost v = axes_view(axes@);
    proof {
        assert forall|e: int| 0 <= e < v.len() implies #[trigger] v[e].size() > 0 by {
            if v[e].size() == 0 {
                lemma_block_size_zero(v, e);
            }
        }
    }
    let d = axes.len();
    let mut r: Vec<usize> = Vec::new();
    let mut z: usize = 0;
    while z < d
        invariant
            z <= d,
            d == axes@.len(),
            r@.len() == z,
        decreases d - z,
    {
        r.push(0);
        z = z + 1;
    }
    let mut rem: usize = q;
    let mut e: usize = d;
    assert(trailing_size(v, d as int) == 1);
    assert(q as int / 1 == q as int);
    while e > 0
        invariant
            e <= d,
            d == axes@.len(),
            v == axes_view(axes@),
            forall|x: int| 0 <= x < v.len() ==> #[trigger] v[x].size() > 0,
            r@.len() == d,
            rem as int == q as int / trailing_size(v, e as int) as int,
            forall|x: int| e <= x < d ==> #[trigger] r@[x] == dense_coords(v, q as int)[x],
        decreases e,
    {
        let size = axes[e - 1].size();
        let ghost t = trailing_size(v, e as int) as int;
        proof {
            assert(v[e - 1] == axes@[e - 1]@);
            assert(trailing_size(v, e - 1) == v[e - 1].size() * trailing_size(v, e as int));
            lemma_trailing_positive(v, e as int);
            lemma_div_denominator(q as int, t, size as int);
            lemma_mod_bound(rem as int, size as int);
        }
        let digit = rem % size;
        let coord = axes[e - 1].lower + digit;
        r.set(e - 1, coord);
        rem = rem / size;
        proof {
            assert(t * size == size * t) by (nonlinear_arith);
        }
        e = e - 1;
    }
    assert(r@ =~= dense_coords(v, q as int));
    r
}

proof fn lemma_trailing_positive(axes: Seq<AxisModel>, i: int)
    requires
        forall|x: int| 0 <= x < axes.len() ==> #[trigger] axes[x].size() > 0,
    ensures
        trailing_size(axes, i) > 0,
    decreases axes.len() - i,
{
    if 0 <= i < axes.len() {
        lemma_trailing_positive(axes, i + 1);
        let a = axes[i].size();
        let b = trailing_size(axes, i + 1);
        assert(a * b > 0) by (nonlinear_arith)
            requires
                a > 0,
                b > 0,
        ;
    }
}

/// `base` with `vals[i]` written at `pos[i]` for each `i`.
fn scatter_into(base: &mut Vec<usize>, pos: &Vec<usize>, vals: &Vec<usize>, n: usize)
    requires
        n <= pos@.len(),
        n <= vals@.len(),
        forall|i: int| 0 <= i < n ==> #[trigger] pos@[i] < old(base)@.len(),
    ensures
        final(base)@ == scatter(old(base)@, pos@.map_values(|p: usize| p as int), vals@, n as int),
        final(base)@.len() == old(base)@.len(),
{
    let ghost pv = pos@.map_values(|p: usize| p as int);
    let mut i: usize = 0;
    while i < n
        invariant
            i <= n,
            n <= pos@.len(),
            n <= vals@.len(),
            pv == pos@.map_values(|p: usize| p as int),
            base@.len() == old(base)@.len(),
            forall|i: int| 0 <= i < n ==> #[trigger] pos@[i] < old(base)@.len(),
            base@ == scatter(old(base)@, pv, vals@, i as int),
        decreases n - i,
    {
        base.set(pos[i], vals[i]);
        i = i + 1;
    }
}

impl COOTensor {
    /// Every stored value with its logical index: blocks in order, and inside a block
    /// the dense positions in row-major order. Entry `m * p + q`, where `p` is the
    /// block size, is value `q` of block `m`.
    pub fn iter(&self) -> (r: Vec<(Vec<usize>, i64)>)
        requires
            self.wf(),
            axes_in_shape(*self),
            self.indices@.len() * self.block_len() <= usize::MAX,
        ensures
            r@.len() == self.indices@.len() * self.block_len(),
            forall|t: int|
                0 <= t < r@.len() ==> {
                    let m = t / self.block_len() as int;
                    let q = t % self.block_len() as int;
                    &&& (#[trigger] r@[t]).0@ == logical_index(*self, m, q)
                    &&& r@[t].1 == self.blocks()[m][q]
                },
    {
        let n = self.shape.len();
        let p = self.block_size();
        let ghost pl = p as int;
        let sp = places_of(self.sparse_axes.as_slice(), self.shape.as_slice());
        let dp = places_of(self.dense_axes.as_slice(), self.shape.as_slice());
        let mut base: Vec<usize> = Vec::new();
        let mut z: usize = 0;
        while z < n
            invariant
                z <= n,
                base@ == Seq::new(z as nat, |i: int| 0usize),
            decreases n - z,
        {
            base.push(0);
            z = z + 1;
            assert(base@ =~= Seq::new(z as nat, |i: int| 0usize));
        }
        let mut out: Vec<(Vec<usize>, i64)> = Vec::new();
        let mut m: usize = 0;
        while m < self.indices.len()
            invariant
                self.wf(),
                axes_in_shape(*self),
                self.indices@.len() * self.block_len() <= usize::MAX,
                p == self.block_len(),
                pl == p,
                n == self.shape@.len(),
                base@ == Seq::new(n as nat, |i: int| 0usize),
                sp@.len() == self.sparse_axes@.len(),
                dp@.len() == self.dense_axes@.len(),
                forall|i: int| 0 <= i < sp@.len() ==> (#[trigger] sp@[i]) as int == places(self.sparse_view(), self.shape_view())[i],
                forall|i: int| 0 <= i < dp@.len() ==> (#[trigger] dp@[i]) as int == places(self.dense_view(), self.shape_view())[i],
                forall|i: int| 0 <= i < sp@.len() ==> #[trigger] sp@[i] < n,
                forall|i: int| 0 <= i < dp@.len() ==> #[trigger] dp@[i] < n,
                m <= self.indices@.len(),
                out@.len() == m * p,
                forall|t: int|
                    0 <= t < out@.len() ==> {
                        let mm = t / pl;
                        let qq = t % pl;
                        &&& (#[trigger] out@[t]).0@ == logical_index(*self, mm, qq)
                        &&& out@[t].1 == self.blocks()[mm][qq]
                    },
            decreases self.indices@.len() - m,
        {
            proof {
                assert(self.rows()[m as int] == self.indices@[m as int]@);
                assert(self.blocks()[m as int] == self.values@[m as int]@);
                assert(m * p + p <= self.indices@.len() * p) by (nonlinear_arith)
                    requires
                        m < self.indices@.len(),
                ;
                assert(m * p + p == (m + 1) * p) by (nonlinear_arith);
            }
            let mut q: usize = 0;
            while q < p
                invariant
                    self.wf(),
                    axes_in_shape(*self),
                    p == self.block_len(),
                    pl == p,
                    n == self.shape@.len(),
                    base@ == Seq::new(n as nat, |i: int| 0usize),
                    sp@.len() == self.sparse_axes@.len(),
                    dp@.len() == self.dense_axes@.len(),
                    forall|i: int| 0 <= i < sp@.len() ==> (#[trigger] sp@[i]) as int == places(self.sparse_view(), self.shape_view())[i],
                    forall|i: int| 0 <= i < dp@.len() ==> (#[trigger] dp@[i]) as int == places(self.dense_view(), self.shape_view())[i],
                    forall|i: int| 0 <= i < sp@.len() ==> #[trigger] sp@[i] < n,
                    forall|i: int| 0 <= i < dp@.len() ==> #[trigger] dp@[i] < n,
                    m < self.indices@.len(),
                    self.rows()[m as int] == self.indices@[m as int]@,
                    self.blocks()[m as int] == self.values@[m as int]@,
                    m * p + p <= usize::MAX,
                    q <= p,
                    out@.len() == m * p + q,
                    forall|t: int|
                        0 <= t < out@.len() ==> {
                            let mm = t / pl;
                            let qq = t % pl;
                            &&& (#[trigger] out@[t]).0@ == logical_index(*self, mm, qq)
                            &&& out@[t].1 == self.blocks()[mm][qq]
                        },
                decreases p - q,
            {
                let mut index = base.clone();
                proof {
                    assert(index@ == base@);
                }
                assert(self.indices@[m as int]@.len() == self.sparse_axes@.len());
                scatter_into(&mut index, &sp, &self.indices[m], self.sparse_axes.len());
                let coords = position_coords(self.dense_axes.as_slice(), q);
                scatter_into(&mut index, &dp, &coords, self.dense_axes.len());
                proof {
                    assert(sp@.map_values(|x: usize| x as int) =~= places(self.sparse_view(), self.shape_view()));
                    assert(dp@.map_values(|x: usize| x as int) =~= places(self.dense_view(), self.shape_view()));
                    assert(index@ == logical_index(*self, m as int, q as int));
                    lemma_fundamental_div_mod_converse((m * p + q) as int, pl, m as int, q as int);
                }
                let value = self.values[m][q];
                out.push((index, value));
                q = q + 1;
            }
            m = m + 1;
        }
        out
    }

    /// Replaces value `q` of block `m`, the value at entry `m * p + q` of
    /// [`COOTensor::iter`]; its logical index stays as it is.
    pub fn set_value(&mut self, m: usize, q: usize, value: i64)
        requires
            old(self).wf(),
            m < old(self).indices@.len(),
            q < old(self).block_len(),
        ensures
            final(self).wf(),
            final(self).blocks() == old(self).blocks().update(
                m as int,
                old(self).blocks()[m as int].update(q as int, value),
            ),
            final(self).indices == old(self).indices,
            final(self).name == old(self).name,
            final(self).shape == old(self).shape,
            final(self).sparse_axes == old(self).sparse_axes,
            final(self).dense_axes == old(self).dense_axes,
            final(self).sparse_is_sorted == old(self).sparse_is_sorted,
            final(self).sparse_sort_order == old(self).sparse_sort_order,
    {
        let mut block: Vec<i64> = Vec::new();
        self.values.set_and_swap(m, &mut block);
        proof {
            assert(block@ == old(self).values@[m as int]@);
        }
        block.set(q, value);
        self.values.set_and_swap(m, &mut block);
        proof {
            assert(self.blocks() =~= old(self).blocks().update(
                m as int,
                old(self).blocks()[m as int].update(q as int, value),
            ));
            assert forall|x: int| 0 <= x < self.values@.len() implies (#[trigger] self.values@[x])@.len()
                == self.block_len() by {
                if x != m as int {
                    assert(self.values@[x] == old(self).values@[x]);
                }
            }
        }
    }
}

} // verus!
