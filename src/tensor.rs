//! The coordinate-format tensor.
//!
//! Axes of the shape are split into sparse and dense ones. Each stored block
//! has one row of sparse coordinates and one dense block of values, laid out
//! in row-major order over the dense axes.
use crate::axis::{axes_view, has_axis, position_of, Axis, AxisModel};
use vstd::prelude::*;

verus! {

/// The sequences held by a vector of index rows.
pub open spec fn rows_view(v: Seq<Vec<usize>>) -> Seq<Seq<usize>> {
    v.map_values(|r: Vec<usize>| r@)
}

/// The sequences held by a vector of value blocks.
pub open spec fn blocks_view(v: Seq<Vec<i64>>) -> Seq<Seq<i64>> {
    v.map_values(|b: Vec<i64>| b@)
}

/// Number of values in one dense block over `axes`: the product of their sizes.
pub open spec fn block_size_of(axes: Seq<AxisModel>) -> nat
    decreases axes.len(),
{
    if axes.len() == 0 {
        1
    } else {
        block_size_of(axes.drop_last()) * axes.last().size()
    }
}

/// The axes of `shape` whose flag in `mask` equals `want`, in order.
pub open spec fn select_axes(shape: Seq<AxisModel>, mask: Seq<bool>, want: bool) -> Seq<AxisModel>
    decreases shape.len(),
{
    if shape.len() == 0 || mask.len() != shape.len() {
        Seq::empty()
    } else if mask.last() == want {
        select_axes(shape.drop_last(), mask.drop_last(), want).push(shape.last())
    } else {
        select_axes(shape.drop_last(), mask.drop_last(), want)
    }
}

/// Whether every coordinate of `row` lies in the range of its axis.
pub open spec fn row_in_range(row: Seq<usize>, axes: Seq<AxisModel>) -> bool {
    &&& row.len() == axes.len()
    &&& forall|c: int| 0 <= c < row.len() ==> #[trigger] axes[c].contains(row[c])
}

/// A sparse tensor in coordinate form.
#[derive(Clone, Debug)]
pub struct COOTensor {
    pub name: Option<String>,
    /// The logical shape.
    pub shape: Vec<Axis>,
    /// The sparse axes; column `c` of each index row is a coordinate on `sparse_axes[c]`.
    pub sparse_axes: Vec<Axis>,
    /// The dense axes, in the order of the layout of each block.
    pub dense_axes: Vec<Axis>,
    /// One row of sparse coordinates for each block.
    pub indices: Vec<Vec<usize>>,
    /// One dense block of values for each row of `indices`.
    pub values: Vec<Vec<i64>>,
    /// Whether the rows are sorted under `sparse_sort_order`.
    pub sparse_is_sorted: bool,
    /// The key of the sort, most significant axis first.
    pub sparse_sort_order: Vec<Axis>,
}

impl COOTensor {
    pub open spec fn shape_view(&self) -> Seq<AxisModel> {
        axes_view(self.shape@)
    }

    pub open spec fn sparse_view(&self) -> Seq<AxisModel> {
        axes_view(self.sparse_axes@)
    }

    pub open spec fn dense_view(&self) -> Seq<AxisModel> {
        axes_view(self.dense_axes@)
    }

    pub open spec fn order_view(&self) -> Seq<AxisModel> {
        axes_view(self.sparse_sort_order@)
    }

    /// The index rows as sequences.
    pub open spec fn rows(&self) -> Seq<Seq<usize>> {
        rows_view(self.indices@)
    }

    /// The value blocks as sequences.
    pub open spec fn blocks(&self) -> Seq<Seq<i64>> {
        blocks_view(self.values@)
    }

    /// Number of values in each block.
    pub open spec fn block_len(&self) -> nat {
        block_size_of(self.dense_view())
    }

    /// The storage invariant.
    pub open spec fn wf(&self) -> bool {
        &&& self.shape@.len() == self.sparse_axes@.len() + self.dense_axes@.len()
        &&& self.block_len() <= usize::MAX
        &&& self.indices@.len() == self.values@.len()
        &&& forall|m: int|
            0 <= m < self.indices@.len() ==> row_in_range(
                #[trigger] self.indices@[m]@,
                self.sparse_view(),
            )
        &&& forall|m: int|
            0 <= m < self.values@.len() ==> (#[trigger] self.values@[m])@.len()
                == self.block_len()
    }

    /// An empty tensor over `shape`; the axes flagged in `is_axis_dense` are dense.
    pub fn zeros(shape: &[Axis], is_axis_dense: &[bool]) -> (r: COOTensor)
        requires
            shape@.len() == is_axis_dense@.len(),
            block_size_of(select_axes(axes_view(shape@), is_axis_dense@, true)) <= usize::MAX,
        ensures
            r.wf(),
            r.name.is_none(),
            r.shape_view() == axes_view(shape@),
            r.sparse_view() == select_axes(axes_view(shape@), is_axis_dense@, false),
            r.dense_view() == select_axes(axes_view(shape@), is_axis_dense@, true),
            r.order_view() == r.sparse_view(),
            r.indices@.len() == 0,
            r.values@.len() == 0,
            r.sparse_is_sorted,
    {
        let ghost sv = axes_view(shape@);
        let mut full: Vec<Axis> = Vec::new();
        let mut sparse_axes: Vec<Axis> = Vec::new();
        let mut dense_axes: Vec<Axis> = Vec::new();
        let mut order: Vec<Axis> = Vec::new();
        let mut i: usize = 0;
        while i < shape.len()
            invariant
                i <= shape@.len(),
                shape@.len() == is_axis_dense@.len(),
                sv == axes_view(shape@),
                axes_view(full@) == sv.subrange(0, i as int),
                axes_view(sparse_axes@) == select_axes(
                    sv.subrange(0, i as int),
                    is_axis_dense@.subrange(0, i as int),
                    false,
                ),
                axes_view(dense_axes@) == select_axes(
                    sv.subrange(0, i as int),
                    is_axis_dense@.subrange(0, i as int),
                    true,
                ),
                axes_view(order@) == axes_view(sparse_axes@),
                full@.len() == sparse_axes@.len() + dense_axes@.len(),
            decreases shape@.len() - i,
        {
            let ghost s0 = sv.subrange(0, i as int);
            let ghost m0 = is_axis_dense@.subrange(0, i as int);
            assert(sv.subrange(0, i + 1).drop_last() =~= s0);
            assert(is_axis_dense@.subrange(0, i + 1).drop_last() =~= m0);
            full.push(shape[i].duplicate());
            if is_axis_dense[i] {
                dense_axes.push(shape[i].duplicate());
            } else {
                sparse_axes.push(shape[i].duplicate());
                order.push(shape[i].duplicate());
            }
            i = i + 1;
            assert(axes_view(full@) =~= sv.subrange(0, i as int));
            assert(axes_view(dense_axes@) =~= select_axes(
                sv.subrange(0, i as int),
                is_axis_dense@.subrange(0, i as int),
                true,
            ));
            assert(axes_view(sparse_axes@) =~= select_axes(
                sv.subrange(0, i as int),
                is_axis_dense@.subrange(0, i as int),
                false,
            ));
            assert(axes_view(order@) =~= axes_view(sparse_axes@));
        }
        assert(sv.subrange(0, shape@.len() as int) =~= sv);
        assert(is_axis_dense@.subrange(0, shape@.len() as int) =~= is_axis_dense@);
        COOTensor {
            name: None,
            shape: full,
            sparse_axes,
            dense_axes,
            indices: Vec::new(),
            values: Vec::new(),
            sparse_is_sorted: true,
            sparse_sort_order: order,
        }
    }

    /// The name of the tensor, if it has one.
    pub fn name(&self) -> (r: Option<&str>)
        ensures
            r.is_some() == self.name.is_some(),
            r.is_some() ==> r.unwrap()@ == self.name.unwrap()@,
    {
        match &self.name {
            Some(s) => Some(s.as_str()),
            None => None,
        }
    }

    /// The number of axes.
    pub fn ndim(&self) -> (r: usize)
        ensures
            r == self.shape@.len(),
    {
        self.shape.len()
    }

    /// The logical shape.
    pub fn shape(&self) -> (r: &[Axis])
        ensures
            r@ == self.shape@,
    {
        self.shape.as_slice()
    }

    /// The sparse axes.
    pub fn sparse_axes(&self) -> (r: &[Axis])
        ensures
            r@ == self.sparse_axes@,
    {
        self.sparse_axes.as_slice()
    }

    /// The dense axes.
    pub fn dense_axes(&self) -> (r: &[Axis])
        ensures
            r@ == self.dense_axes@,
    {
        self.dense_axes.as_slice()
    }

    /// The sort key of the rows when they are sorted, else nothing.
    pub fn sparse_sort_order(&self) -> (r: Option<&[Axis]>)
        ensures
            r.is_some() == self.sparse_is_sorted,
            r.is_some() ==> r.unwrap()@ == self.sparse_sort_order@,
    {
        if self.sparse_is_sorted {
            Some(self.sparse_sort_order.as_slice())
        } else {
            None
        }
    }

    /// Forgets that the rows are sorted.
    pub fn clear_sparse_sort_order(&mut self)
        ensures
            !final(self).sparse_is_sorted,
            final(self).name == old(self).name,
            final(self).shape == old(self).shape,
            final(self).sparse_axes == old(self).sparse_axes,
            final(self).dense_axes == old(self).dense_axes,
            final(self).indices == old(self).indices,
            final(self).values == old(self).values,
            final(self).sparse_sort_order == old(self).sparse_sort_order,
    {
        self.sparse_is_sorted = false;
    }

    /// The number of stored blocks.
    pub fn num_blocks(&self) -> (r: usize)
        ensures
            r == self.indices@.len(),
    {
        self.indices.len()
    }

    /// The number of values in each block: the product of the sizes of the dense axes.
    pub fn block_size(&self) -> (r: usize)
        requires
            self.wf(),
        ensures
            r == self.block_len(),
    {
        dense_block_size(self.dense_axes.as_slice())
    }

    /// The number of stored values, zeros inside dense blocks included.
    pub fn num_non_zeros(&self) -> (r: usize)
        requires
            self.wf(),
            self.indices@.len() * self.block_len() <= usize::MAX,
        ensures
            r == self.indices@.len() * self.block_len(),
    {
        self.indices.len() * self.block_size()
    }

    /// Appends one block with sparse coordinates `sparse_index` and dense values `block`.
    pub fn push_block(&mut self, sparse_index: &[usize], block: &[i64])
        requires
            old(self).wf(),
            row_in_range(sparse_index@, old(self).sparse_view()),
            block@.len() == old(self).block_len(),
        ensures
            final(self).wf(),
            final(self).rows() == old(self).rows().push(sparse_index@),
            final(self).blocks() == old(self).blocks().push(block@),
            !final(self).sparse_is_sorted,
            final(self).name == old(self).name,
            final(self).shape == old(self).shape,
            final(self).sparse_axes == old(self).sparse_axes,
            final(self).dense_axes == old(self).dense_axes,
            final(self).sparse_sort_order == old(self).sparse_sort_order,
    {
        self.clear_sparse_sort_order();
        let row = copy_slice(sparse_index);
        let vals = copy_slice(block);
        self.indices.push(row);
        self.values.push(vals);
        assert(self.rows() =~= old(self).rows().push(sparse_index@));
        assert(self.blocks() =~= old(self).blocks().push(block@));
    }
}

/// Copies a slice into a new vector.
pub fn copy_slice<T: Copy>(s: &[T]) -> (r: Vec<T>)
    ensures
        r@ == s@,
{
    let mut r: Vec<T> = Vec::new();
    let mut i: usize = 0;
    while i < s.len()
        invariant
            i <= s@.len(),
            r@ == s@.subrange(0, i as int),
        decreases s@.len() - i,
    {
        r.push(s[i]);
        i = i + 1;
        assert(r@ =~= s@.subrange(0, i as int));
    }
    assert(s@.subrange(0, s@.len() as int) =~= s@);
    r
}

/// A zero factor makes the whole product zero.
pub proof fn lemma_block_size_zero(axes: Seq<AxisModel>, i: int)
    requires
        0 <= i < axes.len(),
        axes[i].size() == 0,
    ensures
        block_size_of(axes) == 0,
    decreases axes.len(),
{
    let d = axes.drop_last();
    let x = block_size_of(d);
    let y = axes.last().size();
    assert(block_size_of(axes) == x * y);
    if i < axes.len() - 1 {
        assert(d[i] == axes[i]);
        lemma_block_size_zero(d, i);
        assert(x * y == 0) by (nonlinear_arith)
            requires
                x == 0,
        ;
    } else {
        assert(x * y == 0) by (nonlinear_arith)
            requires
                y == 0,
        ;
    }
}

/// With no zero factor, the product of a prefix does not exceed the product of the whole.
pub proof fn lemma_block_size_prefix(axes: Seq<AxisModel>, i: int)
    requires
        0 <= i <= axes.len(),
        forall|j: int| 0 <= j < axes.len() ==> #[trigger] axes[j].size() >= 1,
    ensures
        block_size_of(axes.subrange(0, i)) <= block_size_of(axes),
    decreases axes.len(),
{
    if i < axes.len() {
        let d = axes.drop_last();
        assert(d.subrange(0, i) =~= axes.subrange(0, i));
        assert forall|j: int| 0 <= j < d.len() implies #[trigger] d[j].size() >= 1 by {
            assert(d[j] == axes[j]);
        }
        lemma_block_size_prefix(d, i);
        let a = block_size_of(d);
        let b = axes.last().size();
        assert(a <= a * b) by (nonlinear_arith)
            requires
                b >= 1,
        ;
    } else {
        assert(axes.subrange(0, i) =~= axes);
    }
}

/// The product of the sizes of `axes`.
pub fn dense_block_size(axes: &[Axis]) -> (r: usize)
    requires
        block_size_of(axes_view(axes@)) <= usize::MAX,
    ensures
        r == block_size_of(axes_view(axes@)),
{
    let ghost v = axes_view(axes@);
    let mut i: usize = 0;
    while i < axes.len()
        invariant
            i <= axes@.len(),
            v == axes_view(axes@),
            forall|j: int| 0 <= j < i ==> #[trigger] v[j].size() >= 1,
        decreases axes@.len() - i,
    {
        if axes[i].size() == 0 {
            proof {
                lemma_block_size_zero(v, i as int);
            }
            return 0;
        }
        i = i + 1;
    }
    let mut p: usize = 1;
    let mut i: usize = 0;
    proof {
        assert(v.subrange(0, 0) =~= Seq::<AxisModel>::empty());
    }
    while i < axes.len()
        invariant
            i <= axes@.len(),
            v == axes_view(axes@),
            forall|j: int| 0 <= j < axes@.len() ==> #[trigger] v[j].size() >= 1,
            p == block_size_of(v.subrange(0, i as int)),
            block_size_of(v) <= usize::MAX,
        decreases axes@.len() - i,
    {
        proof {
            assert(v.subrange(0, i + 1).drop_last() =~= v.subrange(0, i as int));
            lemma_block_size_prefix(v, i + 1);
        }
        p = p * axes[i].size();
        i = i + 1;
    }
    proof {
        assert(v.subrange(0, axes@.len() as int) =~= v);
    }
    p
}

/// Why a block could not be added.
#[derive(Clone, Copy, Debug, PartialEq, Eq, Structural)]
pub enum PushError {
    /// The index does not have one coordinate for each sparse axis.
    WrongIndexLength,
    /// A coordinate lies outside the range of its axis.
    IndexOutOfRange,
    /// The block does not have one value for each dense position.
    WrongBlockSize,
}

/// The error adding the block `block` at `index` to `t` gives, if any.
pub open spec fn push_error(t: COOTensor, index: Seq<usize>, block: Seq<i64>) -> Option<PushError> {
    if index.len() != t.sparse_axes@.len() {
        Some(PushError::WrongIndexLength)
    } else if !row_in_range(index, t.sparse_view()) {
        Some(PushError::IndexOutOfRange)
    } else if block.len() != t.block_len() {
        Some(PushError::WrongBlockSize)
    } else {
        None
    }
}

impl COOTensor {
    /// Appends one block, or says why it does not fit and leaves the tensor as it is.
    pub fn try_push_block(&mut self, sparse_index: &[usize], block: &[i64]) -> (res: Result<(), PushError>)
        requires
            old(self).wf(),
        ensures
            match res {
                Ok(()) => {
                    &&& push_error(*old(self), sparse_index@, block@).is_none()
                    &&& final(self).wf()
                    &&& final(self).rows() == old(self).rows().push(sparse_index@)
                    &&& final(self).blocks() == old(self).blocks().push(block@)
                    &&& !final(self).sparse_is_sorted
                    &&& final(self).name == old(self).name
                    &&& final(self).shape == old(self).shape
                    &&& final(self).sparse_axes == old(self).sparse_axes
                    &&& final(self).dense_axes == old(self).dense_axes
                    &&& final(self).sparse_sort_order == old(self).sparse_sort_order
                },
                Err(e) => push_error(*old(self), sparse_index@, block@) == Some(e) && *final(self)
                    == *old(self),
            },
    {
        if sparse_index.len() != self.sparse_axes.len() {
            return Err(PushError::WrongIndexLength);
        }
        let mut c: usize = 0;
        while c < sparse_index.len()
            invariant
                sparse_index@.len() == self.sparse_axes@.len(),
                c <= sparse_index@.len(),
                forall|j: int| 0 <= j < c ==> #[trigger] self.sparse_view()[j].contains(sparse_index@[j]),
            decreases sparse_index@.len() - c,
        {
            let axis = &self.sparse_axes[c];
            if sparse_index[c] < axis.lower || sparse_index[c] >= axis.upper {
                assert(!self.sparse_view()[c as int].contains(sparse_index@[c as int]));
                return Err(PushError::IndexOutOfRange);
            }
            c = c + 1;
        }
        if block.len() != self.block_size() {
            return Err(PushError::WrongBlockSize);
        }
        self.push_block(sparse_index, block);
        Ok(())
    }

    /// Whether the tensor keeps its storage invariant, has its sparse and dense axes
    /// in its shape, and holds no more values than `usize` counts.
    pub fn is_well_formed(&self) -> (r: bool)
        ensures
            r == (self.wf() && crate::iter::axes_in_shape(*self) && self.indices@.len() * self.block_len()
                <= usize::MAX),
    {
        let s = self.sparse_axes.len();
        let n = self.shape.len();
        if s > n || n - s != self.dense_axes.len() {
            return false;
        }
        let ghost dv = self.dense_view();
        let mut sizes: Vec<usize> = Vec::new();
        let mut e: usize = 0;
        while e < self.dense_axes.len()
            invariant
                e <= self.dense_axes@.len(),
                dv == self.dense_view(),
                sizes@.len() == e,
                forall|j: int| 0 <= j < e ==> #[trigger] sizes@[j] == dv[j].size(),
            decreases self.dense_axes@.len() - e,
        {
            sizes.push(self.dense_axes[e].size());
            e = e + 1;
        }
        proof {
            let da = crate::matrix::dims_axes(sizes@);
            assert forall|j: int| 0 <= j < da.len() implies #[trigger] da[j].size() == dv[j].size() by {
                assert(da[j].size() == sizes@[j]);
            }
            crate::matrix::lemma_same_sizes(da, dv);
        }
        let p = match crate::matrix::checked_product(sizes.as_slice()) {
            Some(p) => p,
            None => {
                return false;
            },
        };
        if self.indices.len() != self.values.len() {
            return false;
        }
        if self.indices.len().checked_mul(p).is_none() {
            return false;
        }
        let mut m: usize = 0;
        while m < self.indices.len()
            invariant
                m <= self.indices@.len(),
                s == self.sparse_axes@.len(),
                forall|j: int| 0 <= j < m ==> row_in_range(#[trigger] self.indices@[j]@, self.sparse_view()),
            decreases self.indices@.len() - m,
        {
            let row = &self.indices[m];
            if row.len() != s {
                return false;
            }
            let mut c: usize = 0;
            while c < s
                invariant
                    m < self.indices@.len(),
                    row@ == self.indices@[m as int]@,
                    row@.len() == s,
                    s == self.sparse_axes@.len(),
                    c <= s,
                    forall|j: int| 0 <= j < c ==> #[trigger] self.sparse_view()[j].contains(row@[j]),
                decreases s - c,
            {
                let axis = &self.sparse_axes[c];
                if row[c] < axis.lower || row[c] >= axis.upper {
                    assert(!self.sparse_view()[c as int].contains(row@[c as int]));
                    return false;
                }
                c = c + 1;
            }
            m = m + 1;
        }
        let mut m: usize = 0;
        while m < self.values.len()
            invariant
                m <= self.values@.len(),
                p == self.block_len(),
                forall|j: int| 0 <= j < m ==> (#[trigger] self.values@[j])@.len() == self.block_len(),
            decreases self.values@.len() - m,
        {
            if self.values[m].len() != p {
                return false;
            }
            m = m + 1;
        }
        let mut c: usize = 0;
        while c < s
            invariant
                s == self.sparse_axes@.len(),
                c <= s,
                forall|j: int| 0 <= j < c ==> has_axis(self.shape_view(), #[trigger] self.sparse_view()[j].id),
            decreases s - c,
        {
            match position_of(self.shape.as_slice(), &self.sparse_axes[c]) {
                Some(_) => {},
                None => {
                    assert(self.sparse_view()[c as int].id == self.sparse_axes@[c as int].id);
                    assert(!has_axis(self.shape_view(), self.sparse_view()[c as int].id));
                    return false;
                },
            }
            c = c + 1;
        }
        let mut e: usize = 0;
        while e < self.dense_axes.len()
            invariant
                e <= self.dense_axes@.len(),
                forall|j: int| 0 <= j < e ==> has_axis(self.shape_view(), #[trigger] self.dense_view()[j].id),
            decreases self.dense_axes@.len() - e,
        {
            match position_of(self.shape.as_slice(), &self.dense_axes[e]) {
                Some(_) => {},
                None => {
                    assert(self.dense_view()[e as int].id == self.dense_axes@[e as int].id);
                    assert(!has_axis(self.shape_view(), self.dense_view()[e as int].id));
                    return false;
                },
            }
            e = e + 1;
        }
        true
    }
}

} // verus!
