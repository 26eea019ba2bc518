//! Dense matrices, held as tensors with two dense axes and a single block.
use crate::axis::{copy_axes, Axis, AxisBuilder, AxisIds, AxisModel};
use crate::tensor::{block_size_of, lemma_block_size_prefix, lemma_block_size_zero, COOTensor};
use vstd::prelude::*;

verus! {

/// Why a matrix could not be built.
#[derive(Clone, Copy, Debug, PartialEq, Eq, Structural)]
pub enum MatrixError {
    /// The number of values is not the product of the sizes of the two axes.
    WrongNumberOfValues,
}

/// Whether `m` is the dense matrix over `rows` and `cols` holding `values` in row-major order.
pub open spec fn is_dense_matrix(m: COOTensor, rows: AxisModel, cols: AxisModel, values: Seq<i64>) -> bool {
    &&& m.wf()
    &&& m.shape_view() == seq![rows, cols]
    &&& m.sparse_axes@.len() == 0
    &&& m.dense_view() == seq![rows, cols]
    &&& m.rows() == seq![Seq::<usize>::empty()]
    &&& m.blocks() == seq![values]
    &&& m.sparse_is_sorted
    &&& m.sparse_sort_order@.len() == 0
    &&& m.name.is_none()
}

/// A dense matrix over `shape`, whose values are drawn from a normal distribution
/// of mean `mean` and standard deviation `std_dev`.
pub struct CreateRandomDenseMatrix {
    pub shape: (Axis, Axis),
    pub mean: i64,
    pub std_dev: i64,
}

impl CreateRandomDenseMatrix {
    /// A matrix over `shape` with values drawn around `mean`.
    pub fn new(shape: (Axis, Axis), mean: i64, std_dev: i64) -> (r: CreateRandomDenseMatrix)
        ensures
            r.shape == shape,
            r.mean == mean,
            r.std_dev == std_dev,
    {
        CreateRandomDenseMatrix { shape, mean, std_dev }
    }

    /// The number of values to draw: the product of the sizes of the two axes.
    pub open spec fn num_values(&self) -> nat {
        self.shape.0@.size() * self.shape.1@.size()
    }

    /// Builds the matrix from `draws`, the drawn values in row-major order.
    pub fn execute(self, draws: Vec<i64>) -> (res: Result<COOTensor, MatrixError>)
        ensures
            res.is_ok() == (draws@.len() == self.num_values()),
            res matches Ok(m) ==> is_dense_matrix(m, self.shape.0@, self.shape.1@, draws@),
    {
        let count = draws.len();
        let rows = self.shape.0.size();
        let cols = self.shape.1.size();
        match rows.checked_mul(cols) {
            Some(n) => {
                if draws.len() != n {
                    return Err(MatrixError::WrongNumberOfValues);
                }
            },
            None => {
                return Err(MatrixError::WrongNumberOfValues);
            },
        }
        let ghost dv = draws@;
        let shape = vec![self.shape.0.duplicate(), self.shape.1.duplicate()];
        let dense = vec![self.shape.0.duplicate(), self.shape.1.duplicate()];
        let m = COOTensor {
            name: None,
            shape,
            sparse_axes: Vec::new(),
            dense_axes: dense,
            indices: vec![Vec::new()],
            values: vec![draws],
            sparse_is_sorted: true,
            sparse_sort_order: Vec::new(),
        };
        proof {
            let d = m.dense_view();
            assert(d =~= seq![self.shape.0@, self.shape.1@]);
            assert(d.drop_last().drop_last() =~= Seq::<AxisModel>::empty());
            assert(block_size_of(d.drop_last().drop_last()) == 1);
            assert(d.drop_last().last() == d[0]);
            assert(block_size_of(d.drop_last()) == 1 * d[0].size());
            assert(block_size_of(d) == block_size_of(d.drop_last()) * d.last().size());
            assert(m.block_len() == rows * cols);
            assert(m.shape_view() =~= seq![self.shape.0@, self.shape.1@]);
            assert(m.rows() =~= seq![Seq::<usize>::empty()]);
            assert(m.blocks() =~= seq![dv]);
            assert(m.indices@[0]@ =~= Seq::<usize>::empty());
        }
        Ok(m)
    }
}

/// The product of `dims`, if it fits in `usize`.
pub fn checked_product(dims: &[usize]) -> (r: Option<usize>)
    ensures
        r.is_some() == (dims_product(dims@) <= usize::MAX),
        r.is_some() ==> r.unwrap() == dims_product(dims@),
{
    let ghost a = dims_axes(dims@);
    proof {
        lemma_dims_product(dims@);
    }
    let mut i: usize = 0;
    while i < dims.len()
        invariant
            i <= dims@.len(),
            a == dims_axes(dims@),
            forall|j: int| 0 <= j < i ==> #[trigger] dims@[j] >= 1,
        decreases dims@.len() - i,
    {
        if dims[i] == 0 {
            proof {
                assert(a[i as int].size() == 0);
                lemma_block_size_zero(a, i as int);
            }
            return Some(0);
        }
        i = i + 1;
    }
    proof {
        assert forall|j: int| 0 <= j < a.len() implies #[trigger] a[j].size() >= 1 by {
            assert(dims@[j] >= 1);
        }
    }
    let mut p: usize = 1;
    let mut i: usize = 0;
    assert(a.subrange(0, 0) =~= Seq::<AxisModel>::empty());
    while i < dims.len()
        invariant
            i <= dims@.len(),
            a == dims_axes(dims@),
            forall|j: int| 0 <= j < a.len() ==> #[trigger] a[j].size() >= 1,
            p == block_size_of(a.subrange(0, i as int)),
        decreases dims@.len() - i,
    {
        proof {
            assert(a.subrange(0, i + 1).drop_last() =~= a.subrange(0, i as int));
            assert(a[i as int].size() == dims@[i as int]);
        }
        match p.checked_mul(dims[i]) {
            Some(q) => {
                p = q;
            },
            None => {
                proof {
                    lemma_block_size_prefix(a, i + 1);
                }
                return None;
            },
        }
        i = i + 1;
    }
    assert(a.subrange(0, dims@.len() as int) =~= a);
    Some(p)
}

/// Axes `0..dims[i]`, as models with no identity of interest.
pub open spec fn dims_axes(dims: Seq<usize>) -> Seq<AxisModel> {
    dims.map_values(|d: usize| AxisModel { id: 0, label: None, lower: 0, upper: d })
}

/// The number of values in a dense array of extents `dims`.
pub open spec fn dims_product(dims: Seq<usize>) -> nat {
    block_size_of(dims_axes(dims))
}

proof fn lemma_dims_product(dims: Seq<usize>)
    ensures
        forall|j: int| 0 <= j < dims.len() ==> #[trigger] dims_axes(dims)[j].size() == dims[j],
{
}

impl COOTensor {
    /// A dense tensor of extents `dims`, whose values are `values` in row-major
    /// order; each axis is `0..dims[i]` under a fresh identity from `ids`.
    pub fn from_dense(dims: &[usize], values: Vec<i64>, ids: &mut AxisIds) -> (res: Result<
        COOTensor,
        MatrixError,
    >)
        requires
            old(ids).has_room(dims@.len()),
        ensures
            res.is_ok() == (values@.len() == dims_product(dims@)),
            final(ids).next == old(ids).next + if res.is_ok() { dims@.len() } else { 0 },
            res matches Ok(t) ==> {
                &&& t.wf()
                &&& t.shape@.len() == dims@.len()
                &&& forall|i: int|
                    0 <= i < dims@.len() ==> (#[trigger] t.shape@[i]).id == old(ids).next + i
                        && t.shape@[i].lower == 0 && t.shape@[i].upper == dims@[i]
                        && t.shape@[i].label.is_none()
                &&& t.dense_view() == t.shape_view()
                &&& t.sparse_axes@.len() == 0
                &&& t.rows() == seq![Seq::<usize>::empty()]
                &&& t.blocks() == seq![values@]
                &&& t.sparse_is_sorted
                &&& t.sparse_sort_order@.len() == 0
                &&& t.name.is_none()
            },
    {
        let count = values.len();
        match checked_product(dims) {
            Some(n) => {
                if n != count {
                    return Err(MatrixError::WrongNumberOfValues);
                }
            },
            None => {
                return Err(MatrixError::WrongNumberOfValues);
            },
        }
        let ghost first = ids.next;
        let mut shape: Vec<Axis> = Vec::new();
        let mut i: usize = 0;
        while i < dims.len()
            invariant
                i <= dims@.len(),
                shape@.len() == i,
                ids.next == first + i,
                first + dims@.len() <= u64::MAX,
                forall|j: int|
                    0 <= j < i ==> (#[trigger] shape@[j]).id == first + j && shape@[j].lower == 0
                        && shape@[j].upper == dims@[j] && shape@[j].label.is_none(),
            decreases dims@.len() - i,
        {
            shape.push(AxisBuilder::new().range(0..dims[i]).build(ids));
            i = i + 1;
        }
        let ghost vv = values@;
        let t = COOTensor {
            name: None,
            shape: copy_axes(shape.as_slice()),
            sparse_axes: Vec::new(),
            dense_axes: shape,
            indices: vec![Vec::new()],
            values: vec![values],
            sparse_is_sorted: true,
            sparse_sort_order: Vec::new(),
        };
        proof {
            assert(t.dense_view().len() == dims@.len());
            assert forall|j: int| 0 <= j < dims@.len() implies (#[trigger] t.dense_view()[j]).size()
                == dims_axes(dims@)[j].size() by {
                assert(t.dense_view()[j] == t.dense_axes@[j]@);
            }
            lemma_same_sizes(t.dense_view(), dims_axes(dims@));
            assert(t.shape_view() == t.dense_view());
            assert forall|j: int| 0 <= j < dims@.len() implies (#[trigger] t.shape@[j]).id == first + j
                && t.shape@[j].lower == 0 && t.shape@[j].upper == dims@[j] && t.shape@[j].label.is_none() by {
                assert(t.shape_view()[j] == t.shape@[j]@);
                assert(t.dense_view()[j] == t.dense_axes@[j]@);
            }
            assert(t.rows() =~= seq![Seq::<usize>::empty()]);
            assert(t.blocks() =~= seq![vv]);
            assert(t.indices@[0]@ =~= Seq::<usize>::empty());
        }
        Ok(t)
    }
}

/// Axes of the same sizes have the same block size.
pub proof fn lemma_same_sizes(a: Seq<AxisModel>, b: Seq<AxisModel>)
    requires
        a.len() == b.len(),
        forall|j: int| 0 <= j < a.len() ==> #[trigger] a[j].size() == b[j].size(),
    ensures
        block_size_of(a) == block_size_of(b),
    decreases a.len(),
{
    if a.len() > 0 {
        let da = a.drop_last();
        let db = b.drop_last();
        assert forall|j: int| 0 <= j < da.len() implies #[trigger] da[j].size() == db[j].size() by {
            assert(da[j] == a[j] && db[j] == b[j]);
        }
        lemma_same_sizes(da, db);
    }
}

} // verus!
