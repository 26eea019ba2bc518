use pattie::axis::{Axis, AxisBuilder, AxisIds};
use pattie::fiber::group_fibers;
use pattie::sort::{SortCOOTensor, SortError};
use pattie::tensor::COOTensor;
use pattie::ttm::{COOTensorMulDenseMatrix, SemiCOOTensorMulDenseMatrix, TtmError};

fn axis(ids: &mut AxisIds, upper: usize) -> Axis {
    AxisBuilder::new().range(0..upper).build(ids)
}

fn sparse_tensor(shape: &[Axis], entries: &[(&[usize], i64)]) -> COOTensor {
    let mask = vec![false; shape.len()];
    let mut t = COOTensor::zeros(shape, &mask);
    for (index, value) in entries {
        t.push_block(index, &[*value]);
    }
    t
}

fn dense_matrix(rows: &Axis, cols: &Axis, values: &[i64]) -> COOTensor {
    let mut m = COOTensor::zeros(&[rows.clone(), cols.clone()], &[true, true]);
    m.push_block(&[], values);
    m
}

fn sorted(mut t: COOTensor, order: &[Axis]) -> COOTensor {
    SortCOOTensor::new(order).execute(&mut t).unwrap();
    t
}

struct Smallest {
    a: COOTensor,
    b: COOTensor,
    axes: Vec<Axis>,
    free: Axis,
}

fn smallest_contraction() -> Smallest {
    let mut ids = AxisIds::new();
    let axes = vec![axis(&mut ids, 2), axis(&mut ids, 3), axis(&mut ids, 2)];
    let free = axis(&mut ids, 2);
    let a = sparse_tensor(&axes, &[(&[0, 0, 0], 1), (&[1, 2, 1], 2)]);
    let a = sorted(a, &[axes[0].clone(), axes[2].clone(), axes[1].clone()]);
    let b = dense_matrix(&axes[1], &free, &[1, 1, 1, 1, 1, 1]);
    Smallest { a, b, axes, free }
}

#[test]
fn smallest_contraction_values() {
    let s = smallest_contraction();
    let c = COOTensorMulDenseMatrix::new(&s.a, &s.b).execute().unwrap();
    let sizes: Vec<usize> = c.shape().iter().map(|x| x.size()).collect();
    assert_eq!(sizes, vec![2, 2, 2]);
    assert!(c.shape()[1] == s.free);
    assert!(c.shape()[0] == s.axes[0]);
    assert!(c.shape()[2] == s.axes[2]);
    assert_eq!(c.indices, vec![vec![0, 0], vec![1, 1]]);
    assert_eq!(c.values, vec![vec![1, 1], vec![2, 2]]);
    assert!(c.sparse_sort_order().is_some());
    assert_eq!(c.dense_axes().len(), 1);
    assert!(c.dense_axes()[0] == s.free);
    assert!(c.num_blocks() <= s.a.num_blocks());
}

#[test]
fn fiber_merge() {
    let mut ids = AxisIds::new();
    let axes = vec![axis(&mut ids, 2), axis(&mut ids, 2), axis(&mut ids, 3)];
    let free = axis(&mut ids, 1);
    let a = sparse_tensor(&axes, &[(&[0, 0, 0], 1), (&[0, 0, 1], 1), (&[0, 0, 2], 1)]);
    let a = sorted(a, &axes);
    let (rows, offsets) = group_fibers(&a.indices, 3, 2);
    assert_eq!(rows, vec![vec![0, 0]]);
    assert_eq!(offsets, vec![0, 3]);
    let b = dense_matrix(&axes[2], &free, &[1, 1, 1]);
    let c = COOTensorMulDenseMatrix::new(&a, &b).execute().unwrap();
    assert_eq!(c.values, vec![vec![3]]);
}

#[test]
fn no_merge() {
    let mut ids = AxisIds::new();
    let axes = vec![axis(&mut ids, 2), axis(&mut ids, 2), axis(&mut ids, 3)];
    let free = axis(&mut ids, 1);
    let a = sparse_tensor(&axes, &[(&[0, 0, 0], 1), (&[0, 1, 0], 1), (&[1, 0, 0], 1)]);
    let a = sorted(a, &axes);
    let (rows, offsets) = group_fibers(&a.indices, 3, 2);
    assert_eq!(rows.len(), 3);
    assert_eq!(offsets, vec![0, 1, 2, 3]);
    let b = dense_matrix(&axes[2], &free, &[1, 1, 1]);
    let c = COOTensorMulDenseMatrix::new(&a, &b).execute().unwrap();
    assert_eq!(c.values, vec![vec![1], vec![1], vec![1]]);
}

#[test]
fn semi_sparse_common_axis_dense() {
    let mut ids = AxisIds::new();
    let axes = vec![axis(&mut ids, 2), axis(&mut ids, 3), axis(&mut ids, 4)];
    let free = axis(&mut ids, 2);
    let mut a = COOTensor::zeros(&axes, &[false, false, true]);
    a.push_block(&[0, 0], &[1, 2, 3, 4]);
    let a = sorted(a, &[axes[0].clone(), axes[1].clone()]);
    let b = dense_matrix(&axes[2], &free, &[1, 0, 0, 1, 1, 1, 0, 0]);
    let r = SemiCOOTensorMulDenseMatrix::new(&a, &b).execute();
    assert!(matches!(r, Err(TtmError::CommonAxisNotFound)));
    let unrelated = axis(&mut ids, 3);
    let b = dense_matrix(&unrelated, &free, &[1, 0, 0, 1, 1, 1]);
    let r = SemiCOOTensorMulDenseMatrix::new(&a, &b).execute();
    assert!(matches!(r, Err(TtmError::CommonAxisNotFound)));
}

#[test]
fn semi_sparse_product() {
    let mut ids = AxisIds::new();
    let axes = vec![axis(&mut ids, 2), axis(&mut ids, 3), axis(&mut ids, 4)];
    let free = axis(&mut ids, 2);
    let mut a = COOTensor::zeros(&axes, &[false, false, true]);
    a.push_block(&[0, 2], &[1, 2, 3, 4]);
    let a = sorted(a, &[axes[0].clone(), axes[1].clone()]);
    let b = dense_matrix(&axes[1], &free, &[1, 0, 0, 1, 1, 1]);
    let c = SemiCOOTensorMulDenseMatrix::new(&a, &b).execute().unwrap();
    assert_eq!(c.indices, vec![vec![0]]);
    assert_eq!(c.values, vec![vec![1, 1, 2, 2, 3, 3, 4, 4]]);
    assert_eq!(c.dense_axes().len(), 2);
    assert!(c.dense_axes()[0] == axes[2]);
    assert!(c.dense_axes()[1] == free);
    let r = COOTensorMulDenseMatrix::new(&a, &b).execute();
    assert!(matches!(r, Err(TtmError::TensorNotFullySparse)));
}

#[test]
fn sort_order_mismatch() {
    let s = smallest_contraction();
    let mut a = s.a.clone();
    SortCOOTensor::new(&[s.axes[1].clone(), s.axes[0].clone(), s.axes[2].clone()])
        .execute(&mut a)
        .unwrap();
    let r = COOTensorMulDenseMatrix::new(&a, &s.b).execute();
    assert!(matches!(r, Err(TtmError::NotSortedAlongCommonAxis)));
    SortCOOTensor::new(&[s.axes[0].clone(), s.axes[2].clone(), s.axes[1].clone()])
        .execute(&mut a)
        .unwrap();
    assert!(COOTensorMulDenseMatrix::new(&a, &s.b).execute().is_ok());
}

#[test]
fn parallel_equals_serial() {
    let s = smallest_contraction();
    let serial = COOTensorMulDenseMatrix::new(&s.a, &s.b).execute().unwrap();
    let mut op = COOTensorMulDenseMatrix::new(&s.a, &s.b);
    op.multi_thread = true;
    let parallel = op.execute().unwrap();
    assert_eq!(serial.values, parallel.values);
    assert_eq!(serial.indices, parallel.indices);
    let mut op = SemiCOOTensorMulDenseMatrix::new(&s.a, &s.b);
    op.multi_thread = true;
    let semi = op.execute().unwrap();
    assert_eq!(semi.values, serial.values);
}

#[test]
fn repeated_products_agree() {
    let s = smallest_contraction();
    let first = COOTensorMulDenseMatrix::new(&s.a, &s.b).execute().unwrap();
    let second = COOTensorMulDenseMatrix::new(&s.a, &s.b).execute().unwrap();
    assert_eq!(first.values, second.values);
    assert_eq!(first.indices, second.indices);
}

#[test]
fn unsorted_tensor_is_refused() {
    let s = smallest_contraction();
    let mut a = s.a.clone();
    a.push_block(&[1, 0, 0], &[5]);
    let r = COOTensorMulDenseMatrix::new(&a, &s.b).execute();
    assert!(matches!(r, Err(TtmError::TensorNotSorted)));
}

#[test]
fn matrix_shape_errors() {
    let s = smallest_contraction();
    let mut ids = AxisIds::new();
    ids.next = 1000;
    let third = axis(&mut ids, 2);
    let m3 = COOTensor::zeros(&[s.axes[1].clone(), s.free.clone(), third], &[true, true, true]);
    let r = COOTensorMulDenseMatrix::new(&s.a, &m3).execute();
    assert!(matches!(r, Err(TtmError::MatrixNotTwoAxes)));
    let empty = COOTensor::zeros(&[s.axes[1].clone(), s.free.clone()], &[true, true]);
    let r = COOTensorMulDenseMatrix::new(&s.a, &empty).execute();
    assert!(matches!(r, Err(TtmError::MatrixNotDense)));
    let both = dense_matrix(&s.axes[1], &s.axes[0], &[1, 1, 1, 1, 1, 1]);
    let r = COOTensorMulDenseMatrix::new(&s.a, &both).execute();
    assert!(matches!(r, Err(TtmError::MultipleCommonAxes)));
    let mut moved = s.axes[1].clone();
    moved.lower = 1;
    moved.upper = 4;
    let shifted = dense_matrix(&moved, &s.free, &[1, 1, 1, 1, 1, 1]);
    let r = COOTensorMulDenseMatrix::new(&s.a, &shifted).execute();
    assert!(matches!(r, Err(TtmError::CommonAxisRangeMismatch)));
}

#[test]
fn sort_orders_rows_and_moves_values() {
    let mut ids = AxisIds::new();
    let axes = vec![axis(&mut ids, 3), axis(&mut ids, 3)];
    let a = sparse_tensor(&axes, &[(&[2, 0], 1), (&[0, 2], 2), (&[1, 1], 3), (&[0, 1], 4)]);
    let a = sorted(a, &axes);
    assert_eq!(a.indices, vec![vec![0, 1], vec![0, 2], vec![1, 1], vec![2, 0]]);
    assert_eq!(a.values, vec![vec![4], vec![2], vec![3], vec![1]]);
    let b = sorted(a.clone(), &[axes[1].clone(), axes[0].clone()]);
    assert_eq!(b.indices, vec![vec![2, 0], vec![0, 1], vec![1, 1], vec![0, 2]]);
    assert_eq!(b.values, vec![vec![1], vec![4], vec![3], vec![2]]);
    let order = b.sparse_sort_order().unwrap();
    assert!(order[0] == axes[1] && order[1] == axes[0]);
}

#[test]
fn sort_twice_is_sort_once() {
    let mut ids = AxisIds::new();
    let axes = vec![axis(&mut ids, 3), axis(&mut ids, 3)];
    let a = sparse_tensor(&axes, &[(&[2, 0], 1), (&[0, 2], 2), (&[1, 1], 3), (&[0, 2], 4)]);
    let once = sorted(a, &axes);
    let twice = sorted(once.clone(), &axes);
    assert_eq!(once.indices, twice.indices);
    assert_eq!(once.values, twice.values);
}

#[test]
fn sort_key_must_name_each_sparse_axis() {
    let mut ids = AxisIds::new();
    let axes = vec![axis(&mut ids, 3), axis(&mut ids, 3)];
    let mut a = sparse_tensor(&axes, &[(&[2, 0], 1), (&[0, 2], 2)]);
    let r = SortCOOTensor::new(&[axes[0].clone(), axes[0].clone()]).execute(&mut a);
    assert_eq!(r, Err(SortError::OrderNotPermutation));
    let r = SortCOOTensor::new(&[axes[0].clone()]).execute(&mut a);
    assert_eq!(r, Err(SortError::OrderNotPermutation));
    assert_eq!(a.indices, vec![vec![2, 0], vec![0, 2]]);
    assert!(a.sparse_sort_order().is_none());
}

#[test]
fn empty_and_single_block_sort() {
    let mut ids = AxisIds::new();
    let axes = vec![axis(&mut ids, 3), axis(&mut ids, 3)];
    let mut a = COOTensor::zeros(&axes, &[false, false]);
    SortCOOTensor::new(&axes).execute(&mut a).unwrap();
    assert_eq!(a.num_blocks(), 0);
    a.push_block(&[1, 2], &[7]);
    SortCOOTensor::new(&axes).execute(&mut a).unwrap();
    assert_eq!(a.indices, vec![vec![1, 2]]);
}

#[test]
fn fiber_grouping_structure() {
    let indices = vec![vec![0, 0, 1], vec![0, 0, 2], vec![0, 1, 0], vec![1, 1, 0], vec![1, 1, 2]];
    let (rows, offsets) = group_fibers(&indices, 3, 2);
    assert_eq!(rows, vec![vec![0, 0], vec![0, 1], vec![1, 1]]);
    assert_eq!(offsets, vec![0, 2, 3, 5]);
    let (rows, offsets) = group_fibers(&Vec::new(), 3, 2);
    assert!(rows.is_empty());
    assert_eq!(offsets, vec![0]);
}

#[test]
fn wrapping_accumulation() {
    let mut ids = AxisIds::new();
    let axes = vec![axis(&mut ids, 1), axis(&mut ids, 2)];
    let free = axis(&mut ids, 1);
    let a = sparse_tensor(&axes, &[(&[0, 0], i64::MAX), (&[0, 1], 1)]);
    let a = sorted(a, &axes);
    let b = dense_matrix(&axes[1], &free, &[1, 1]);
    let c = COOTensorMulDenseMatrix::new(&a, &b).execute().unwrap();
    assert_eq!(c.values, vec![vec![i64::MIN]]);
}

#[test]
fn product_matches_dense_scatter() {
    let mut ids = AxisIds::new();
    let axes = vec![axis(&mut ids, 3), axis(&mut ids, 4), axis(&mut ids, 2)];
    let free = axis(&mut ids, 3);
    let entries: Vec<(Vec<usize>, i64)> = vec![
        (vec![2, 3, 1], 5),
        (vec![0, 1, 0], -2),
        (vec![2, 0, 1], 7),
        (vec![1, 2, 1], 3),
        (vec![0, 3, 0], 4),
        (vec![2, 2, 0], -6),
        (vec![0, 0, 1], 9),
    ];
    let borrowed: Vec<(&[usize], i64)> = entries.iter().map(|(i, v)| (i.as_slice(), *v)).collect();
    let a = sparse_tensor(&axes, &borrowed);
    let a = sorted(a, &[axes[2].clone(), axes[0].clone(), axes[1].clone()]);
    let b_values: Vec<i64> = (0..12).map(|x| x * 3 - 7).collect();
    let b = dense_matrix(&axes[1], &free, &b_values);
    let c = COOTensorMulDenseMatrix::new(&a, &b).execute().unwrap();
    // The plain scatter into a dense accumulator over the two other axes.
    let mut acc = vec![vec![0i64; 3]; 3 * 2];
    let mut present = vec![false; 3 * 2];
    for (index, value) in &entries {
        let cell = index[0] * 2 + index[2];
        present[cell] = true;
        for col in 0..3 {
            acc[cell][col] = acc[cell][col].wrapping_add(value.wrapping_mul(b_values[index[1] * 3 + col]));
        }
    }
    let cells: Vec<usize> = c.indices.iter().map(|row| row[0] * 2 + row[1]).collect();
    assert_eq!(cells.len(), present.iter().filter(|p| **p).count());
    for (f, cell) in cells.iter().enumerate() {
        assert!(present[*cell]);
        assert_eq!(c.values[f], acc[*cell]);
    }
    let mut distinct = cells.clone();
    distinct.sort();
    distinct.dedup();
    assert_eq!(distinct.len(), cells.len());
}

#[test]
fn two_mode_pipeline() {
    let s = smallest_contraction();
    let c = COOTensorMulDenseMatrix::new(&s.a, &s.b).execute().unwrap();
    let order = vec![s.axes[0].clone(), s.axes[2].clone()];
    let mut c = c;
    SortCOOTensor::new(&order).execute(&mut c).unwrap();
    let mut ids = AxisIds::new();
    ids.next = 500;
    let free2 = axis(&mut ids, 1);
    let b2 = dense_matrix(&s.axes[2], &free2, &[1, 1]);
    let d = SemiCOOTensorMulDenseMatrix::new(&c, &b2).execute().unwrap();
    assert_eq!(d.indices, vec![vec![0], vec![1]]);
    assert_eq!(d.values, vec![vec![1, 1], vec![2, 2]]);
    assert_eq!(d.dense_axes().len(), 2);
    assert!(d.shape()[2] == free2 && d.shape()[1] == s.free);
}

#[test]
fn sort_many_rows_with_ties() {
    let mut ids = AxisIds::new();
    let axes = vec![axis(&mut ids, 7), axis(&mut ids, 5), axis(&mut ids, 3)];
    let mut t = COOTensor::zeros(&axes, &[false, false, false]);
    let mut x: u64 = 12345;
    let mut expected: Vec<(Vec<usize>, i64)> = Vec::new();
    for v in 0..300i64 {
        x = x.wrapping_mul(6364136223846793005).wrapping_add(1442695040888963407);
        let row = vec![(x >> 33) as usize % 7, (x >> 40) as usize % 5, (x >> 50) as usize % 3];
        t.push_block(&row, &[v]);
        expected.push((row, v));
    }
    let order = vec![axes[2].clone(), axes[0].clone(), axes[1].clone()];
    let t = sorted(t, &order);
    let key = |r: &Vec<usize>| (r[2], r[0], r[1]);
    for m in 0..t.indices.len() - 1 {
        assert!(key(&t.indices[m]) <= key(&t.indices[m + 1]));
    }
    let mut got: Vec<(Vec<usize>, i64)> = t.indices.iter().cloned().zip(t.values.iter().map(|b| b[0])).collect();
    got.sort();
    expected.sort();
    assert_eq!(got, expected);
    let again = sorted(t.clone(), &order);
    assert_eq!(again.indices, t.indices);
    assert_eq!(again.values, t.values);
}
