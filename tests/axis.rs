use pattie::axis::{map_axes, map_axes_ok, map_axes_unwrap, AxisBuilder, AxisIds, AxisMapError};
use pattie::tensor::{COOTensor, PushError};

#[test]
fn builder_sets_label_and_range() {
    let mut ids = AxisIds::new();
    let axis = AxisBuilder::new().label("x").range(0..10).build(&mut ids);
    assert_eq!(axis.label(), Some("x"));
    assert_eq!(axis.range(), 0..10);
    assert_eq!(axis.lower(), 0);
    assert_eq!(axis.upper(), 10);
    assert_eq!(axis.size(), 10);
    assert_eq!(axis.len(), 10);
    assert!(!axis.is_empty());
}

#[test]
fn empty_axis() {
    let mut ids = AxisIds::new();
    let axis = AxisBuilder::new().range(10..0).build(&mut ids);
    assert!(axis.is_empty());
    assert_eq!(axis.size(), 0);
    assert_eq!(axis.label(), None);
}

#[test]
fn identity_not_range() {
    let mut ids = AxisIds::new();
    let a = AxisBuilder::new().range(0..10).build(&mut ids);
    let b = AxisBuilder::new().range(0..10).build(&mut ids);
    assert!(a != b);
    assert!(a == a.clone());
    assert!(a == a.duplicate());
}

#[test]
fn modified_axes_are_new() {
    let mut ids = AxisIds::new();
    let a = AxisBuilder::new().label("x").range(0..10).build(&mut ids);
    let b = a.clone_with_label("y", &mut ids);
    assert_eq!(b.label(), Some("y"));
    assert_eq!(b.range(), 0..10);
    assert!(a != b);
    let c = a.clone_with_range(0..20, &mut ids);
    assert_eq!(c.range(), 0..20);
    assert_eq!(c.label(), Some("x"));
    assert!(c != a && c != b);
}

#[test]
fn extend_and_intersect() {
    let mut ids = AxisIds::new();
    let a = AxisBuilder::new().label("x").range(0..20).build(&mut ids);
    let b = AxisBuilder::new().label("y").range(10..30).build(&mut ids);
    let hull = a.extend(&b, &mut ids);
    assert_eq!(hull.range(), 0..30);
    assert!(hull != a && hull != b);
    let named = a.extend_with_label(&b, "z", &mut ids);
    assert_eq!(named.label(), Some("z"));
    assert_eq!(named.range(), 0..30);
    let meet = a.intersect(&b, &mut ids);
    assert_eq!(meet.range(), 10..20);
    let far = AxisBuilder::new().range(30..40).build(&mut ids);
    let none = a.intersect_with_label(&far, "w", &mut ids);
    assert!(none.is_empty());
    assert_eq!(none.label(), Some("w"));
}

#[test]
fn locate_axes() {
    let mut ids = AxisIds::new();
    let to: Vec<_> = (0..5).map(|_| AxisBuilder::new().range(0..10).build(&mut ids)).collect();
    let from = vec![to[0].clone(), to[2].clone(), to[4].clone()];
    assert_eq!(map_axes_unwrap(&from, &to), vec![0, 2, 4]);
    assert_eq!(map_axes_ok(&from, &to), vec![Some(0), Some(2), Some(4)]);
    let stranger = AxisBuilder::new().range(0..10).build(&mut ids);
    let found = map_axes(&[to[1].clone(), stranger.clone()], &to);
    assert!(matches!(found[0], Ok(1)));
    match &found[1] {
        Err(AxisMapError::AxisNotFound { axis }) => assert!(*axis == stranger),
        _ => panic!("expected a missing axis"),
    }
}

#[test]
fn zeros_splits_axes() {
    let mut ids = AxisIds::new();
    let shape: Vec<_> = [2, 3, 4]
        .iter()
        .map(|&n| AxisBuilder::new().range(0..n).build(&mut ids))
        .collect();
    let t = COOTensor::zeros(&shape, &[false, true, false]);
    assert_eq!(t.ndim(), 3);
    assert_eq!(t.sparse_axes().len(), 2);
    assert!(t.sparse_axes()[0] == shape[0] && t.sparse_axes()[1] == shape[2]);
    assert!(t.dense_axes()[0] == shape[1]);
    assert_eq!(t.block_size(), 3);
    assert_eq!(t.num_non_zeros(), 0);
    assert!(t.sparse_sort_order().is_some());
}

#[test]
fn push_block_clears_sorted() {
    let mut ids = AxisIds::new();
    let shape: Vec<_> = [2, 3].iter().map(|&n| AxisBuilder::new().range(0..n).build(&mut ids)).collect();
    let mut t = COOTensor::zeros(&shape, &[false, true]);
    t.push_block(&[1], &[1, 2, 3]);
    assert!(t.sparse_sort_order().is_none());
    assert_eq!(t.num_blocks(), 1);
    assert_eq!(t.num_non_zeros(), 3);
}

#[test]
fn checked_push_and_well_formed() {
    let mut ids = AxisIds::new();
    let shape: Vec<_> = [2, 3].iter().map(|&n| AxisBuilder::new().range(0..n).build(&mut ids)).collect();
    let mut t = COOTensor::zeros(&shape, &[false, true]);
    assert!(t.is_well_formed());
    assert_eq!(t.try_push_block(&[2], &[1, 2, 3]), Err(PushError::IndexOutOfRange));
    assert_eq!(t.try_push_block(&[1, 0], &[1, 2, 3]), Err(PushError::WrongIndexLength));
    assert_eq!(t.try_push_block(&[1], &[1, 2]), Err(PushError::WrongBlockSize));
    assert_eq!(t.num_blocks(), 0);
    assert_eq!(t.try_push_block(&[1], &[1, 2, 3]), Ok(()));
    assert_eq!(t.values, vec![vec![1, 2, 3]]);
    assert!(t.is_well_formed());
    t.values[0].pop();
    assert!(!t.is_well_formed());
    t.values[0].push(3);
    t.indices[0][0] = 5;
    assert!(!t.is_well_formed());
    t.indices[0][0] = 1;
    let stranger = AxisBuilder::new().range(0..3).build(&mut ids);
    t.dense_axes[0] = stranger;
    assert!(!t.is_well_formed());
}
