use pattie::reorder::{reorder_backward, reorder_backward_inplace, reorder_forward, reorder_forward_inplace};

fn letters() -> Vec<char> {
    vec!['H', 'I', 'B', 'F', 'D', 'E', 'C', 'A', 'J', 'G']
}

fn sorted() -> Vec<char> {
    vec!['A', 'B', 'C', 'D', 'E', 'F', 'G', 'H', 'I', 'J']
}

#[test]
fn forward() {
    let array = letters();
    let order = vec![7, 2, 6, 4, 5, 3, 9, 0, 1, 8];
    let result: Vec<char> = reorder_forward(&array, &order).into_iter().copied().collect();
    assert_eq!(result, sorted());
}

#[test]
fn forward_inplace() {
    let mut array = letters();
    let mut order = vec![7, 2, 6, 4, 5, 3, 9, 0, 1, 8];
    reorder_forward_inplace(&mut array, &mut order);
    assert_eq!(array, sorted());
    assert_eq!(order, (0..10).collect::<Vec<usize>>());
}

#[test]
fn backward() {
    let array = letters();
    let order = vec![7, 8, 1, 5, 3, 4, 2, 0, 9, 6];
    let result: Vec<char> = reorder_backward(&array, &order).into_iter().copied().collect();
    assert_eq!(result, sorted());
}

#[test]
fn backward_inplace() {
    let mut array = letters();
    let mut order = vec![7, 8, 1, 5, 3, 4, 2, 0, 9, 6];
    reorder_backward_inplace(&mut array, &mut order);
    assert_eq!(array, sorted());
    assert_eq!(order, (0..10).collect::<Vec<usize>>());
}

#[test]
fn empty_orders() {
    let array: Vec<char> = Vec::new();
    assert!(reorder_forward(&array, &[]).is_empty());
    assert!(reorder_backward(&array, &[]).is_empty());
    let mut v: Vec<char> = Vec::new();
    let mut o: Vec<usize> = Vec::new();
    reorder_backward_inplace(&mut v, &mut o);
    reorder_forward_inplace(&mut v, &mut o);
    assert!(v.is_empty() && o.is_empty());
}
