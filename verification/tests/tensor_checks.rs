use intertense::layout::Layout;
use intertense::tensor::{Tens, Tensor};

#[test]
fn index_vector() {
    let tensor = Tensor::vector(vec![1, 2, 3, 4, 5]);
    let values = vec![1, 2, 3, 4, 5];

    let v: Vec<i32> = (0..5).map(|px| *tensor.component(&[px]).unwrap()).collect();

    assert_eq!(values, v);
}

#[test]
fn map() {
    let mut tens = Tens::vector(vec![101, 102, 201, 202, 301, 302, 111, 112, 211, 212, 311, 312]);
    let mut ten2 = Tens::vector(vec![102, 103, 202, 203, 302, 303, 112, 113, 212, 213, 312, 313]);
    *tens.layout_mut() = Layout::from_inner(vec![3, 2, 2], vec![2, 6, 1]);
    *ten2.layout_mut() = Layout::from_inner(vec![3, 2, 2], vec![2, 6, 1]);

    let tensor = tens.clone().tensor().map(|x| x + 1);
    tens.map(|x| *x + 1);

    assert_eq!(tens, ten2);
    assert_eq!(tensor, ten2);
}

#[test]
fn normalize_layout() {
    let mut tens = Tens::vector(vec![101, 102, 201, 202, 301, 302, 111, 112, 211, 212, 311, 312]);
    *tens.layout_mut() = Layout::from_inner(vec![3, 2, 2], vec![2, 6, 1]);

    let mut normalized = tens.clone();

    assert!(!normalized.is_layout_normalized());
    normalized.normalize_layout();
    assert!(normalized.is_layout_normalized());

    assert_eq!(normalized, tens);
    assert_eq!(normalized.buffer(), [101, 102, 111, 112, 201, 202, 211, 212, 301, 302, 311, 312]);
    assert_eq!(normalized.dims(), [3, 2, 2]);
    assert_eq!(normalized.strides(), [4, 2, 1]);
}

#[test]
fn split_off() {
    let mut tens = Tens::vector(vec![101, 102, 201, 202, 301, 302, 111, 112, 211, 212, 311, 312]);
    *tens.layout_mut() = Layout::from_inner(vec![3, 2, 2], vec![2, 6, 1]);

    let ten2 = tens.split_off(0, 1);

    assert_eq!(tens, Tens::new(vec![101, 102, 111, 112], &[1, 2, 2]));
    assert_eq!(ten2, Tens::new(vec![201, 202, 211, 212, 301, 302, 311, 312], &[2, 2, 2]));
}
