use tokenizer::tensor::{element_count, ConstGradFn, Op};

#[test]
fn element_count_multiplies_dimensions() {
    assert_eq!(element_count(&[2, 3, 4]), Some(24));
    assert_eq!(element_count(&[7]), Some(7));
    assert_eq!(element_count(&[5, 0]), Some(0));
}

#[test]
fn element_count_reports_overflow() {
    assert_eq!(element_count(&[usize::MAX, 2]), None);
    assert_eq!(element_count(&[usize::MAX, 2, 0]), None);
    assert_eq!(element_count(&[usize::MAX, 1]), Some(usize::MAX));
}

#[test]
fn graph_ops_and_const_grad() {
    let ops = [Op::Identity, Op::Add, Op::Mul, Op::Sigmoid, Op::BinaryCrossEntropy];
    assert_eq!(ops.len(), 5);
    assert_eq!(ConstGradFn, ConstGradFn);
}
