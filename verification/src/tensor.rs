//! The parts of tensors that do not depend on their floating-point entries:
//! how many entries a shape holds, the operations of a compute graph, and
//! the gradient function of a constant.

use vstd::prelude::*;

verus! {

/// The product of the dimensions of `shape`.
pub open spec fn shape_product(shape: Seq<usize>) -> int
    decreases shape.len(),
{
    if shape.len() == 0 {
        1
    } else {
        shape_product(shape.drop_last()) * shape.last()
    }
}

/// Multiplying the dimensions in order, some partial product exceeds
/// `usize::MAX`.
pub open spec fn shape_overflows(shape: Seq<usize>) -> bool {
    exists|i: int| 1 <= i <= shape.len() && #[trigger] shape_product(shape.take(i)) > usize::MAX
}

/// The number of entries of a tensor of shape `shape`: the product of its
/// dimensions, or `None` where multiplying them one after the other
/// overflows `usize`.
pub fn element_count(shape: &[usize]) -> (n: Option<usize>)
    requires
        shape@.len() > 0,
    ensures
        match n {
            Some(n) => !shape_overflows(shape@) && n == shape_product(shape@),
            None => shape_overflows(shape@),
        },
{
    let mut acc: usize = shape[0];
    assert(shape@.take(1).drop_last() =~= Seq::<usize>::empty());
    assert(shape_product(Seq::<usize>::empty()) == 1);
    assert(shape@.take(1).last() == shape@[0]);
    assert(shape_product(shape@.take(1)) == shape@[0]);
    let mut i: usize = 1;
    while i < shape.len()
        invariant
            1 <= i <= shape@.len(),
            acc == shape_product(shape@.take(i as int)),
            forall|k: int| 1 <= k <= i ==> #[trigger] shape_product(shape@.take(k)) <= usize::MAX,
        decreases shape@.len() - i,
    {
        assert(shape@.take(i + 1).drop_last() =~= shape@.take(i as int));
        match acc.checked_mul(shape[i]) {
            Some(p) => {
                acc = p;
                i = i + 1;
            },
            None => {
                assert(shape_product(shape@.take(i + 1)) > usize::MAX);
                return None;
            },
        }
    }
    assert(shape@.take(shape@.len() as int) =~= shape@);
    Some(acc)
}

/// The operation that produced a node of a compute graph.
pub enum Op {
    Identity,
    Add,
    Mul,
    Sigmoid,
    BinaryCrossEntropy,
}

/// The gradient function of a constant, whose gradient is zero everywhere.
#[derive(Debug, PartialEq, Eq)]
pub struct ConstGradFn;

/// A shape without dimensions holds one entry.
pub proof fn lemma_shape_product_empty()
    ensures
        shape_product(Seq::<usize>::empty()) == 1,
{
}

/// Adding a dimension multiplies the count of entries by it, whatever the
/// number of dimensions already there: the count is the product of every
/// dimension.
pub proof fn lemma_shape_product_push(shape: Seq<usize>, d: usize)
    ensures
        shape_product(shape.push(d)) == shape_product(shape) * d,
{
    assert(shape.push(d).drop_last() =~= shape);
}

/// The count of entries of two shapes laid one after the other is the
/// product of their counts.
pub proof fn lemma_shape_product_concat(a: Seq<usize>, b: Seq<usize>)
    ensures
        shape_product(a + b) == shape_product(a) * shape_product(b),
    decreases b.len(),
{
    if b.len() == 0 {
        assert(a + b =~= a);
    } else {
        lemma_shape_product_concat(a, b.drop_last());
        assert((a + b).drop_last() =~= a + b.drop_last());
        assert((a + b).last() == b.last());
        let x = shape_product(a);
        let y = shape_product(b.drop_last());
        let z = b.last() as int;
        assert(x * y * z == x * (y * z)) by (nonlinear_arith);
    }
}

} // verus!
