use vstd::prelude::*;

verus! {

use crate::arith::{all_pos, prod, lemma_prod_pos, lemma_prod_subrange_le};

/// Row-major coordinate strides over a shape, augmented by nothing:
/// entry `i` is `unit` times the product of the extents after `i`.
#[derive(Clone, PartialEq, Eq, Hash, Debug)]
pub struct Strides(pub Vec<isize>);

impl View for Strides {
    type V = Seq<isize>;

    open spec fn view(&self) -> Seq<isize> {
        self.0@
    }
}

impl Strides {
    /// Builds the row-major strides of `shape`, scaled by `unit`.
    pub fn new(shape: &[usize], unit: usize) -> (r: Self)
        requires
            all_pos(shape@),
            unit >= 1,
            unit * prod(shape@) <= isize::MAX,
        ensures
            r@.len() == shape@.len(),
            forall|i: int|
                0 <= i < shape@.len() ==> #[trigger] r@[i] == unit * prod(
                    shape@.subrange(i + 1, shape@.len() as int),
                ),
    {
        let n = shape.len();
        let mut ans: Vec<isize> = Vec::new();
        proof {
            lemma_prod_pos(shape@);
            assert(prod(shape@) <= unit * prod(shape@)) by (nonlinear_arith)
                requires
                    unit >= 1,
                    prod(shape@) >= 1,
            ;
        }
        let mut i: usize = 0;
        while i < n
            invariant
                i <= n,
                n == shape@.len(),
                ans@.len() == i,
                all_pos(shape@),
                unit >= 1,
                unit * prod(shape@) <= isize::MAX,
                prod(shape@) <= isize::MAX,
                forall|j: int|
                    0 <= j < i ==> #[trigger] ans@[j] == unit * prod(
                        shape@.subrange(j + 1, n as int),
                    ),
            decreases n - i,
        {
            let suffix = range_product(shape, i + 1, n);
            proof {
                lemma_prod_subrange_le(shape@, i + 1, n as int);
                assert(unit * prod(shape@.subrange(i + 1, n as int)) <= unit * prod(shape@))
                    by (nonlinear_arith)
                    requires
                        unit >= 1,
                        1 <= prod(shape@.subrange(i + 1, n as int)) <= prod(shape@),
                ;
                assert(unit * prod(shape@.subrange(i + 1, n as int)) >= 1) by (nonlinear_arith)
                    requires
                        unit >= 1,
                        prod(shape@.subrange(i + 1, n as int)) >= 1,
                ;
            }
            let value = unit * suffix;
            ans.push(value as isize);
            i = i + 1;
        }
        Strides(ans)
    }
}

/// Computes the product of `shape[from .. to]`, which the caller must
/// know to fit in a machine word.
pub fn range_product(shape: &[usize], from: usize, to: usize) -> (r: usize)
    requires
        from <= to <= shape@.len(),
        all_pos(shape@),
        prod(shape@) <= usize::MAX,
    ensures
        r == prod(shape@.subrange(from as int, to as int)),
{
    let mut acc: usize = 1;
    let mut i: usize = to;
    proof {
        assert(shape@.subrange(to as int, to as int) =~= Seq::<usize>::empty());
    }
    while i > from
        invariant
            from <= i <= to <= shape@.len(),
            all_pos(shape@),
            prod(shape@) <= usize::MAX,
            acc == prod(shape@.subrange(i as int, to as int)),
        decreases i,
    {
        let next = i - 1;
        proof {
            assert(shape@.subrange(next as int, to as int).skip(1) =~= shape@.subrange(
                i as int,
                to as int,
            ));
            assert(prod(shape@.subrange(next as int, to as int)) == shape@[next as int] * prod(
                shape@.subrange(i as int, to as int),
            ));
            lemma_prod_subrange_le(shape@, next as int, to as int);
        }
        acc = shape[next] * acc;
        i = next;
    }
    acc
}

} // verus!
