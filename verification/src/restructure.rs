use vstd::prelude::*;

verus! {

use crate::TransformError;
use crate::arith::{all_pos, sum, lemma_sum_take_le, lemma_sum_snoc};
use crate::tensor::Tensor;

impl<S> Tensor<S> {
    /// Replaces the dimension groups: the same tile axes are fused into
    /// different logical dimensions, and no physical layout moves.
    ///
    /// Fails with `GroupSumMismatch` exactly when the new groups do not
    /// sum to the tile rank.
    pub fn restructure(self, shape_groups: Vec<usize>) -> (r: Result<Self, TransformError>)
        requires
            self.wf(),
            all_pos(shape_groups@),
        ensures
            sum(shape_groups@) == self.rank() ==> (r matches Ok(t) && t.shape_groups
                == shape_groups && t.tiles == self.tiles && t.pattern == self.pattern && t.storage
                == self.storage && t.wf()),
            sum(shape_groups@) != self.rank() ==> r == Err::<Self, TransformError>(
                TransformError::GroupSumMismatch,
            ),
    {
        let rank = self.tiles.0.len() - 1;
        let n = shape_groups.len();
        let mut acc: usize = 0;
        let mut i: usize = 0;
        proof {
            assert(shape_groups@.take(0) =~= Seq::<usize>::empty());
        }
        while i < n
            invariant
                i <= n,
                n == shape_groups@.len(),
                rank == self.rank(),
                acc == sum(shape_groups@.take(i as int)),
                acc <= rank,
            decreases n - i,
        {
            let width = shape_groups[i];
            proof {
                assert(shape_groups@.take(i + 1) =~= shape_groups@.take(i as int).push(width));
                lemma_sum_snoc(shape_groups@.take(i as int), width);
            }
            if width > rank - acc {
                proof {
                    lemma_sum_take_le(shape_groups@, i + 1);
                }
                return Err(TransformError::GroupSumMismatch);
            }
            acc = acc + width;
            i = i + 1;
        }
        proof {
            assert(shape_groups@.take(n as int) =~= shape_groups@);
        }
        if acc != rank {
            return Err(TransformError::GroupSumMismatch);
        }
        Ok(
            Tensor {
                shape_groups,
                tiles: self.tiles,
                pattern: self.pattern,
                storage: self.storage,
            },
        )
    }
}

} // verus!
