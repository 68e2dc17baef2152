use vstd::prelude::*;

verus! {

use crate::arith::read_map;
use crate::meta_shape::{MetaShape, split_tags};

/// A meta-tensor: per-axis broadcast tags plus a flat vector of values
/// broadcast over the tile grid.
///
/// The flat vector holds one entry (for the pattern, one column of
/// coefficients) per combination of coordinates on the distinguished
/// axes; shared axes contribute a single broadcast entry.
#[derive(Clone, Debug)]
pub struct MetaTensor<T> {
    /// Which tile axes the values vary along.
    pub shape: MetaShape,
    /// The broadcast values themselves.
    pub value: Vec<T>,
}

impl<T> MetaTensor<T> {
    /// The number of tile axes the meta-tensor spans, sentinel included.
    pub fn rank(&self) -> (r: usize)
        ensures
            r == self.shape@.len(),
    {
        self.shape.len()
    }

    /// Splits axis `axis` the way `parts` splits its extent.
    ///
    /// Only the tags move; the values keep their count and order, since
    /// the split neither changes the number of distinguished positions
    /// nor their row-major enumeration.
    pub fn tile_split(self, axis: usize, parts: &[usize]) -> (r: Self)
        requires
            parts@.len() >= 1,
            axis < self.shape@.len(),
            self.shape@.len() + parts@.len() - 1 <= usize::MAX,
        ensures
            r.shape@ == split_tags(self.shape@, axis as int, parts@.len() - 1),
            r.value == self.value,
    {
        let insert = parts.len() - 1;
        MetaTensor { shape: self.shape.split(axis, insert), value: self.value }
    }

    /// Reassigns the tags through an explicit destination-to-source axis
    /// map; the values keep their count and order.
    pub fn transpose(self, map: &Vec<usize>) -> (r: Self)
        requires
            map@.len() == self.shape@.len(),
            forall|i: int| 0 <= i < map@.len() ==> #[trigger] map@[i] < self.shape@.len(),
        ensures
            r.shape@ == read_map(self.shape@, map@),
            r.value == self.value,
    {
        MetaTensor { shape: self.shape.transpose(map), value: self.value }
    }
}

impl<T: Copy> MetaTensor<T> {
    /// The flat value vector read as a matrix with one row per axis:
    /// one inner vector per broadcast position, holding that position's
    /// column of per-axis values.
    pub fn as_matrix(&self) -> (r: Vec<Vec<T>>)
        requires
            self.shape@.len() >= 1,
            self.value@.len() as int % self.shape@.len() as int == 0,
        ensures
            r@.len() == self.value@.len() as int / self.shape@.len() as int,
            forall|c: int|
                0 <= c < r@.len() ==> #[trigger] r@[c]@ == self.value@.subrange(
                    c * self.shape@.len(),
                    (c + 1) * self.shape@.len(),
                ),
    {
        let nrows = self.shape.len();
        let ncols = self.value.len() / nrows;
        proof {
            vstd::arithmetic::div_mod::lemma_fundamental_div_mod(
                self.value@.len() as int,
                nrows as int,
            );
            assert(self.value@.len() <= usize::MAX);
        }
        let mut out: Vec<Vec<T>> = Vec::new();
        let mut c: usize = 0;
        while c < ncols
            invariant
                c <= ncols,
                nrows == self.shape@.len(),
                nrows >= 1,
                ncols == self.value@.len() as int / nrows as int,
                self.value@.len() == ncols * nrows,
                ncols * nrows <= usize::MAX,
                out@.len() == c,
                forall|x: int|
                    0 <= x < c ==> #[trigger] out@[x]@ == self.value@.subrange(
                        x * nrows as int,
                        (x + 1) * nrows as int,
                    ),
            decreases ncols - c,
        {
            proof {
                assert(c * nrows + nrows <= ncols * nrows) by (nonlinear_arith)
                    requires
                        c < ncols,
                        nrows >= 1,
                ;
                assert(c * nrows >= 0) by (nonlinear_arith)
                    requires
                        c >= 0,
                        nrows >= 1,
                ;
                assert((c + 1) * nrows == c * nrows + nrows) by (nonlinear_arith);
            }
            let mut col: Vec<T> = Vec::new();
            let mut i: usize = 0;
            while i < nrows
                invariant
                    i <= nrows,
                    c < ncols,
                    nrows == self.shape@.len(),
                    self.value@.len() == ncols * nrows,
                    ncols * nrows <= usize::MAX,
                    c * nrows >= 0,
                    c * nrows + nrows <= ncols * nrows,
                    col@ == self.value@.subrange(c * nrows as int, c * nrows + i),
                decreases nrows - i,
            {
                col.push(self.value[c * nrows + i]);
                assert(col@ =~= self.value@.subrange(c * nrows as int, c * nrows + i + 1));
                i = i + 1;
            }
            out.push(col);
            c = c + 1;
        }
        out
    }
}

} // verus!
