use vstd::prelude::*;

verus! {

use crate::arith::prod;

/// The augmented vector of tile-axis extents.
///
/// The last entry is always the sentinel axis of extent 1, which carries
/// the additive offset term of the address formula; every entry before it
/// is the extent of one real tile axis.
#[derive(Clone, Debug)]
pub struct Tiles(pub Vec<usize>);

impl View for Tiles {
    type V = Seq<usize>;

    open spec fn view(&self) -> Seq<usize> {
        self.0@
    }
}

/// The extent vector that replaces extent `s[axis]` by the run `parts`.
pub open spec fn split_extents(s: Seq<usize>, axis: int, parts: Seq<usize>) -> Seq<usize> {
    s.subrange(0, axis) + parts + s.subrange(axis + 1, s.len() as int)
}

impl Tiles {
    /// The extents are well formed: a trailing sentinel of extent 1,
    /// positive real extents, and an element count a machine word can hold.
    pub open spec fn wf(self) -> bool {
        &&& self@.len() >= 1
        &&& self@[self@.len() - 1] == 1
        &&& forall|i: int| 0 <= i < self@.len() ==> #[trigger] self@[i] >= 1
        &&& prod(self@) <= isize::MAX
    }

    /// Collects an extent vector that a caller has already augmented.
    pub fn from_iter(values: Vec<usize>) -> (r: Self)
        ensures
            r@ == values@,
    {
        Tiles(values)
    }

    /// Replaces the extent at `axis` by the run `parts`, growing the
    /// vector by `parts.len() - 1`.
    pub fn tile_split(self, axis: usize, parts: &[usize]) -> (r: Self)
        requires
            axis < self@.len(),
            parts@.len() >= 1,
            self@.len() + parts@.len() - 1 <= usize::MAX,
        ensures
            r@ == split_extents(self@, axis as int, parts@),
    {
        let n = self.0.len();
        let k = parts.len();
        let mut out: Vec<usize> = Vec::new();
        let mut i: usize = 0;
        while i < axis
            invariant
                i <= axis,
                axis < n,
                n == self@.len(),
                out@ == self@.subrange(0, i as int),
            decreases axis - i,
        {
            out.push(self.0[i]);
            assert(out@ =~= self@.subrange(0, i + 1));
            i = i + 1;
        }
        assert(out@ =~= self@.subrange(0, axis as int) + parts@.subrange(0, 0));
        let mut j: usize = 0;
        while j < k
            invariant
                j <= k,
                k == parts@.len(),
                axis < n,
                n == self@.len(),
                out@ == self@.subrange(0, axis as int) + parts@.subrange(0, j as int),
            decreases k - j,
        {
            out.push(parts[j]);
            assert(out@ =~= self@.subrange(0, axis as int) + parts@.subrange(0, j + 1));
            j = j + 1;
        }
        assert(parts@.subrange(0, k as int) =~= parts@);
        assert(out@ =~= self@.subrange(0, axis as int) + parts@ + self@.subrange(
            axis + 1,
            axis + 1,
        ));
        let mut i: usize = axis + 1;
        while i < n
            invariant
                axis + 1 <= i <= n,
                n == self@.len(),
                out@ == self@.subrange(0, axis as int) + parts@ + self@.subrange(
                    axis + 1,
                    i as int,
                ),
            decreases n - i,
        {
            out.push(self.0[i]);
            assert(out@ =~= self@.subrange(0, axis as int) + parts@ + self@.subrange(
                axis + 1,
                i + 1,
            ));
            i = i + 1;
        }
        Tiles(out)
    }
}

} // verus!
