use vstd::prelude::*;

verus! {

use vstd::string::StringExecFns;
use crate::arith::read_map;

/// How one tile axis relates to the coefficients of a meta-tensor.
///
/// The coefficient vector holds one entry per combination of coordinates
/// on the `Distinguished` axes; along a `Shared` axis a single
/// coefficient is broadcast to every position.
#[derive(Clone, Copy, PartialEq, Eq, Structural, Debug)]
pub enum AxisTag {
    /// The coefficient varies along this axis.
    Distinguished,
    /// One coefficient is shared across all positions on this axis.
    Shared,
}

/// The per-axis broadcast tags of a meta-tensor, one per tile axis
/// (sentinel included).
#[derive(Clone, Debug)]
pub struct MetaShape(pub Vec<AxisTag>);

impl View for MetaShape {
    type V = Seq<AxisTag>;

    open spec fn view(&self) -> Seq<AxisTag> {
        self.0@
    }
}

/// The tag vector after axis `axis` is split: `insert` fresh sub-axes are
/// inserted at `axis` and each copies the tag of the axis they split,
/// which now stands immediately after them.
pub open spec fn split_tags(tags: Seq<AxisTag>, axis: int, insert: int) -> Seq<AxisTag> {
    tags.subrange(0, axis) + Seq::new(insert as nat, |j: int| tags[axis]) + tags.subrange(
        axis,
        tags.len() as int,
    )
}

/// The character that prints one tag.
pub open spec fn tag_char(tag: AxisTag) -> char {
    match tag {
        AxisTag::Distinguished => '1',
        AxisTag::Shared => '0',
    }
}

/// The tag vector printed as a bit string, axis 0 leftmost.
pub open spec fn tag_chars(tags: Seq<AxisTag>) -> Seq<char> {
    Seq::new(tags.len(), |i: int| tag_char(tags[i]))
}

impl MetaShape {
    /// A tag vector of `bits` axes, all initially shared.
    pub fn new(bits: usize) -> (r: Self)
        ensures
            r@ == Seq::new(bits as nat, |i: int| AxisTag::Shared),
    {
        let mut tags: Vec<AxisTag> = Vec::new();
        let mut i: usize = 0;
        while i < bits
            invariant
                i <= bits,
                tags@ =~= Seq::new(i as nat, |j: int| AxisTag::Shared),
            decreases bits - i,
        {
            tags.push(AxisTag::Shared);
            assert(tags@ =~= Seq::new((i + 1) as nat, |j: int| AxisTag::Shared));
            i = i + 1;
        }
        MetaShape(tags)
    }

    pub fn len(&self) -> (r: usize)
        ensures
            r == self@.len(),
    {
        self.0.len()
    }

    /// Splits axis `axis` by inserting `insert` sub-axes that copy the
    /// tag of the following axis, so a split never changes whether its
    /// sub-axes vary or share.
    pub fn split(self, axis: usize, insert: usize) -> (r: Self)
        requires
            axis < self@.len(),
            self@.len() + insert <= usize::MAX,
        ensures
            r@ == split_tags(self@, axis as int, insert as int),
    {
        let n = self.0.len();
        let mut out: Vec<AxisTag> = Vec::new();
        let mut i: usize = 0;
        while i < axis
            invariant
                i <= axis,
                axis < n,
                n == self@.len(),
                out@ == self@.subrange(0, i as int),
            decreases axis - i,
        {
            out.push(self.0[i]);
            assert(out@ =~= self@.subrange(0, i + 1));
            i = i + 1;
        }
        assert(out@ =~= self@.subrange(0, axis as int) + Seq::new(0, |j: int| self@[axis as int]));
        let mut j: usize = 0;
        while j < insert
            invariant
                j <= insert,
                axis < n,
                n == self@.len(),
                n + insert <= usize::MAX,
                out@ == self@.subrange(0, axis as int) + Seq::new(
                    j as nat,
                    |x: int| self@[axis as int],
                ),
            decreases insert - j,
        {
            out.push(self.0[axis]);
            assert(out@ =~= self@.subrange(0, axis as int) + Seq::new(
                (j + 1) as nat,
                |x: int| self@[axis as int],
            ));
            j = j + 1;
        }
        assert(out@ =~= self@.subrange(0, axis as int) + Seq::new(
            insert as nat,
            |x: int| self@[axis as int],
        ) + self@.subrange(axis as int, axis as int));
        let mut i: usize = axis;
        while i < n
            invariant
                axis <= i <= n,
                n == self@.len(),
                out@ == self@.subrange(0, axis as int) + Seq::new(
                    insert as nat,
                    |x: int| self@[axis as int],
                ) + self@.subrange(axis as int, i as int),
            decreases n - i,
        {
            out.push(self.0[i]);
            assert(out@ =~= self@.subrange(0, axis as int) + Seq::new(
                insert as nat,
                |x: int| self@[axis as int],
            ) + self@.subrange(axis as int, i + 1));
            i = i + 1;
        }
        MetaShape(out)
    }

    /// Reassigns tags through an explicit destination-to-source axis map.
    pub fn transpose(self, map: &Vec<usize>) -> (r: Self)
        requires
            map@.len() == self@.len(),
            forall|i: int| 0 <= i < map@.len() ==> #[trigger] map@[i] < self@.len(),
        ensures
            r@ == read_map(self@, map@),
    {
        let n = self.0.len();
        let mut out: Vec<AxisTag> = Vec::new();
        let mut i: usize = 0;
        while i < n
            invariant
                i <= n,
                n == self@.len(),
                map@.len() == n,
                forall|j: int| 0 <= j < n ==> #[trigger] map@[j] < n,
                out@ == read_map(self@, map@).subrange(0, i as int),
            decreases n - i,
        {
            out.push(self.0[map[i]]);
            assert(out@ =~= read_map(self@, map@).subrange(0, i + 1));
            i = i + 1;
        }
        assert(out@ =~= read_map(self@, map@));
        MetaShape(out)
    }

    /// The tags as a bit string, `1` for a distinguished axis and `0` for
    /// a shared one, axis 0 leftmost.
    pub fn to_string(&self) -> (r: String)
        ensures
            r@ == tag_chars(self@),
    {
        let n = self.0.len();
        let mut out = String::new();
        let mut i: usize = 0;
        while i < n
            invariant
                i <= n,
                n == self@.len(),
                out@ == tag_chars(self@).subrange(0, i as int),
            decreases n - i,
        {
            proof {
                reveal_strlit("0");
                reveal_strlit("1");
            }
            match self.0[i] {
                AxisTag::Distinguished => out.append("1"),
                AxisTag::Shared => out.append("0"),
            }
            assert(out@ =~= tag_chars(self@).subrange(0, i + 1));
            i = i + 1;
        }
        assert(out@ =~= tag_chars(self@));
        out
    }
}

} // verus!
