use vstd::prelude::*;

verus! {

use crate::arith::{
    all_pos, prod, sum, lemma_prod_snoc, lemma_sum_snoc, lemma_prod_ones, lemma_prod_split,
    lemma_prod_singleton, lemma_prod_subrange_le, lemma_sum_take_le,
};
use crate::meta::MetaTensor;
use crate::meta_shape::{AxisTag, MetaShape};
use crate::strides::{Strides, range_product};
use crate::tiles::Tiles;

/// A tiled tensor layout: a logical-dimension grouping over tile axes,
/// an affine address pattern, and a map of physical-storage handles.
///
/// Construction and every transform hand out a fresh owned value; no
/// tensor is ever edited through a shared reference.
#[derive(Clone, Debug)]
pub struct Tensor<S> {
    /// How many consecutive tile axes fuse into each logical dimension.
    pub shape_groups: Vec<usize>,
    /// The tile-axis extents, with the trailing sentinel of extent 1.
    pub tiles: Tiles,
    /// Address-formula coefficients, one column per distinguished
    /// position: entry `i` of a column is the address step of one unit
    /// along tile axis `i`, and the sentinel entry is the offset term.
    pub pattern: MetaTensor<isize>,
    /// Physical-storage handles broadcast over the tile grid.
    pub storage: MetaTensor<S>,
}

/// Per-axis factors contributed to the count of distinguished positions:
/// a distinguished axis contributes its extent, a shared one a single
/// broadcast slot.
pub open spec fn dist_factors(tags: Seq<AxisTag>, extents: Seq<usize>) -> Seq<usize> {
    Seq::new(
        tags.len(),
        |i: int|
            if tags[i] == AxisTag::Distinguished {
                extents[i]
            } else {
                1usize
            },
    )
}

/// How many distinguished positions a meta-tensor spans: the product of
/// the extents of its distinguished axes.
pub open spec fn dist_count(tags: Seq<AxisTag>, extents: Seq<usize>) -> int {
    prod(dist_factors(tags, extents))
}

/// The tile axis where logical dimension `g` begins.
pub open spec fn group_start(groups: Seq<usize>, g: int) -> int {
    sum(groups.take(g))
}

/// The extents of the logical dimensions: each is the product of the
/// tile extents its group fuses.
pub open spec fn shape_model(groups: Seq<usize>, extents: Seq<usize>) -> Seq<int> {
    Seq::new(
        groups.len(),
        |g: int| prod(extents.subrange(group_start(groups, g), group_start(groups, g) + groups[g])),
    )
}

/// The logical dimension whose run of tile axes contains `axis`.
pub open spec fn group_of(groups: Seq<usize>, axis: int) -> int
    decreases groups.len(),
{
    if groups.len() == 0 {
        0
    } else if axis < groups[0] {
        0
    } else {
        1 + group_of(groups.skip(1), axis - groups[0])
    }
}

/// Splitting away the first group shifts starts by its width.
proof fn lemma_group_start_skip(groups: Seq<usize>, g: int)
    requires
        1 <= groups.len(),
        0 <= g <= groups.len() - 1,
    ensures
        group_start(groups, g + 1) == groups[0] + group_start(groups.skip(1), g),
{
    assert(groups.take(g + 1) =~= seq![groups[0]] + groups.skip(1).take(g));
    crate::arith::lemma_sum_concat(seq![groups[0]], groups.skip(1).take(g));
    crate::arith::lemma_sum_singleton(seq![groups[0]]);
}

/// `group_of` names a group, and that group's run contains the axis.
pub proof fn lemma_group_of_range(groups: Seq<usize>, axis: int)
    requires
        all_pos(groups),
        0 <= axis < sum(groups),
    ensures
        0 <= group_of(groups, axis) < groups.len(),
        group_start(groups, group_of(groups, axis)) <= axis,
        axis < group_start(groups, group_of(groups, axis)) + groups[group_of(groups, axis)],
    decreases groups.len(),
{
    if groups.len() == 0 {
    } else if axis < groups[0] {
        assert(groups.take(0) =~= Seq::<usize>::empty());
    } else {
        let rest = groups.skip(1);
        lemma_group_of_range(rest, axis - groups[0]);
        let g = group_of(rest, axis - groups[0]);
        lemma_group_start_skip(groups, g);
    }
}

/// Any group whose run contains the axis is the one `group_of` names.
pub proof fn lemma_group_of_unique(groups: Seq<usize>, axis: int, g: int)
    requires
        all_pos(groups),
        0 <= g < groups.len(),
        group_start(groups, g) <= axis,
        axis < group_start(groups, g) + groups[g],
    ensures
        g == group_of(groups, axis),
    decreases groups.len(),
{
    if g == 0 {
        assert(groups.take(0) =~= Seq::<usize>::empty());
    } else {
        let rest = groups.skip(1);
        lemma_group_start_skip(groups, g - 1);
        crate::arith::lemma_sum_nonneg(rest.take(g - 1));
        assert(axis >= groups[0]);
        lemma_group_of_unique(rest, axis - groups[0], g - 1);
    }
}

/// A group's run ends no later than the end of the axis range.
pub proof fn lemma_group_end_le_sum(groups: Seq<usize>, h: int)
    requires
        0 <= h < groups.len(),
    ensures
        group_start(groups, h) + groups[h] <= sum(groups),
{
    assert(groups.take(h + 1) =~= groups.take(h).push(groups[h]));
    crate::arith::lemma_sum_snoc(groups.take(h), groups[h]);
    crate::arith::lemma_sum_take_le(groups, h + 1);
}

/// An earlier group's run ends no later than a later group's start.
pub proof fn lemma_group_start_mono(groups: Seq<usize>, h1: int, h2: int)
    requires
        0 <= h1 < h2 <= groups.len(),
    ensures
        group_start(groups, h1) + groups[h1] <= group_start(groups, h2),
{
    assert(groups.take(h1 + 1) =~= groups.take(h1).push(groups[h1]));
    crate::arith::lemma_sum_snoc(groups.take(h1), groups[h1]);
    assert(groups.take(h2) =~= groups.take(h1 + 1) + groups.take(h2).skip(h1 + 1));
    crate::arith::lemma_sum_concat(groups.take(h1 + 1), groups.take(h2).skip(h1 + 1));
    crate::arith::lemma_sum_nonneg(groups.take(h2).skip(h1 + 1));
}

/// Splitting one extent into parts of equal product keeps the number of
/// distinguished positions, whatever tag the split axis carries.
pub proof fn lemma_dist_count_split(
    tags: Seq<AxisTag>,
    ext: Seq<usize>,
    axis: int,
    parts: Seq<usize>,
)
    requires
        tags.len() == ext.len(),
        0 <= axis < tags.len(),
        parts.len() >= 1,
        prod(parts) == ext[axis],
    ensures
        dist_count(
            crate::meta_shape::split_tags(tags, axis, parts.len() - 1),
            crate::tiles::split_extents(ext, axis, parts),
        ) == dist_count(tags, ext),
{
    let len = tags.len() as int;
    let insert = parts.len() - 1;
    let ntags = crate::meta_shape::split_tags(tags, axis, insert as int);
    let next = crate::tiles::split_extents(ext, axis, parts);
    let oldf = dist_factors(tags, ext);
    let newf = dist_factors(ntags, next);
    let mid: Seq<usize> = if tags[axis] == AxisTag::Distinguished {
        parts
    } else {
        Seq::new(parts.len(), |j: int| 1usize)
    };
    assert(newf =~= oldf.subrange(0, axis) + mid + oldf.subrange(axis + 1, len));
    crate::arith::lemma_prod_concat(oldf.subrange(0, axis) + mid, oldf.subrange(axis + 1, len));
    crate::arith::lemma_prod_concat(oldf.subrange(0, axis), mid);
    if tags[axis] == AxisTag::Distinguished {
        assert(prod(mid) == ext[axis]);
    } else {
        crate::arith::lemma_prod_ones(mid);
    }
    assert(oldf =~= oldf.subrange(0, axis) + seq![oldf[axis]] + oldf.subrange(axis + 1, len));
    crate::arith::lemma_prod_concat(
        oldf.subrange(0, axis) + seq![oldf[axis]],
        oldf.subrange(axis + 1, len),
    );
    crate::arith::lemma_prod_concat(oldf.subrange(0, axis), seq![oldf[axis]]);
    crate::arith::lemma_prod_singleton(seq![oldf[axis]]);
    assert(prod(mid) == oldf[axis]);
}

impl<S> Tensor<S> {
    /// The number of real tile axes, the sentinel excluded.
    pub open spec fn rank(self) -> int {
        self.tiles@.len() - 1
    }

    /// The number of tile axes the meta-tensors span, sentinel included.
    pub open spec fn width(self) -> int {
        self.tiles@.len() as int
    }

    /// The element count: the product of all real tile extents.
    pub open spec fn spec_size(self) -> int {
        prod(self.tiles@.take(self.rank()))
    }

    /// The logical shape as a mathematical sequence.
    pub open spec fn spec_shape(self) -> Seq<int> {
        shape_model(self.shape_groups@, self.tiles@)
    }

    /// The tensor is well formed: the augmented extents are valid, the
    /// groups partition exactly the real axes, and both meta-tensors
    /// span every axis with a value vector of the broadcast length.
    pub open spec fn wf(self) -> bool {
        &&& self.tiles.wf()
        &&& all_pos(self.shape_groups@)
        &&& sum(self.shape_groups@) == self.rank()
        &&& self.pattern.shape@.len() == self.width()
        &&& self.storage.shape@.len() == self.width()
        &&& self.pattern.value@.len() == self.width() * dist_count(
            self.pattern.shape@,
            self.tiles@,
        )
        &&& self.storage.value@.len() == dist_count(self.storage.shape@, self.tiles@)
    }

    /// Creates the tensor of logical shape `shape` over one storage
    /// handle: one tile per dimension, row-major addressing from offset
    /// 0, and every meta-tensor axis shared.
    pub fn new(shape: &[usize], storage: S) -> (r: Self)
        requires
            all_pos(shape@),
            prod(shape@) <= isize::MAX,
            shape@.len() < usize::MAX,
        ensures
            r.wf(),
            r.tiles@ == shape@.push(1usize),
            r.shape_groups@ == Seq::new(shape@.len(), |i: int| 1usize),
            r.pattern.shape@ == Seq::new(shape@.len() + 1, |i: int| AxisTag::Shared),
            r.storage.shape@ == Seq::new(shape@.len() + 1, |i: int| AxisTag::Shared),
            r.pattern.value@.len() == shape@.len() + 1,
            forall|i: int|
                0 <= i < shape@.len() ==> #[trigger] r.pattern.value@[i] == prod(
                    shape@.subrange(i + 1, shape@.len() as int),
                ),
            r.pattern.value@[shape@.len() as int] == 0,
            r.storage.value@ == seq![storage],
            r.spec_size() == prod(shape@),
    {
        let rank = shape.len();
        let mut tile_vec: Vec<usize> = Vec::new();
        let mut group_vec: Vec<usize> = Vec::new();
        let mut i: usize = 0;
        while i < rank
            invariant
                i <= rank,
                rank == shape@.len(),
                tile_vec@ == shape@.subrange(0, i as int),
                group_vec@ == Seq::new(i as nat, |j: int| 1usize),
                sum(group_vec@) == i,
            decreases rank - i,
        {
            tile_vec.push(shape[i]);
            group_vec.push(1);
            proof {
                assert(tile_vec@ =~= shape@.subrange(0, i + 1));
                assert(group_vec@ =~= Seq::new((i + 1) as nat, |j: int| 1usize));
                lemma_sum_snoc(Seq::new(i as nat, |j: int| 1usize), 1);
            }
            i = i + 1;
        }
        proof {
            assert(tile_vec@ =~= shape@);
        }
        tile_vec.push(1);
        proof {
            lemma_prod_snoc(shape@, 1);
        }

        let pattern_strides = Strides::new(shape, 1);
        let mut pattern_vec: Vec<isize> = pattern_strides.0;
        pattern_vec.push(0);

        let mut storage_vec: Vec<S> = Vec::new();
        storage_vec.push(storage);

        let r = Tensor {
            shape_groups: group_vec,
            tiles: Tiles(tile_vec),
            pattern: MetaTensor { shape: MetaShape::new(rank + 1), value: pattern_vec },
            storage: MetaTensor { shape: MetaShape::new(rank + 1), value: storage_vec },
        };
        proof {
            assert(r.tiles@ =~= shape@.push(1usize));
            assert(r.tiles@.take(r.rank()) =~= shape@);
            let ones = dist_factors(r.pattern.shape@, r.tiles@);
            assert(forall|j: int| 0 <= j < ones.len() ==> #[trigger] ones[j] == 1);
            lemma_prod_ones(ones);
            let sones = dist_factors(r.storage.shape@, r.tiles@);
            assert(forall|j: int| 0 <= j < sones.len() ==> #[trigger] sones[j] == 1);
            lemma_prod_ones(sones);
            assert(r.storage.value@ =~= seq![storage]);
            assert forall|j: int| 0 <= j < shape@.len() implies #[trigger] r.pattern.value@[j]
                == prod(shape@.subrange(j + 1, shape@.len() as int)) by {
                assert(r.pattern.value@[j] == pattern_strides@[j]);
            }
        }
        r
    }

    /// The logical shape: dimension `g` is the product of the tile
    /// extents fused by group `g`.
    pub fn shape(&self) -> (r: Vec<usize>)
        requires
            self.wf(),
        ensures
            r@.len() == self.shape_groups@.len(),
            forall|g: int| 0 <= g < r@.len() ==> #[trigger] r@[g] as int == self.spec_shape()[g],
    {
        let n_groups = self.shape_groups.len();
        let rank = self.tiles.0.len() - 1;
        let mut out: Vec<usize> = Vec::new();
        let mut start: usize = 0;
        let mut g: usize = 0;
        proof {
            assert(self.shape_groups@.take(0) =~= Seq::<usize>::empty());
        }
        while g < n_groups
            invariant
                g <= n_groups,
                n_groups == self.shape_groups@.len(),
                self.wf(),
                rank == self.rank(),
                start == group_start(self.shape_groups@, g as int),
                out@.len() == g,
                forall|h: int| 0 <= h < g ==> #[trigger] out@[h] as int == self.spec_shape()[h],
            decreases n_groups - g,
        {
            let width = self.shape_groups[g];
            proof {
                assert(self.shape_groups@.take(g + 1) =~= self.shape_groups@.take(
                    g as int,
                ).push(width));
                lemma_sum_snoc(self.shape_groups@.take(g as int), width);
                lemma_sum_take_le(self.shape_groups@, g + 1);
                lemma_prod_split(self.tiles@, rank as int);
                lemma_prod_singleton(self.tiles@.skip(rank as int));
                assert(prod(self.tiles@.take(rank as int)) >= 1) by {
                    lemma_prod_subrange_le(self.tiles@, 0, rank as int);
                    assert(self.tiles@.subrange(0, rank as int) =~= self.tiles@.take(rank as int));
                }
            }
            let p = range_product(self.tiles.0.as_slice(), start, start + width);
            out.push(p);
            start = start + width;
            g = g + 1;
        }
        out
    }

    /// The augmented tile extents, sentinel included.
    pub fn tiles(&self) -> (r: &Vec<usize>)
        ensures
            r@ == self.tiles@,
    {
        &self.tiles.0
    }

    /// The element count: the product of the real tile extents.
    pub fn size(&self) -> (r: usize)
        requires
            self.wf(),
        ensures
            r as int == self.spec_size(),
    {
        let rank = self.tiles.0.len() - 1;
        let p = range_product(self.tiles.0.as_slice(), 0, rank);
        proof {
            assert(self.tiles@.subrange(0, rank as int) =~= self.tiles@.take(rank as int));
        }
        p
    }
}

} // verus!
