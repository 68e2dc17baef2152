use vstd::prelude::*;

verus! {

use vstd::arithmetic::div_mod::{lemma_fundamental_div_mod, lemma_fundamental_div_mod_converse, lemma_mod_bound};
use crate::arith::{
    prod, prod_ints, sum, read_map, lemma_prod_concat, lemma_prod_singleton, lemma_sum_update,
    lemma_sum_nonneg,
};
use crate::perm_map::{axis_map, has_dup, lemma_axis_map_valid};
use crate::tensor::{
    Tensor, group_of, group_start, shape_model, lemma_group_of_range, lemma_group_start_mono,
};
use crate::tile_split::split_groups;
use crate::tiles::split_extents;

/// The shape product invariant: for every well-formed tensor the
/// element count equals the product of the logical shape, which equals
/// the product of the real tile extents.
pub proof fn lemma_size_is_shape_product<S>(t: Tensor<S>)
    requires
        t.wf(),
    ensures
        prod_ints(t.spec_shape()) == t.spec_size(),
        t.spec_size() == prod(t.tiles@.take(t.rank())),
{
    assert forall|h: int| 0 <= h < t.shape_groups@.len() implies #[trigger] group_start(
        t.shape_groups@,
        h,
    ) + t.shape_groups@[h] <= sum(t.shape_groups@) by {
        crate::tensor::lemma_group_end_le_sum(t.shape_groups@, h);
    }
    lemma_grouped_prod(t.shape_groups@, t.tiles@, 0);
    assert(t.tiles@.subrange(0, sum(t.shape_groups@)) =~= t.tiles@.take(t.rank()));
    assert(shape_model(t.shape_groups@, t.tiles@).skip(0) =~= shape_model(
        t.shape_groups@,
        t.tiles@,
    ));
}

/// The products of the group runs starting at group `g` multiply out to
/// the product of the extents those runs cover.
proof fn lemma_grouped_prod(groups: Seq<usize>, extents: Seq<usize>, g: int)
    requires
        0 <= g <= groups.len(),
        0 <= sum(groups) <= extents.len(),
        forall|h: int| 0 <= h < groups.len() ==> #[trigger] group_start(groups, h) + groups[h]
            <= sum(groups),
    ensures
        prod_ints(shape_model(groups, extents).skip(g)) == prod(
            extents.subrange(group_start(groups, g), sum(groups)),
        ),
    decreases groups.len() - g,
{
    crate::arith::lemma_sum_take_le(groups, g);
    lemma_sum_nonneg(groups.take(g));
    if g == groups.len() {
        assert(groups.take(g) =~= groups);
        assert(extents.subrange(group_start(groups, g), sum(groups))
            =~= Seq::<usize>::empty());
        assert(shape_model(groups, extents).skip(g) =~= Seq::<int>::empty());
    } else {
        lemma_grouped_prod(groups, extents, g + 1);
        assert(groups.take(g + 1) =~= groups.take(g).push(groups[g]));
        crate::arith::lemma_sum_snoc(groups.take(g), groups[g]);
        let a = group_start(groups, g);
        let b = group_start(groups, g + 1);
        assert(b == a + groups[g]);
        assert(group_start(groups, g) + groups[g] <= sum(groups));
        let run = extents.subrange(a, b);
        let rest = extents.subrange(b, sum(groups));
        assert(extents.subrange(a, sum(groups)) =~= run + rest);
        lemma_prod_concat(run, rest);
        let model = shape_model(groups, extents);
        assert(model.skip(g)[0] == model[g]);
        assert(model.skip(g).skip(1) =~= model.skip(g + 1));
        assert(prod_ints(model.skip(g)) == model[g] * prod_ints(model.skip(g + 1)));
        assert(model[g] == prod(run));
    }
}

/// The split/merge round trip: splitting a tile axis, with the group
/// that owns it widened to keep the sub-axes fused in one logical
/// dimension — which a later `restructure` to that same grouping
/// reproduces — leaves the logical shape unchanged.
pub proof fn lemma_split_restructure_shape<S>(
    t: Tensor<S>,
    t2: Tensor<S>,
    axis: int,
    parts: Seq<usize>,
)
    requires
        t.wf(),
        parts.len() >= 1,
        0 <= axis < t.rank(),
        prod(parts) == t.tiles@[axis],
        t.tiles@.len() + parts.len() <= usize::MAX,
        t2.tiles@ == split_extents(t.tiles@, axis, parts),
        t2.shape_groups@ == split_groups(t.shape_groups@, axis, parts.len() - 1),
    ensures
        t2.spec_shape() == t.spec_shape(),
{
    let groups = t.shape_groups@;
    let n = t.tiles@.len() as int;
    let insert = parts.len() - 1;
    lemma_group_of_range(groups, axis);
    let g = group_of(groups, axis);
    let groups2 = t2.shape_groups@;
    crate::arith::lemma_sum_element_le(groups, g);
    assert(groups2 == groups.update(g, (groups[g] + insert) as usize));

    // Starts before the owning group do not move; later ones shift by
    // the inserted count.
    assert forall|h: int| 0 <= h <= groups.len() implies #[trigger] group_start(groups2, h)
        == group_start(groups, h) + (if h <= g {
        0int
    } else {
        insert
    }) by {
        if h <= g {
            assert(groups2.take(h) =~= groups.take(h));
        } else {
            assert(groups2.take(h) =~= groups.take(h).update(g, (groups[g] + insert) as usize));
            lemma_sum_update(groups.take(h), g, (groups[g] + insert) as usize);
        }
    }

    assert forall|h: int| 0 <= h < groups.len() implies t2.spec_shape()[h] == t.spec_shape()[h] by {
        let a = group_start(groups, h);
        let w = groups[h] as int;
        crate::tensor::lemma_group_end_le_sum(groups, h);
        crate::tensor::lemma_group_end_le_sum(groups, g);
        lemma_sum_nonneg(groups.take(h));
        lemma_sum_nonneg(groups.take(g));
        if h < g {
            lemma_group_start_mono(groups, h, g);
            assert(a + w <= group_start(groups, g) <= axis);
            assert(t2.tiles@.subrange(a, a + w) =~= t.tiles@.subrange(a, a + w));
        } else if h == g {
            let w2 = groups2[g] as int;
            assert(w2 == w + insert);
            let pre = t.tiles@.subrange(a, axis);
            let suf = t.tiles@.subrange(axis + 1, a + w);
            assert(t.tiles@.subrange(a, a + w) =~= pre + seq![t.tiles@[axis]] + suf);
            assert(t2.tiles@.subrange(a, a + w2) =~= pre + parts + suf);
            lemma_prod_concat(pre + seq![t.tiles@[axis]], suf);
            lemma_prod_concat(pre, seq![t.tiles@[axis]]);
            lemma_prod_singleton(seq![t.tiles@[axis]]);
            lemma_prod_concat(pre + parts, suf);
            lemma_prod_concat(pre, parts);
        } else {
            lemma_group_start_mono(groups, g, h);
            assert(group_start(groups, g) + groups[g] <= a);
            assert(axis + 1 <= a);
            assert(t2.tiles@.subrange(a + insert, a + insert + w) =~= t.tiles@.subrange(a, a + w));
        }
    }
    assert(t2.spec_shape() =~= t.spec_shape());
}

/// The transpose involution: permuting the tile axes and then applying
/// the inverse permutation hands back a tensor with the original
/// extents, tags, dimension groups and pattern coefficients.
pub proof fn lemma_tile_transpose_involution<S>(
    t: Tensor<S>,
    t1: Tensor<S>,
    t2: Tensor<S>,
    p: Seq<usize>,
    q: Seq<usize>,
)
    requires
        t.wf(),
        !has_dup(p),
        !has_dup(q),
        forall|j: int| 0 <= j < p.len() ==> #[trigger] p[j] < t.rank(),
        forall|j: int| 0 <= j < q.len() ==> #[trigger] q[j] < t.rank(),
        t.width() <= usize::MAX,
        forall|i: int|
            0 <= i < t.width() ==> axis_map(p, t.width())[#[trigger] axis_map(q, t.width())[i] as int]
                == i,
        t1.tiles@ == read_map(t.tiles@, axis_map(p, t.width())),
        t1.shape_groups@ == t.shape_groups@,
        t1.pattern.shape@ == read_map(t.pattern.shape@, axis_map(p, t.width())),
        t1.storage.shape@ == read_map(t.storage.shape@, axis_map(p, t.width())),
        t1.pattern.value@.len() == t.pattern.value@.len(),
        forall|idx: int|
            0 <= idx < t1.pattern.value@.len() ==> #[trigger] t1.pattern.value@[idx]
                == t.pattern.value@[(idx / t.width()) * t.width() + axis_map(p, t.width())[idx
                % t.width()] as int],
        t2.tiles@ == read_map(t1.tiles@, axis_map(q, t.width())),
        t2.shape_groups@ == t1.shape_groups@,
        t2.pattern.shape@ == read_map(t1.pattern.shape@, axis_map(q, t.width())),
        t2.storage.shape@ == read_map(t1.storage.shape@, axis_map(q, t.width())),
        t2.pattern.value@.len() == t1.pattern.value@.len(),
        forall|idx: int|
            0 <= idx < t2.pattern.value@.len() ==> #[trigger] t2.pattern.value@[idx]
                == t1.pattern.value@[(idx / t.width()) * t.width() + axis_map(q, t.width())[idx
                % t.width()] as int],
    ensures
        t2.tiles@ == t.tiles@,
        t2.shape_groups@ == t.shape_groups@,
        t2.pattern.shape@ == t.pattern.shape@,
        t2.storage.shape@ == t.storage.shape@,
        t2.pattern.value@ == t.pattern.value@,
        t2.spec_shape() == t.spec_shape(),
{
    let n = t.width();
    let dc = crate::tensor::dist_count(t.pattern.shape@, t.tiles@);
    let mp = axis_map(p, n);
    let mq = axis_map(q, n);
    lemma_axis_map_valid(p, n);
    lemma_axis_map_valid(q, n);
    assert(t2.tiles@ =~= t.tiles@);
    assert(t2.pattern.shape@ =~= t.pattern.shape@);
    assert(t2.storage.shape@ =~= t.storage.shape@);
    assert forall|idx: int|
        0 <= idx < t2.pattern.value@.len() implies #[trigger] t2.pattern.value@[idx]
        == t.pattern.value@[idx] by {
        lemma_fundamental_div_mod(idx, n);
        lemma_mod_bound(idx, n);
        let col = idx / n;
        let i = idx % n;
        let inner = col * n + mq[i] as int;
        assert(0 <= inner < t1.pattern.value@.len()) by (nonlinear_arith)
            requires
                0 <= col,
                0 <= mq[i] < n,
                inner == col * n + mq[i],
                idx == n * col + i,
                0 <= i < n,
                1 <= n,
                0 <= idx < t1.pattern.value@.len(),
                t1.pattern.value@.len() == n * dc,
        ;
        lemma_fundamental_div_mod_converse(inner, n, col, mq[i] as int);
        assert(t2.pattern.value@[idx] == t1.pattern.value@[inner]);
        assert(t1.pattern.value@[inner] == t.pattern.value@[col * n + mp[mq[i] as int] as int]);
        assert(mp[mq[i] as int] == i);
        assert(col * n + i == idx) by (nonlinear_arith)
            requires
                idx == n * col + i,
        ;
    }
    assert(t2.pattern.value@ =~= t.pattern.value@);
}

} // verus!
