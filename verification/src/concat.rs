use vstd::prelude::*;

verus! {

use vstd::arithmetic::div_mod::lemma_fundamental_div_mod_converse;
use crate::TransformError;
use crate::arith::{
    all_pos, prod, sum, within_isize, lemma_prod_remove, lemma_prod_ones, lemma_sum_snoc,
    lemma_sum_take_le,
};
use crate::meta::MetaTensor;
use crate::meta_shape::{AxisTag, MetaShape};
use crate::tensor::{
    Tensor, group_of, group_start, dist_count, dist_factors, lemma_group_of_unique,
    lemma_group_end_le_sum,
};
use crate::tiles::Tiles;

/// Every axis of the meta-tensor shares one broadcast value.
pub open spec fn all_shared(tags: Seq<AxisTag>) -> bool {
    forall|i: int| 0 <= i < tags.len() ==> #[trigger] tags[i] == AxisTag::Shared
}

/// Two extent vectors agree everywhere but on the concatenation axis.
pub open spec fn agrees(a: Seq<usize>, b: Seq<usize>, axis: int) -> bool {
    &&& a.len() == b.len()
    &&& forall|i: int| 0 <= i < a.len() && i != axis ==> a[i] == b[i]
}

/// The extents of the inputs along the concatenation axis.
pub open spec fn cat_extents<S>(inputs: Seq<Tensor<S>>, axis: int) -> Seq<usize> {
    Seq::new(inputs.len(), |k: int| inputs[k].tiles@[axis])
}

/// The inputs fit together: there is at least one, the axis names a
/// real tile axis of the first, and all agree off the axis.
pub open spec fn concat_ok<S>(inputs: Seq<Tensor<S>>, axis: int) -> bool {
    &&& inputs.len() > 0
    &&& 0 <= axis < inputs[0].tiles@.len() - 1
    &&& forall|k: int|
        0 <= k < inputs.len() ==> agrees(#[trigger] inputs[k].tiles@, inputs[0].tiles@, axis)
}

/// The overflow bounds that folding input `k` into the result needs:
/// its axis coefficient scaled by its base index, and the adjusted
/// offset, must fit a machine word.
pub open spec fn concat_fits_at<S>(inputs: Seq<Tensor<S>>, axis: int, k: int) -> bool {
    let base = group_start(cat_extents(inputs, axis), k);
    let n = inputs[0].tiles@.len() as int;
    let c = inputs[k].pattern.value@[axis] as int;
    let off = inputs[k].pattern.value@[n - 1] as int;
    &&& within_isize(c * base)
    &&& within_isize(off - c * base)
}

/// Every input's adjusted offset fits a machine word.
pub open spec fn concat_fits<S>(inputs: Seq<Tensor<S>>, axis: int) -> bool {
    forall|k: int| 0 <= k < inputs.len() ==> #[trigger] concat_fits_at(inputs, axis, k)
}

/// One coefficient of the concatenated pattern, at flat position `idx`
/// of the column-major value vector: the column of global index `x`
/// along the axis carries the rows of the input that owns `x`, with the
/// offset shifted so that the input's own addressing is reproduced.
pub open spec fn cat_pattern_entry<S>(inputs: Seq<Tensor<S>>, axis: int, idx: int) -> int {
    let n = inputs[0].tiles@.len() as int;
    let x = idx / n;
    let i = idx % n;
    let exts = cat_extents(inputs, axis);
    let k = group_of(exts, x);
    let col = inputs[k].pattern.value@;
    if i == n - 1 {
        col[n - 1] - col[axis] * group_start(exts, k)
    } else {
        col[i] as int
    }
}

impl<S: Clone> Tensor<S> {
    /// Concatenates the inputs along tile axis `axis`: the result's
    /// extent there is the sum of the inputs' extents, every other axis
    /// is unchanged, and the whole tile range becomes one logical
    /// dimension.  Along the axis both meta-tensors become
    /// distinguished: each position carries the pattern column and a
    /// clone of the storage handle of the input it came from.
    ///
    /// Only inputs whose meta-tensors are fully shared are accepted.
    /// Fails with `RankMismatch` when no input is given (an empty list
    /// has no common rank), with `AxisOutOfRange` when `axis` reaches
    /// the sentinel axis of the first input, and with `ShapeMismatch`
    /// exactly when some input disagrees with the first off the axis.
    pub fn concat(axis: usize, inputs: Vec<Tensor<S>>) -> (r: Result<Self, TransformError>)
        requires
            forall|k: int| 0 <= k < inputs@.len() ==> (#[trigger] inputs@[k]).wf(),
            forall|k: int|
                0 <= k < inputs@.len() ==> all_shared(#[trigger] inputs@[k].pattern.shape@)
                    && all_shared(inputs@[k].storage.shape@),
            concat_ok(inputs@, axis as int) ==> {
                &&& sum(cat_extents(inputs@, axis as int)) <= isize::MAX
                &&& prod(
                    inputs@[0].tiles@.update(
                        axis as int,
                        sum(cat_extents(inputs@, axis as int)) as usize,
                    ),
                ) <= isize::MAX
                &&& concat_fits(inputs@, axis as int)
            },
        ensures
            inputs@.len() == 0 ==> r == Err::<Self, TransformError>(TransformError::RankMismatch),
            inputs@.len() > 0 && axis >= inputs@[0].rank() ==> r == Err::<Self, TransformError>(
                TransformError::AxisOutOfRange,
            ),
            inputs@.len() > 0 && axis < inputs@[0].rank() && !concat_ok(inputs@, axis as int)
                ==> r == Err::<Self, TransformError>(TransformError::ShapeMismatch),
            concat_ok(inputs@, axis as int) ==> (r matches Ok(t) && {
                let total = sum(cat_extents(inputs@, axis as int));
                let n = inputs@[0].tiles@.len() as int;
                &&& t.wf()
                &&& t.tiles@ == inputs@[0].tiles@.update(axis as int, total as usize)
                &&& t.shape_groups@ == seq![(n - 1) as usize]
                &&& t.pattern.shape@ == Seq::new(
                    n as nat,
                    |i: int|
                        if i == axis {
                            AxisTag::Distinguished
                        } else {
                            AxisTag::Shared
                        },
                )
                &&& t.storage.shape@ == t.pattern.shape@
                &&& t.pattern.value@.len() == n * total
                &&& forall|idx: int|
                    0 <= idx < t.pattern.value@.len() ==> #[trigger] t.pattern.value@[idx] as int
                        == cat_pattern_entry(inputs@, axis as int, idx)
                &&& t.storage.value@.len() == total
                &&& forall|x: int|
                    0 <= x < total ==> cloned::<S>(
                        inputs@[group_of(cat_extents(inputs@, axis as int), x)].storage.value@[0],
                        #[trigger] t.storage.value@[x],
                    )
                &&& t.spec_size() == prod(
                    inputs@[0].tiles@.update(axis as int, total as usize).take(n - 1),
                )
            }),
    {
        let m = inputs.len();
        if m == 0 {
            return Err(TransformError::RankMismatch);
        }
        let n = inputs[0].tiles.0.len();
        let rank = n - 1;
        if axis >= rank {
            return Err(TransformError::AxisOutOfRange);
        }

        // Every input must agree with the first off the axis.
        let mut k: usize = 1;
        while k < m
            invariant
                1 <= k <= m,
                m == inputs@.len(),
                n == inputs@[0].tiles@.len(),
                axis < n - 1,
                forall|j: int|
                    0 <= j < k ==> agrees(#[trigger] inputs@[j].tiles@, inputs@[0].tiles@, axis as int),
            decreases m - k,
        {
            if inputs[k].tiles.0.len() != n {
                proof {
                    assert(!agrees(inputs@[k as int].tiles@, inputs@[0].tiles@, axis as int));
                }
                return Err(TransformError::ShapeMismatch);
            }
            let mut i: usize = 0;
            while i < n
                invariant
                    i <= n,
                    k < m,
                    m == inputs@.len(),
                    n == inputs@[0].tiles@.len(),
                    n == inputs@[k as int].tiles@.len(),
                    axis < n - 1,
                    forall|j: int|
                        0 <= j < i && j != axis ==> inputs@[k as int].tiles@[j]
                            == inputs@[0].tiles@[j],
                decreases n - i,
            {
                if i != axis && inputs[k].tiles.0[i] != inputs[0].tiles.0[i] {
                    proof {
                        assert(!agrees(inputs@[k as int].tiles@, inputs@[0].tiles@, axis as int));
                    }
                    return Err(TransformError::ShapeMismatch);
                }
                i = i + 1;
            }
            k = k + 1;
        }
        let ghost exts = cat_extents(inputs@, axis as int);
        proof {
            assert(concat_ok(inputs@, axis as int));
            assert(all_pos(exts));
        }

        // The summed extent along the axis.
        let mut total: usize = 0;
        let mut k: usize = 0;
        proof {
            assert(exts.take(0) =~= Seq::<usize>::empty());
        }
        while k < m
            invariant
                k <= m,
                m == inputs@.len(),
                axis < n - 1,
                n == inputs@[0].tiles@.len(),
                exts == cat_extents(inputs@, axis as int),
                concat_ok(inputs@, axis as int),
                forall|j: int| 0 <= j < inputs@.len() ==> (#[trigger] inputs@[j]).wf(),
                sum(exts) <= isize::MAX,
                total == sum(exts.take(k as int)),
                total <= isize::MAX,
            decreases m - k,
        {
            let e = inputs[k].tiles.0[axis];
            proof {
                assert(exts.take(k + 1) =~= exts.take(k as int).push(e));
                lemma_sum_snoc(exts.take(k as int), e);
                lemma_sum_take_le(exts, k + 1);
            }
            total = total + e;
            k = k + 1;
        }
        proof {
            assert(exts.take(m as int) =~= exts);
        }

        // The merged extents.
        let mut tv: Vec<usize> = Vec::new();
        let mut i: usize = 0;
        while i < n
            invariant
                i <= n,
                m == inputs@.len(),
                m >= 1,
                n == inputs@[0].tiles@.len(),
                axis < n - 1,
                tv@ == inputs@[0].tiles@.update(axis as int, total as usize).subrange(0, i as int),
            decreases n - i,
        {
            if i == axis {
                tv.push(total);
            } else {
                tv.push(inputs[0].tiles.0[i]);
            }
            assert(tv@ =~= inputs@[0].tiles@.update(axis as int, total as usize).subrange(0, i + 1));
            i = i + 1;
        }
        proof {
            assert(tv@ =~= inputs@[0].tiles@.update(axis as int, total as usize));
        }

        // One whole-range group.
        let mut gv: Vec<usize> = Vec::new();
        gv.push(rank);

        // The distinguished tags along the axis.
        let ghost tags_spec = Seq::new(
            n as nat,
            |i: int|
                if i == axis {
                    AxisTag::Distinguished
                } else {
                    AxisTag::Shared
                },
        );
        let mut tags: Vec<AxisTag> = Vec::new();
        let mut i: usize = 0;
        while i < n
            invariant
                i <= n,
                axis < n,
                tags_spec == Seq::new(
                    n as nat,
                    |j: int|
                        if j == axis {
                            AxisTag::Distinguished
                        } else {
                            AxisTag::Shared
                        },
                ),
                tags@ == tags_spec.subrange(0, i as int),
            decreases n - i,
        {
            if i == axis {
                tags.push(AxisTag::Distinguished);
            } else {
                tags.push(AxisTag::Shared);
            }
            assert(tags@ =~= tags_spec.subrange(0, i + 1));
            i = i + 1;
        }
        proof {
            assert(tags@ =~= tags_spec);
        }
        let tags2 = tags.clone();
        proof {
            assert(tags2@ =~= tags@);
        }

        // Pattern columns and storage handles, one run per input.
        let mut pv: Vec<isize> = Vec::new();
        let mut sv: Vec<S> = Vec::new();
        let mut base: usize = 0;
        let mut k: usize = 0;
        proof {
            assert(exts.take(0) =~= Seq::<usize>::empty());
        }
        while k < m
            invariant
                k <= m,
                m == inputs@.len(),
                n == inputs@[0].tiles@.len(),
                n >= 2,
                axis < n - 1,
                forall|j: int| 0 <= j < inputs@.len() ==> (#[trigger] inputs@[j]).wf(),
                forall|j: int|
                    0 <= j < inputs@.len() ==> all_shared(#[trigger] inputs@[j].pattern.shape@)
                        && all_shared(inputs@[j].storage.shape@),
                concat_ok(inputs@, axis as int),
                exts == cat_extents(inputs@, axis as int),
                all_pos(exts),
                sum(exts) <= isize::MAX,
                concat_fits(inputs@, axis as int),
                base == group_start(exts, k as int),
                base <= sum(exts),
                pv@.len() == base * n,
                forall|idx: int|
                    0 <= idx < pv@.len() ==> #[trigger] pv@[idx] as int == cat_pattern_entry(
                        inputs@,
                        axis as int,
                        idx,
                    ),
                sv@.len() == base,
                forall|x: int|
                    0 <= x < sv@.len() ==> cloned::<S>(
                        inputs@[group_of(exts, x)].storage.value@[0],
                        #[trigger] sv@[x],
                    ),
            decreases m - k,
        {
            proof {
                lemma_input_layout(inputs@, axis as int, k as int);
                lemma_group_end_le_sum(exts, k as int);
            }
            let e = inputs[k].tiles.0[axis];
            let c = inputs[k].pattern.value[axis];
            let off = inputs[k].pattern.value[n - 1];
            proof {
                assert(concat_fits_at(inputs@, axis as int, k as int));
            }
            let adj = off - c * (base as isize);
            let mut l: usize = 0;
            while l < e
                invariant
                    l <= e,
                    k < m,
                    m == inputs@.len(),
                    n == inputs@[0].tiles@.len(),
                    n >= 2,
                    axis < n - 1,
                    forall|j: int| 0 <= j < inputs@.len() ==> (#[trigger] inputs@[j]).wf(),
                    concat_ok(inputs@, axis as int),
                    exts == cat_extents(inputs@, axis as int),
                    all_pos(exts),
                    sum(exts) <= isize::MAX,
                    e == exts[k as int],
                    base == group_start(exts, k as int),
                    base + e <= sum(exts),
                    inputs@[k as int].pattern.value@.len() == n,
                    c == inputs@[k as int].pattern.value@[axis as int],
                    adj as int == inputs@[k as int].pattern.value@[n - 1] - c * base,
                    inputs@[k as int].storage.value@.len() == 1,
                    pv@.len() == (base + l) * n,
                    forall|idx: int|
                        0 <= idx < pv@.len() ==> #[trigger] pv@[idx] as int == cat_pattern_entry(
                            inputs@,
                            axis as int,
                            idx,
                        ),
                    sv@.len() == base + l,
                    forall|x: int|
                        0 <= x < sv@.len() ==> cloned::<S>(
                            inputs@[group_of(exts, x)].storage.value@[0],
                            #[trigger] sv@[x],
                        ),
                decreases e - l,
            {
                let ghost x = (base + l) as int;
                proof {
                    lemma_group_of_unique(exts, x, k as int);
                    assert((base + l) * n + n <= sum(exts) * n) by (nonlinear_arith)
                        requires
                            base + l < sum(exts),
                            n >= 1,
                    ;
                    assert(sum(exts) * n <= isize::MAX * n) by (nonlinear_arith)
                        requires
                            sum(exts) <= isize::MAX,
                            n >= 1,
                    ;
                    assert(isize::MAX * n <= isize::MAX * usize::MAX) by (nonlinear_arith)
                        requires
                            n <= usize::MAX,
                    ;
                }
                let mut i: usize = 0;
                while i < n
                    invariant
                        i <= n,
                        l < e,
                        k < m,
                        m == inputs@.len(),
                        n == inputs@[0].tiles@.len(),
                        n >= 2,
                        axis < n - 1,
                        forall|j: int| 0 <= j < inputs@.len() ==> (#[trigger] inputs@[j]).wf(),
                        concat_ok(inputs@, axis as int),
                        exts == cat_extents(inputs@, axis as int),
                        x == base + l,
                        group_of(exts, x) == k,
                        inputs@[k as int].pattern.value@.len() == n,
                        adj as int == inputs@[k as int].pattern.value@[n - 1]
                            - inputs@[k as int].pattern.value@[axis as int] * group_start(
                            exts,
                            k as int,
                        ),
                        pv@.len() == x * n + i,
                        x * n >= 0,
                        x * n + n <= isize::MAX * usize::MAX,
                        forall|idx: int|
                            0 <= idx < pv@.len() ==> #[trigger] pv@[idx] as int
                                == cat_pattern_entry(inputs@, axis as int, idx),
                    decreases n - i,
                {
                    let v: isize;
                    if i == n - 1 {
                        v = adj;
                    } else {
                        v = inputs[k].pattern.value[i];
                    }
                    pv.push(v);
                    proof {
                        lemma_fundamental_div_mod_converse(x * n + i, n as int, x, i as int);
                    }
                    i = i + 1;
                }
                let handle = inputs[k].storage.value[0].clone();
                sv.push(handle);
                proof {
                    assert((x + 1) * n == x * n + n) by (nonlinear_arith);
                }
                l = l + 1;
            }
            proof {
                assert(exts.take(k + 1) =~= exts.take(k as int).push(e));
                lemma_sum_snoc(exts.take(k as int), e);
                lemma_sum_take_le(exts, k + 1);
            }
            base = base + e;
            k = k + 1;
        }
        proof {
            assert(exts.take(m as int) =~= exts);
        }

        let t = Tensor {
            shape_groups: gv,
            tiles: Tiles(tv),
            pattern: MetaTensor { shape: MetaShape(tags), value: pv },
            storage: MetaTensor { shape: MetaShape(tags2), value: sv },
        };
        proof {
            lemma_concat_wf(inputs@, axis as int, t);
        }
        Ok(t)
    }
}

/// A fully shared well-formed input holds one pattern column and one
/// storage handle.
proof fn lemma_input_layout<S>(inputs: Seq<Tensor<S>>, axis: int, k: int)
    requires
        0 <= k < inputs.len(),
        inputs[k].wf(),
        all_shared(inputs[k].pattern.shape@),
        all_shared(inputs[k].storage.shape@),
    ensures
        inputs[k].pattern.value@.len() == inputs[k].tiles@.len(),
        inputs[k].storage.value@.len() == 1,
{
    let t = inputs[k];
    let pf = dist_factors(t.pattern.shape@, t.tiles@);
    assert(forall|i: int| 0 <= i < pf.len() ==> #[trigger] pf[i] == 1);
    lemma_prod_ones(pf);
    let sf = dist_factors(t.storage.shape@, t.tiles@);
    assert(forall|i: int| 0 <= i < sf.len() ==> #[trigger] sf[i] == 1);
    lemma_prod_ones(sf);
}

/// The concatenation of well-formed, fully shared inputs is well
/// formed.
proof fn lemma_concat_wf<S>(inputs: Seq<Tensor<S>>, axis: int, t: Tensor<S>)
    requires
        concat_ok(inputs, axis),
        inputs[0].tiles@.len() <= usize::MAX,
        forall|k: int| 0 <= k < inputs.len() ==> (#[trigger] inputs[k]).wf(),
        sum(cat_extents(inputs, axis)) <= isize::MAX,
        prod(inputs[0].tiles@.update(axis, sum(cat_extents(inputs, axis)) as usize))
            <= isize::MAX,
        t.tiles@ == inputs[0].tiles@.update(axis, sum(cat_extents(inputs, axis)) as usize),
        t.shape_groups@ == seq![(inputs[0].tiles@.len() - 1) as usize],
        t.pattern.shape@ == Seq::new(
            inputs[0].tiles@.len(),
            |i: int|
                if i == axis {
                    AxisTag::Distinguished
                } else {
                    AxisTag::Shared
                },
        ),
        t.storage.shape@ == t.pattern.shape@,
        t.pattern.value@.len() == sum(cat_extents(inputs, axis)) * inputs[0].tiles@.len(),
        t.storage.value@.len() == sum(cat_extents(inputs, axis)),
    ensures
        t.wf(),
        t.spec_size() == prod(t.tiles@.take(t.tiles@.len() - 1)),
        t.pattern.value@.len() == inputs[0].tiles@.len() as int * sum(cat_extents(inputs, axis)),
    decreases inputs.len(),
{
    let n = inputs[0].tiles@.len() as int;
    let total = sum(cat_extents(inputs, axis));
    assert(cat_extents(inputs, axis)[0] == inputs[0].tiles@[axis]);
    lemma_sum_take_le(cat_extents(inputs, axis), 1);
    assert(cat_extents(inputs, axis).take(1) =~= seq![inputs[0].tiles@[axis]]);
    crate::arith::lemma_sum_singleton(seq![inputs[0].tiles@[axis]]);
    assert(total >= inputs[0].tiles@[axis] >= 1);
    assert(t.tiles@[n - 1] == inputs[0].tiles@[n - 1]);
    assert(t.tiles.wf());
    crate::arith::lemma_sum_singleton(t.shape_groups@);
    assert(t.shape_groups@.len() == 1);
    assert(t.shape_groups@[0] == (n - 1) as usize);
    assert(t.tiles@.len() == n);
    assert(sum(t.shape_groups@) == t.rank());
    assert(all_pos(t.shape_groups@));

    // The broadcast position count of both meta-tensors is the summed
    // extent along the one distinguished axis.
    let f = dist_factors(t.pattern.shape@, t.tiles@);
    lemma_prod_remove(f, axis);
    assert(forall|i: int| 0 <= i < f.remove(axis).len() ==> #[trigger] f.remove(axis)[i] == 1);
    lemma_prod_ones(f.remove(axis));
    assert(f[axis] == total as usize);
    assert(dist_count(t.pattern.shape@, t.tiles@) == total);
    assert(dist_count(t.storage.shape@, t.tiles@) == total) by {
        assert(dist_factors(t.storage.shape@, t.tiles@) =~= f);
    }
    assert(t.pattern.value@.len() == t.width() * total) by (nonlinear_arith)
        requires
            t.pattern.value@.len() == total * n,
            t.width() == n,
    ;
}

} // verus!
