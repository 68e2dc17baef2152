use vstd::prelude::*;

verus! {

use vstd::arithmetic::div_mod::{lemma_fundamental_div_mod, lemma_fundamental_div_mod_converse};
use crate::TransformError;
use crate::arith::{
    all_pos, prod, sum, within_isize, lemma_prod_split, lemma_prod_pos, lemma_prod_zero,
    lemma_all_pos_of_prod_pos, lemma_prod_subrange_le, lemma_prod_concat, lemma_prod_singleton,
    lemma_sum_snoc, lemma_sum_take_le, lemma_sum_update, lemma_sum_nonneg,
};
use crate::meta::MetaTensor;
use crate::meta_shape::split_tags;
use crate::strides::range_product;
use crate::tensor::{
    Tensor, group_of, group_start, dist_count, dist_factors, lemma_group_of_unique,
    lemma_dist_count_split,
};
use crate::tiles::split_extents;

/// The dimension groups after a tile split: the group owning the split
/// axis widens by the number of inserted sub-axes, since a split never
/// creates a logical dimension.
pub open spec fn split_groups(groups: Seq<usize>, axis: int, insert: int) -> Seq<usize> {
    let g = group_of(groups, axis);
    groups.update(g, (groups[g] + insert) as usize)
}

/// One coefficient of the pattern after a tile split, at flat position
/// `idx` of the new column-major value vector: rows before the split
/// axis and after its sub-axes carry over, and sub-axis `j` steps by the
/// old coefficient times the extents of the sub-axes after `j`.
pub open spec fn split_pattern_entry(
    pat: Seq<isize>,
    n: int,
    axis: int,
    parts: Seq<usize>,
    idx: int,
) -> int {
    let n2 = n + parts.len() - 1;
    let col = idx / n2;
    let i = idx % n2;
    if i < axis {
        pat[col * n + i] as int
    } else if i < axis + parts.len() {
        (pat[col * n + axis] as int) * prod(parts.subrange(i - axis + 1, parts.len() as int))
    } else {
        pat[col * n + i - (parts.len() - 1)] as int
    }
}

/// One overflow bound on the coefficients a tile split derives.
pub open spec fn split_fits_at(
    pat: Seq<isize>,
    n: int,
    axis: int,
    parts: Seq<usize>,
    col: int,
    k: int,
) -> bool {
    within_isize((pat[col * n + axis] as int) * prod(parts.subrange(k, parts.len() as int)))
}

/// Every coefficient a tile split derives fits a machine word.
pub open spec fn split_fits(pat: Seq<isize>, n: int, axis: int, parts: Seq<usize>) -> bool {
    forall|col: int, k: int|
        0 <= col < pat.len() as int / n && 1 <= k <= parts.len() ==> #[trigger] split_fits_at(
            pat,
            n,
            axis,
            parts,
            col,
            k,
        )
}

impl<S> Tensor<S> {
    /// Subdivides tile axis `axis` into the run of extents `parts`,
    /// keeping the address of every element: sub-axis `j` steps by the
    /// old coefficient times the extents of the sub-axes after it.
    ///
    /// Fails with `AxisOutOfRange` exactly when `axis` reaches the
    /// sentinel axis or lies beyond it, and otherwise with
    /// `ShapeMismatch` exactly when the extents in `parts` do not
    /// multiply out to the extent of `axis`.
    pub fn tile_split(self, axis: usize, parts: &[usize]) -> (r: Result<Self, TransformError>)
        requires
            self.wf(),
            parts@.len() >= 1,
            axis < self.rank() && prod(parts@) == self.tiles@[axis as int] ==> {
                &&& split_fits(self.pattern.value@, self.width(), axis as int, parts@)
                &&& self.width() + parts@.len() - 1 <= usize::MAX
            },
        ensures
            axis >= self.rank() ==> r == Err::<Self, TransformError>(TransformError::AxisOutOfRange),
            axis < self.rank() && prod(parts@) != self.tiles@[axis as int] ==> r == Err::<
                Self,
                TransformError,
            >(TransformError::ShapeMismatch),
            axis < self.rank() && prod(parts@) == self.tiles@[axis as int] && parts@.len() == 1
                ==> r == Ok::<Self, TransformError>(self),
            axis < self.rank() && prod(parts@) == self.tiles@[axis as int] ==> (r matches Ok(t) && {
                &&& t.wf()
                &&& t.tiles@ == split_extents(self.tiles@, axis as int, parts@)
                &&& t.shape_groups@ == split_groups(
                    self.shape_groups@,
                    axis as int,
                    parts@.len() - 1,
                )
                &&& t.pattern.shape@ == split_tags(self.pattern.shape@, axis as int, parts@.len() - 1)
                &&& t.storage.shape@ == split_tags(self.storage.shape@, axis as int, parts@.len() - 1)
                &&& t.storage.value == self.storage.value
                &&& t.pattern.value@.len() == (self.width() + parts@.len() - 1) * (
                self.pattern.value@.len() as int / self.width())
                &&& forall|idx: int|
                    0 <= idx < t.pattern.value@.len() ==> #[trigger] t.pattern.value@[idx] as int
                        == split_pattern_entry(
                        self.pattern.value@,
                        self.width(),
                        axis as int,
                        parts@,
                        idx,
                    )
                &&& t.spec_size() == self.spec_size()
            }),
    {
        let ghost s0 = self;
        let n = self.tiles.0.len();
        let rank = n - 1;
        if axis >= rank {
            return Err(TransformError::AxisOutOfRange);
        }
        let extent = self.tiles.0[axis];
        proof {
            lemma_prod_subrange_le(s0.tiles@, axis as int, axis + 1);
            lemma_prod_singleton(s0.tiles@.subrange(axis as int, axis + 1));
            assert(extent <= prod(s0.tiles@));
        }

        // Compare the product of `parts` against the extent without ever
        // overflowing: a running product that passes `extent` can only
        // end at the extent again if a later factor is zero, and then it
        // ends at zero.
        let k = parts.len();
        let mut acc: usize = 1;
        let mut i: usize = 0;
        proof {
            assert(parts@.take(0) =~= Seq::<usize>::empty());
        }
        while i < k
            invariant
                i <= k,
                k == parts@.len(),
                self == s0,
                axis < s0.rank(),
                extent == s0.tiles@[axis as int],
                1 <= extent <= isize::MAX,
                acc == prod(parts@.take(i as int)),
                1 <= acc <= extent,
            decreases k - i,
        {
            let d = parts[i];
            proof {
                assert(parts@.take(i + 1) =~= parts@.take(i as int).push(d));
                crate::arith::lemma_prod_snoc(parts@.take(i as int), d);
            }
            if d == 0 {
                proof {
                    lemma_prod_zero(parts@, i as int);
                }
                return Err(TransformError::ShapeMismatch);
            }
            if acc > extent / d {
                proof {
                    lemma_fundamental_div_mod(extent as int, d as int);
                    assert(acc * d > extent) by (nonlinear_arith)
                        requires
                            acc > extent / d,
                            d >= 1,
                            extent >= d * (extent / d),
                            extent % d < d,
                            extent == d * (extent / d) + extent % d,
                    ;
                    lemma_prod_split(parts@, i + 1);
                    let rest = parts@.skip(i + 1);
                    if all_pos(rest) {
                        lemma_prod_pos(rest);
                        assert(prod(parts@) > extent) by (nonlinear_arith)
                            requires
                                prod(parts@) == prod(parts@.take(i + 1)) * prod(rest),
                                prod(parts@.take(i + 1)) > extent,
                                prod(rest) >= 1,
                                extent >= 1,
                        ;
                    } else {
                        let j = choose|j: int| 0 <= j < rest.len() && !(#[trigger] rest[j] >= 1);
                        lemma_prod_zero(parts@, i + 1 + j);
                    }
                }
                return Err(TransformError::ShapeMismatch);
            }
            proof {
                lemma_fundamental_div_mod(extent as int, d as int);
                assert(acc * d <= extent) by (nonlinear_arith)
                    requires
                        acc <= extent / d,
                        d >= 1,
                        extent == d * (extent / d) + extent % d,
                        extent % d >= 0,
                ;
                assert(acc * d >= 1) by (nonlinear_arith)
                    requires
                        acc >= 1,
                        d >= 1,
                ;
            }
            acc = acc * d;
            i = i + 1;
        }
        proof {
            assert(parts@.take(k as int) =~= parts@);
        }
        if acc != extent {
            return Err(TransformError::ShapeMismatch);
        }
        proof {
            lemma_all_pos_of_prod_pos(parts@);
        }

        // A single-part split is an identity, already guarded by the
        // extent check above.
        if k == 1 {
            proof {
                lemma_degenerate_split(s0, axis as int, parts@);
            }
            return Ok(self);
        }

        // Locate the logical dimension that owns the split axis.
        let n_groups = self.shape_groups.len();
        let mut g: usize = 0;
        let mut start: usize = 0;
        proof {
            assert(self.shape_groups@.take(0) =~= Seq::<usize>::empty());
            lemma_sum_nonneg(s0.shape_groups@);
            if n_groups == 0 {
                assert(sum(s0.shape_groups@.take(0)) == 0);
                assert(s0.shape_groups@.take(0) =~= s0.shape_groups@);
            }
        }
        while axis - start >= self.shape_groups[g]
            invariant
                g < n_groups,
                n_groups == s0.shape_groups@.len(),
                self == s0,
                s0.wf(),
                axis < s0.rank(),
                start == group_start(s0.shape_groups@, g as int),
                start <= axis,
            decreases n_groups - g,
        {
            let width = self.shape_groups[g];
            proof {
                assert(s0.shape_groups@.take(g + 1) =~= s0.shape_groups@.take(g as int).push(width));
                lemma_sum_snoc(s0.shape_groups@.take(g as int), width);
                lemma_sum_take_le(s0.shape_groups@, g + 1);
                if g + 1 == n_groups {
                    assert(s0.shape_groups@.take(g + 1) =~= s0.shape_groups@);
                }
            }
            start = start + width;
            g = g + 1;
        }
        proof {
            lemma_group_of_unique(s0.shape_groups@, axis as int, g as int);
        }

        // Derive the new pattern columns with safe, explicit growth.
        let insert = k - 1;
        let n2 = n + insert;
        let ncols = self.pattern.value.len() / n;
        proof {
            assert(s0.pattern.value@.len() <= usize::MAX);
            let dp = dist_count(s0.pattern.shape@, s0.tiles@);
            assert(all_pos(dist_factors(s0.pattern.shape@, s0.tiles@)));
            lemma_prod_pos(dist_factors(s0.pattern.shape@, s0.tiles@));
            assert(s0.pattern.value@.len() == dp * n) by (nonlinear_arith)
                requires
                    s0.pattern.value@.len() == n * dp,
            ;
            lemma_fundamental_div_mod_converse(
                s0.pattern.value@.len() as int,
                n as int,
                dp,
                0,
            );
            assert(ncols == dp);
        }
        let mut pv: Vec<isize> = Vec::new();
        let mut col: usize = 0;
        while col < ncols
            invariant
                col <= ncols,
                self == s0,
                s0.wf(),
                n == s0.width(),
                rank == s0.rank(),
                axis < rank,
                k == parts@.len(),
                1 <= k,
                insert == k - 1,
                n2 == n + insert,
                n2 <= usize::MAX,
                ncols == s0.pattern.value@.len() as int / n as int,
                s0.pattern.value@.len() == n * ncols,
                n * ncols <= usize::MAX,
                prod(parts@) == s0.tiles@[axis as int],
                all_pos(parts@),
                1 <= s0.tiles@[axis as int] <= isize::MAX,
                split_fits(s0.pattern.value@, n as int, axis as int, parts@),
                pv@.len() == col * n2,
                forall|idx: int|
                    0 <= idx < pv@.len() ==> #[trigger] pv@[idx] as int == split_pattern_entry(
                        s0.pattern.value@,
                        n as int,
                        axis as int,
                        parts@,
                        idx,
                    ),
            decreases ncols - col,
        {
            proof {
                assert(col * n + n <= ncols * n) by (nonlinear_arith)
                    requires
                        col < ncols,
                        n >= 1,
                ;
                assert(col * n >= 0) by (nonlinear_arith)
                    requires
                        col >= 0,
                        n >= 1,
                ;
                assert(ncols * n == n * ncols) by (nonlinear_arith);
            }
            let c = self.pattern.value[col * n + axis];
            let mut i: usize = 0;
            while i < n2
                invariant
                    i <= n2,
                    col < ncols,
                    self == s0,
                    s0.wf(),
                    n == s0.width(),
                    rank == s0.rank(),
                    axis < rank,
                    k == parts@.len(),
                    1 <= k,
                    insert == k - 1,
                    n2 == n + insert,
                    ncols == s0.pattern.value@.len() as int / n as int,
                    s0.pattern.value@.len() == n * ncols,
                    n * ncols <= usize::MAX,
                    col * n + n <= ncols * n,
                    ncols * n == n * ncols,
                    col * n >= 0,
                    c == s0.pattern.value@[col * n + axis],
                    prod(parts@) == s0.tiles@[axis as int],
                    all_pos(parts@),
                    1 <= s0.tiles@[axis as int] <= isize::MAX,
                    split_fits(s0.pattern.value@, n as int, axis as int, parts@),
                    pv@.len() == col * n2 + i,
                    forall|idx: int|
                        0 <= idx < pv@.len() ==> #[trigger] pv@[idx] as int == split_pattern_entry(
                            s0.pattern.value@,
                            n as int,
                            axis as int,
                            parts@,
                            idx,
                        ),
                decreases n2 - i,
            {
                let v: isize;
                if i < axis {
                    v = self.pattern.value[col * n + i];
                } else if i < axis + k {
                    let from = i - axis + 1;
                    proof {
                        lemma_prod_subrange_le(parts@, from as int, k as int);
                        assert(split_fits_at(
                            s0.pattern.value@,
                            n as int,
                            axis as int,
                            parts@,
                            col as int,
                            from as int,
                        ));
                    }
                    let sp = range_product(parts, from, k);
                    v = c * (sp as isize);
                } else {
                    v = self.pattern.value[col * n + (i - insert)];
                }
                pv.push(v);
                proof {
                    lemma_fundamental_div_mod_converse(
                        (col * n2 + i) as int,
                        n2 as int,
                        col as int,
                        i as int,
                    );
                    assert(pv@[col * n2 + i] == v);
                    assert(v as int == split_pattern_entry(
                        s0.pattern.value@,
                        n as int,
                        axis as int,
                        parts@,
                        (col * n2 + i) as int,
                    ));
                }
                i = i + 1;
            }
            proof {
                assert((col + 1) * n2 == col * n2 + n2) by (nonlinear_arith);
            }
            col = col + 1;
        }

        // Assemble the result; the tags of both meta-tensors split the
        // same way, and the storage handles stay as they are.
        let ghost old_groups = self.shape_groups@;
        let mut groups2 = self.shape_groups;
        let w = groups2[g];
        proof {
            crate::arith::lemma_sum_element_le(old_groups, g as int);
        }
        groups2[g] = w + insert;
        let tiles2 = self.tiles.tile_split(axis, parts);
        let pattern2 = MetaTensor { shape: self.pattern.shape.split(axis, insert), value: pv };
        let storage2 = self.storage.tile_split(axis, parts);
        let t = Tensor { shape_groups: groups2, tiles: tiles2, pattern: pattern2, storage: storage2 };
        proof {
            lemma_split_wf(s0, t, axis as int, parts@, g as int, ncols as int);
            assert(t.pattern.value@.len() == ncols * n2);
            assert(ncols * n2 == n2 * ncols) by (nonlinear_arith);
        }
        Ok(t)
    }
}

/// The split result of a well-formed tensor is well formed and its
/// element count is unchanged.
#[verifier::rlimit(50)]
proof fn lemma_split_wf<S>(s0: Tensor<S>, t: Tensor<S>, axis: int, parts: Seq<usize>, g: int, ncols: int)
    requires
        s0.wf(),
        parts.len() >= 1,
        0 <= axis < s0.rank(),
        prod(parts) == s0.tiles@[axis],
        all_pos(parts),
        g == group_of(s0.shape_groups@, axis),
        0 <= g < s0.shape_groups@.len(),
        ncols == dist_count(s0.pattern.shape@, s0.tiles@),
        t.tiles@ == split_extents(s0.tiles@, axis, parts),
        t.shape_groups@ == s0.shape_groups@.update(g, (s0.shape_groups@[g] + parts.len() - 1) as usize),
        t.pattern.shape@ == split_tags(s0.pattern.shape@, axis, parts.len() - 1),
        t.storage.shape@ == split_tags(s0.storage.shape@, axis, parts.len() - 1),
        t.pattern.value@.len() == ncols * (s0.width() + parts.len() - 1),
        t.storage.value@.len() == s0.storage.value@.len(),
        s0.width() + parts.len() - 1 <= usize::MAX,
    ensures
        t.wf(),
        t.spec_size() == s0.spec_size(),
        t.shape_groups@ == split_groups(s0.shape_groups@, axis, parts.len() - 1),
{
    let n = s0.width();
    let insert = parts.len() - 1;
    let n2 = n + insert;
    crate::arith::lemma_sum_element_le(s0.shape_groups@, g);
    assert(s0.shape_groups@[g] + insert <= usize::MAX);

    // The extents: same entries but for the split run, so the product
    // and the sentinel carry over.
    assert(t.tiles@ =~= s0.tiles@.subrange(0, axis) + parts + s0.tiles@.subrange(axis + 1, n));
    lemma_prod_concat(s0.tiles@.subrange(0, axis) + parts, s0.tiles@.subrange(axis + 1, n));
    lemma_prod_concat(s0.tiles@.subrange(0, axis), parts);
    assert(s0.tiles@ =~= s0.tiles@.subrange(0, axis) + seq![s0.tiles@[axis]] + s0.tiles@.subrange(
        axis + 1,
        n,
    ));
    lemma_prod_concat(
        s0.tiles@.subrange(0, axis) + seq![s0.tiles@[axis]],
        s0.tiles@.subrange(axis + 1, n),
    );
    lemma_prod_concat(s0.tiles@.subrange(0, axis), seq![s0.tiles@[axis]]);
    lemma_prod_singleton(seq![s0.tiles@[axis]]);
    assert(prod(t.tiles@) == prod(s0.tiles@));
    assert(t.tiles@[t.tiles@.len() - 1] == s0.tiles@[n - 1]);
    assert(t.tiles.wf());

    // Element count: strip the sentinel from both products.
    lemma_prod_split(t.tiles@, t.tiles@.len() - 1);
    lemma_prod_singleton(t.tiles@.skip(t.tiles@.len() - 1));
    assert(prod(t.tiles@) == prod(t.tiles@.take(t.tiles@.len() - 1)) * prod(
        t.tiles@.skip(t.tiles@.len() - 1),
    ));
    assert(prod(t.tiles@.skip(t.tiles@.len() - 1)) == 1);
    assert(prod(t.tiles@.take(t.tiles@.len() - 1)) == prod(t.tiles@)) by (nonlinear_arith)
        requires
            prod(t.tiles@) == prod(t.tiles@.take(t.tiles@.len() - 1)) * prod(
                t.tiles@.skip(t.tiles@.len() - 1),
            ),
            prod(t.tiles@.skip(t.tiles@.len() - 1)) == 1,
    ;
    lemma_prod_split(s0.tiles@, n - 1);
    lemma_prod_singleton(s0.tiles@.skip(n - 1));
    assert(prod(s0.tiles@) == prod(s0.tiles@.take(n - 1)) * prod(s0.tiles@.skip(n - 1)));
    assert(prod(s0.tiles@.skip(n - 1)) == 1);
    assert(prod(s0.tiles@.take(n - 1)) == prod(s0.tiles@)) by (nonlinear_arith)
        requires
            prod(s0.tiles@) == prod(s0.tiles@.take(n - 1)) * prod(s0.tiles@.skip(n - 1)),
            prod(s0.tiles@.skip(n - 1)) == 1,
    ;
    assert(t.spec_size() == prod(t.tiles@.take(t.tiles@.len() - 1)));
    assert(s0.spec_size() == prod(s0.tiles@.take(n - 1)));
    assert(t.spec_size() == s0.spec_size());

    // The groups still partition the axes.
    lemma_sum_update(s0.shape_groups@, g, (s0.shape_groups@[g] + insert) as usize);
    assert(sum(t.shape_groups@) == t.rank());
    assert(all_pos(t.shape_groups@));

    // Both meta-tensors keep their broadcast position count.
    lemma_dist_count_split(s0.pattern.shape@, s0.tiles@, axis, parts);
    lemma_dist_count_split(s0.storage.shape@, s0.tiles@, axis, parts);
    assert(t.pattern.value@.len() == t.width() * dist_count(t.pattern.shape@, t.tiles@))
        by (nonlinear_arith)
        requires
            t.pattern.value@.len() == ncols * n2,
            t.width() == n2,
            dist_count(t.pattern.shape@, t.tiles@) == ncols,
    ;
    assert(t.storage.value@.len() == dist_count(t.storage.shape@, t.tiles@));
}

/// A split into one part that reproduces the extent changes nothing:
/// every field of the input already satisfies the split contract.
proof fn lemma_degenerate_split<S>(s0: Tensor<S>, axis: int, parts: Seq<usize>)
    requires
        s0.wf(),
        parts.len() == 1,
        0 <= axis < s0.rank(),
        prod(parts) == s0.tiles@[axis],
    ensures
        s0.tiles@ == split_extents(s0.tiles@, axis, parts),
        s0.shape_groups@ == split_groups(s0.shape_groups@, axis, 0),
        s0.pattern.shape@ == split_tags(s0.pattern.shape@, axis, 0),
        s0.storage.shape@ == split_tags(s0.storage.shape@, axis, 0),
        s0.pattern.value@.len() == (s0.width() + parts.len() - 1) * (
        s0.pattern.value@.len() as int / s0.width()),
        forall|idx: int|
            0 <= idx < s0.pattern.value@.len() ==> #[trigger] s0.pattern.value@[idx] as int
                == split_pattern_entry(s0.pattern.value@, s0.width(), axis, parts, idx),
{
    let n = s0.width();
    crate::arith::lemma_prod_singleton(parts);
    assert(parts[0] == s0.tiles@[axis]);
    assert(s0.tiles@ =~= split_extents(s0.tiles@, axis, parts));
    crate::tensor::lemma_group_of_range(s0.shape_groups@, axis);
    assert(s0.shape_groups@ =~= split_groups(s0.shape_groups@, axis, 0));
    assert(s0.pattern.shape@ =~= split_tags(s0.pattern.shape@, axis, 0));
    assert(s0.storage.shape@ =~= split_tags(s0.storage.shape@, axis, 0));

    let dp = dist_count(s0.pattern.shape@, s0.tiles@);
    assert(all_pos(dist_factors(s0.pattern.shape@, s0.tiles@)));
    lemma_prod_pos(dist_factors(s0.pattern.shape@, s0.tiles@));
    assert(s0.pattern.value@.len() == dp * n) by (nonlinear_arith)
        requires
            s0.pattern.value@.len() == n * dp,
    ;
    lemma_fundamental_div_mod_converse(s0.pattern.value@.len() as int, n, dp, 0);
    assert forall|idx: int| 0 <= idx < s0.pattern.value@.len() implies #[trigger] s0
        .pattern
        .value@[idx] as int == split_pattern_entry(s0.pattern.value@, n, axis, parts, idx) by {
        lemma_fundamental_div_mod(idx, n);
        vstd::arithmetic::div_mod::lemma_mod_bound(idx, n);
        let col = idx / n;
        let i = idx % n;
        assert(col * n + i == idx) by (nonlinear_arith)
            requires
                idx == n * col + i,
        ;
        if i == axis {
            assert(parts.subrange(i - axis + 1, parts.len() as int)
                =~= Seq::<usize>::empty());
            assert(prod(parts.subrange(i - axis + 1, parts.len() as int)) == 1);
            let c = s0.pattern.value@[col * n + axis] as int;
            assert(c * prod(parts.subrange(i - axis + 1, parts.len() as int)) == c)
                by (nonlinear_arith)
                requires
                    prod(parts.subrange(i - axis + 1, parts.len() as int)) == 1,
            ;
        }
    }
}

} // verus!
