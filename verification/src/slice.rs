use vstd::prelude::*;

verus! {

use vstd::arithmetic::div_mod::lemma_fundamental_div_mod_converse;
use crate::TransformError;
use crate::arith::{all_pos, prod, within_isize, lemma_prod_pos, lemma_prod_subrange_le};
use crate::meta::MetaTensor;
use crate::meta_shape::AxisTag;
use crate::tensor::{Tensor, dist_count, dist_factors};
use crate::tiles::Tiles;

/// One per-axis slice descriptor: take `len` indices from `start`,
/// stepping by `step`; a negative step walks backwards and a zero step
/// broadcasts the single index `start`.
#[derive(Clone, Copy, PartialEq, Eq, Structural, Hash, Debug)]
pub struct SliceDim {
    pub start: usize,
    pub step: isize,
    pub len: usize,
}

/// The descriptor clamped against the extent it slices: the reach of
/// the walk from `start` bounds `len`, and a backward walk starts no
/// later than the last index.
pub open spec fn spec_normalize(d: SliceDim, len: usize) -> SliceDim {
    if d.step > 0 {
        let fit = (len - d.start + d.step - 1) / (d.step as int);
        SliceDim {
            start: d.start,
            step: d.step,
            len: (if fit <= len {
                fit
            } else {
                len as int
            }) as usize,
        }
    } else if d.step == 0 {
        d
    } else {
        let start = if d.start <= len - 1 {
            d.start as int
        } else {
            len - 1
        };
        let k = -(d.step as int);
        let fit = (start + k) / k;
        SliceDim {
            start: start as usize,
            step: d.step,
            len: (if fit <= len {
                fit
            } else {
                len as int
            }) as usize,
        }
    }
}

/// The inputs on which a descriptor normalizes: a forward or broadcast
/// walk must start inside the extent, and a broadcast must keep at
/// least one index.
pub open spec fn normalize_pre(d: SliceDim, len: usize) -> bool {
    &&& len >= 1
    &&& d.step >= 0 ==> d.start < len
    &&& d.step == 0 ==> d.len >= 1
}

impl SliceDim {
    /// Clamps the descriptor against the extent of the axis it slices.
    pub fn normalize(&self, len: usize) -> (r: Self)
        requires
            normalize_pre(*self, len),
            len <= isize::MAX,
        ensures
            r == spec_normalize(*self, len),
    {
        if self.step > 0 {
            let step = self.step as usize;
            let fit = (len - self.start + step - 1) / step;
            SliceDim {
                start: self.start,
                step: self.step,
                len: if fit <= len {
                    fit
                } else {
                    len
                },
            }
        } else if self.step == 0 {
            SliceDim { start: self.start, step: self.step, len: self.len }
        } else {
            let start = if self.start <= len - 1 {
                self.start
            } else {
                len - 1
            };
            let k: usize = if self.step == isize::MIN {
                (isize::MAX as usize) + 1
            } else {
                (-self.step) as usize
            };
            proof {
                assert(k == -(self.step as int));
            }
            let fit = (start + k) / k;
            SliceDim {
                start,
                step: self.step,
                len: if fit <= len {
                    fit
                } else {
                    len
                },
            }
        }
    }
}

impl SliceDim {
    /// A descriptor with the three fields given outright.
    pub fn new(start: usize, step: isize, len: usize) -> (r: Self)
        ensures
            r == (SliceDim { start, step, len }),
    {
        SliceDim { start, step, len }
    }

    /// The whole axis, in order.
    pub fn all() -> (r: Self)
        ensures
            r == (SliceDim { start: 0, step: 1, len: usize::MAX }),
    {
        SliceDim { start: 0, step: 1, len: usize::MAX }
    }

    /// The whole axis, walked backwards.
    pub fn rev() -> (r: Self)
        ensures
            r == (SliceDim { start: usize::MAX, step: -1isize, len: usize::MAX }),
    {
        SliceDim { start: usize::MAX, step: -1, len: usize::MAX }
    }

    /// The first `len` indices.
    pub fn take(len: usize) -> (r: Self)
        ensures
            r == (SliceDim { start: 0, step: 1, len }),
    {
        SliceDim { start: 0, step: 1, len }
    }

    /// The indices from `start` up to `end`, exclusive.
    pub fn from_until(start: usize, end: usize) -> (r: Self)
        requires
            start <= end,
        ensures
            r == (SliceDim { start, step: 1, len: (end - start) as usize }),
    {
        SliceDim { start, step: 1, len: end - start }
    }

    /// `len` indices starting at `start`.
    pub fn from_take(start: usize, len: usize) -> (r: Self)
        ensures
            r == (SliceDim { start, step: 1, len }),
    {
        SliceDim { start, step: 1, len }
    }

    /// `len` indices starting at `start`, stepping by `step`.
    pub fn from_take_per(start: usize, len: usize, step: isize) -> (r: Self)
        ensures
            r == (SliceDim { start, step, len }),
    {
        SliceDim { start, step, len }
    }
}

/// A normalized descriptor keeps at least one index whenever its
/// broadcast length was positive.
pub proof fn lemma_normalize_pos(d: SliceDim, len: usize)
    requires
        normalize_pre(d, len),
        len <= isize::MAX,
    ensures
        spec_normalize(d, len).len >= 1,
        spec_normalize(d, len).start < len,
{
    if d.step > 0 {
        let s = d.step as int;
        assert((len - d.start + s - 1) / s >= 1) by (nonlinear_arith)
            requires
                s >= 1,
                len - d.start >= 1,
        ;
    } else if d.step < 0 {
        let start = if d.start <= len - 1 {
            d.start as int
        } else {
            len - 1
        };
        let k = -(d.step as int);
        assert((start + k) / k >= 1) by (nonlinear_arith)
            requires
                k >= 1,
                start >= 0,
        ;
    }
}

/// The descriptors clamped axis by axis.
pub open spec fn norm_dims(meta: Seq<SliceDim>, tiles: Seq<usize>) -> Seq<SliceDim> {
    Seq::new(meta.len(), |i: int| spec_normalize(meta[i], tiles[i]))
}

/// The offset term after the first `i` axes of one column have been
/// folded in: each axis adds its start index times its coefficient.
pub open spec fn slice_off(pat: Seq<isize>, n: int, nd: Seq<SliceDim>, col: int, i: int) -> int
    decreases i,
{
    if i <= 0 {
        pat[col * n + (n - 1)] as int
    } else {
        slice_off(pat, n, nd, col, i - 1) + nd[i - 1].start * pat[col * n + (i - 1)]
    }
}

/// The overflow bounds the slice arithmetic needs at one axis of one
/// column.
pub open spec fn slice_fits_at(pat: Seq<isize>, n: int, nd: Seq<SliceDim>, col: int, i: int) -> bool {
    &&& within_isize(slice_off(pat, n, nd, col, i))
    &&& (i < nd.len() ==> within_isize((nd[i].step as int) * pat[col * n + i])
        && within_isize((nd[i].start as int) * pat[col * n + i]))
}

/// Every coefficient and every partial offset a slice derives fits a
/// machine word.
pub open spec fn slice_fits(pat: Seq<isize>, n: int, nd: Seq<SliceDim>) -> bool {
    forall|col: int, i: int|
        0 <= col < pat.len() as int / n && 0 <= i <= nd.len() ==> #[trigger] slice_fits_at(
            pat,
            n,
            nd,
            col,
            i,
        )
}

/// One coefficient of the pattern after a slice, at flat position `idx`
/// of the new column-major value vector: each real row scales by its
/// step, and the sentinel row absorbs the start indices.
pub open spec fn slice_pattern_entry(pat: Seq<isize>, n: int, nd: Seq<SliceDim>, idx: int) -> int {
    let col = idx / n;
    let i = idx % n;
    if i < n - 1 {
        (nd[i].step as int) * pat[col * n + i]
    } else {
        slice_off(pat, n, nd, col, n - 1)
    }
}

impl<S> Tensor<S> {
    /// Applies one slice descriptor per real tile axis: the addressing
    /// changes, but which physical region owns which tile does not, so
    /// the storage map is untouched.
    ///
    /// Fails with `RankMismatch` exactly when the descriptors do not
    /// cover exactly the non-sentinel axes.
    pub fn tile_slice(self, meta: &[SliceDim]) -> (r: Result<Self, TransformError>)
        requires
            self.wf(),
            meta@.len() == self.rank() ==> {
                &&& forall|i: int|
                    0 <= i < meta@.len() ==> normalize_pre(#[trigger] meta@[i], self.tiles@[i])
                &&& slice_fits(
                    self.pattern.value@,
                    self.width(),
                    norm_dims(meta@, self.tiles@),
                )
                &&& prod(
                    Seq::new(self.rank() as nat, |i: int| norm_dims(meta@, self.tiles@)[i].len),
                ) <= isize::MAX
                &&& forall|i: int|
                    0 <= i < meta@.len() && (self.pattern.shape@[i] == AxisTag::Distinguished
                        || self.storage.shape@[i] == AxisTag::Distinguished)
                        ==> #[trigger] norm_dims(meta@, self.tiles@)[i] == (SliceDim {
                        start: 0,
                        step: 1,
                        len: self.tiles@[i],
                    })
            },
        ensures
            meta@.len() != self.rank() ==> r == Err::<Self, TransformError>(
                TransformError::RankMismatch,
            ),
            meta@.len() == self.rank() ==> (r matches Ok(t) && {
                let nd = norm_dims(meta@, self.tiles@);
                &&& t.wf()
                &&& t.tiles@ == Seq::new(
                    self.width() as nat,
                    |i: int|
                        if i < self.rank() {
                            nd[i].len
                        } else {
                            1usize
                        },
                )
                &&& t.shape_groups == self.shape_groups
                &&& t.pattern.shape == self.pattern.shape
                &&& t.storage == self.storage
                &&& t.pattern.value@.len() == self.pattern.value@.len()
                &&& forall|idx: int|
                    0 <= idx < t.pattern.value@.len() ==> #[trigger] t.pattern.value@[idx] as int
                        == slice_pattern_entry(self.pattern.value@, self.width(), nd, idx)
                &&& t.spec_size() == prod(Seq::new(self.rank() as nat, |i: int| nd[i].len))
            }),
    {
        let ghost s0 = self;
        let n = self.tiles.0.len();
        if meta.len() != n - 1 {
            return Err(TransformError::RankMismatch);
        }
        let rank = n - 1;
        proof {
            assert forall|i: int| 0 <= i < n implies #[trigger] s0.tiles@[i] <= isize::MAX by {
                lemma_prod_subrange_le(s0.tiles@, i, i + 1);
                crate::arith::lemma_prod_singleton(s0.tiles@.subrange(i, i + 1));
            }
        }
        let ghost nd_spec = norm_dims(meta@, s0.tiles@);

        // Clamp the descriptors against the current extents.
        let mut nd: Vec<SliceDim> = Vec::new();
        let mut i: usize = 0;
        while i < rank
            invariant
                i <= rank,
                self == s0,
                s0.wf(),
                n == s0.width(),
                rank == s0.rank(),
                meta@.len() == rank,
                forall|j: int|
                    0 <= j < meta@.len() ==> normalize_pre(#[trigger] meta@[j], s0.tiles@[j]),
                forall|j: int| 0 <= j < n ==> #[trigger] s0.tiles@[j] <= isize::MAX,
                nd_spec == norm_dims(meta@, s0.tiles@),
                nd@ == nd_spec.subrange(0, i as int),
            decreases rank - i,
        {
            let d = meta[i].normalize(self.tiles.0[i]);
            nd.push(d);
            assert(nd@ =~= nd_spec.subrange(0, i + 1));
            i = i + 1;
        }
        proof {
            assert(nd@ =~= nd_spec);
        }

        // The sliced extents.
        let ghost tiles_spec = Seq::new(
            n as nat,
            |i: int|
                if i < rank {
                    nd_spec[i].len
                } else {
                    1usize
                },
        );
        let mut tv: Vec<usize> = Vec::new();
        let mut i: usize = 0;
        while i < rank
            invariant
                i <= rank,
                rank + 1 == n,
                nd@ == nd_spec,
                nd_spec.len() == rank,
                tiles_spec == Seq::new(
                    n as nat,
                    |i: int|
                        if i < rank {
                            nd_spec[i].len
                        } else {
                            1usize
                        },
                ),
                tv@ == tiles_spec.subrange(0, i as int),
            decreases rank - i,
        {
            tv.push(nd[i].len);
            assert(tv@ =~= tiles_spec.subrange(0, i + 1));
            i = i + 1;
        }
        tv.push(1);
        proof {
            assert(tv@ =~= tiles_spec);
        }

        // Scale each pattern column and fold the starts into its offset.
        let ncols = self.pattern.value.len() / n;
        proof {
            let dp = dist_count(s0.pattern.shape@, s0.tiles@);
            assert(all_pos(dist_factors(s0.pattern.shape@, s0.tiles@)));
            lemma_prod_pos(dist_factors(s0.pattern.shape@, s0.tiles@));
            assert(s0.pattern.value@.len() == dp * n) by (nonlinear_arith)
                requires
                    s0.pattern.value@.len() == n * dp,
            ;
            lemma_fundamental_div_mod_converse(s0.pattern.value@.len() as int, n as int, dp, 0);
            assert(ncols == dp);
            assert(s0.pattern.value@.len() <= usize::MAX);
        }
        let mut pv: Vec<isize> = Vec::new();
        let mut col: usize = 0;
        while col < ncols
            invariant
                col <= ncols,
                self == s0,
                s0.wf(),
                n == s0.width(),
                rank == s0.rank(),
                meta@.len() == rank,
                nd@ == nd_spec,
                nd_spec.len() == rank,
                forall|j: int| 0 <= j < n ==> #[trigger] s0.tiles@[j] <= isize::MAX,
                forall|j: int|
                    0 <= j < meta@.len() ==> normalize_pre(#[trigger] meta@[j], s0.tiles@[j]),
                nd_spec == norm_dims(meta@, s0.tiles@),
                ncols == s0.pattern.value@.len() as int / n as int,
                s0.pattern.value@.len() == n * ncols,
                n * ncols <= usize::MAX,
                slice_fits(s0.pattern.value@, n as int, nd_spec),
                pv@.len() == col * n,
                forall|idx: int|
                    0 <= idx < pv@.len() ==> #[trigger] pv@[idx] as int == slice_pattern_entry(
                        s0.pattern.value@,
                        n as int,
                        nd_spec,
                        idx,
                    ),
            decreases ncols - col,
        {
            proof {
                assert(col * n + n <= ncols * n) by (nonlinear_arith)
                    requires
                        col < ncols,
                        n >= 1,
                ;
                assert(col * n >= 0) by (nonlinear_arith)
                    requires
                        col >= 0,
                        n >= 1,
                ;
                assert(ncols * n == n * ncols) by (nonlinear_arith);
            }
            let mut i: usize = 0;
            while i < rank
                invariant
                    i <= rank,
                    col < ncols,
                    self == s0,
                    s0.wf(),
                    n == s0.width(),
                    rank == s0.rank(),
                    nd@ == nd_spec,
                    nd_spec.len() == rank,
                    forall|j: int| 0 <= j < n ==> #[trigger] s0.tiles@[j] <= isize::MAX,
                    forall|j: int|
                        0 <= j < meta@.len() ==> normalize_pre(#[trigger] meta@[j], s0.tiles@[j]),
                    meta@.len() == rank,
                    nd_spec == norm_dims(meta@, s0.tiles@),
                    ncols == s0.pattern.value@.len() as int / n as int,
                    s0.pattern.value@.len() == n * ncols,
                    n * ncols <= usize::MAX,
                    col * n + n <= ncols * n,
                    ncols * n == n * ncols,
                    col * n >= 0,
                    slice_fits(s0.pattern.value@, n as int, nd_spec),
                    pv@.len() == col * n + i,
                    forall|idx: int|
                        0 <= idx < pv@.len() ==> #[trigger] pv@[idx] as int == slice_pattern_entry(
                            s0.pattern.value@,
                            n as int,
                            nd_spec,
                            idx,
                        ),
                decreases rank - i,
            {
                proof {
                    assert(slice_fits_at(s0.pattern.value@, n as int, nd_spec, col as int, i as int));
                }
                let v = nd[i].step * self.pattern.value[col * n + i];
                pv.push(v);
                proof {
                    lemma_fundamental_div_mod_converse(
                        (col * n + i) as int,
                        n as int,
                        col as int,
                        i as int,
                    );
                }
                i = i + 1;
            }
            let mut acc = self.pattern.value[col * n + rank];
            let mut a: usize = 0;
            while a < rank
                invariant
                    a <= rank,
                    col < ncols,
                    self == s0,
                    s0.wf(),
                    n == s0.width(),
                    rank == s0.rank(),
                    nd@ == nd_spec,
                    nd_spec.len() == rank,
                    forall|j: int| 0 <= j < n ==> #[trigger] s0.tiles@[j] <= isize::MAX,
                    forall|j: int|
                        0 <= j < meta@.len() ==> normalize_pre(#[trigger] meta@[j], s0.tiles@[j]),
                    meta@.len() == rank,
                    nd_spec == norm_dims(meta@, s0.tiles@),
                    ncols == s0.pattern.value@.len() as int / n as int,
                    s0.pattern.value@.len() == n * ncols,
                    n * ncols <= usize::MAX,
                    col * n + n <= ncols * n,
                    ncols * n == n * ncols,
                    col * n >= 0,
                    slice_fits(s0.pattern.value@, n as int, nd_spec),
                    acc as int == slice_off(s0.pattern.value@, n as int, nd_spec, col as int, a as int),
                decreases rank - a,
            {
                proof {
                    assert(slice_fits_at(s0.pattern.value@, n as int, nd_spec, col as int, a as int));
                    assert(slice_fits_at(
                        s0.pattern.value@,
                        n as int,
                        nd_spec,
                        col as int,
                        a + 1,
                    ));
                    lemma_normalize_pos(meta@[a as int], s0.tiles@[a as int]);
                }
                let start = nd[a].start;
                acc = acc + (start as isize) * self.pattern.value[col * n + a];
                a = a + 1;
            }
            pv.push(acc);
            proof {
                lemma_fundamental_div_mod_converse(
                    (col * n + rank) as int,
                    n as int,
                    col as int,
                    rank as int,
                );
                assert((col + 1) * n == col * n + n) by (nonlinear_arith);
            }
            col = col + 1;
        }

        let t = Tensor {
            shape_groups: self.shape_groups,
            tiles: Tiles(tv),
            pattern: MetaTensor { shape: self.pattern.shape, value: pv },
            storage: self.storage,
        };
        proof {
            lemma_slice_wf(s0, t, meta@, ncols as int);
        }
        Ok(t)
    }
}

/// The sliced result of a well-formed tensor is well formed, and its
/// element count is the product of the clamped lengths.
proof fn lemma_slice_wf<S>(s0: Tensor<S>, t: Tensor<S>, meta: Seq<SliceDim>, ncols: int)
    requires
        s0.wf(),
        meta.len() == s0.rank(),
        forall|i: int| 0 <= i < meta.len() ==> normalize_pre(#[trigger] meta[i], s0.tiles@[i]),
        forall|i: int| 0 <= i < s0.width() ==> #[trigger] s0.tiles@[i] <= isize::MAX,
        prod(Seq::new(s0.rank() as nat, |i: int| norm_dims(meta, s0.tiles@)[i].len))
            <= isize::MAX,
        forall|i: int|
            0 <= i < meta.len() && (s0.pattern.shape@[i] == AxisTag::Distinguished
                || s0.storage.shape@[i] == AxisTag::Distinguished)
                ==> #[trigger] norm_dims(meta, s0.tiles@)[i] == (SliceDim {
                start: 0,
                step: 1,
                len: s0.tiles@[i],
            }),
        t.tiles@ == Seq::new(
            s0.width() as nat,
            |i: int|
                if i < s0.rank() {
                    norm_dims(meta, s0.tiles@)[i].len
                } else {
                    1usize
                },
        ),
        t.shape_groups@ == s0.shape_groups@,
        t.pattern.shape@ == s0.pattern.shape@,
        t.storage.shape@ == s0.storage.shape@,
        t.storage.value@.len() == s0.storage.value@.len(),
        t.pattern.value@.len() == s0.pattern.value@.len(),
    ensures
        t.wf(),
        t.spec_size() == prod(
            Seq::new(s0.rank() as nat, |i: int| norm_dims(meta, s0.tiles@)[i].len),
        ),
{
    let n = s0.width();
    let nd = norm_dims(meta, s0.tiles@);
    let lens = Seq::new(s0.rank() as nat, |i: int| nd[i].len);
    assert forall|i: int| 0 <= i < n implies #[trigger] t.tiles@[i] >= 1 by {
        if i < n - 1 {
            lemma_normalize_pos(meta[i], s0.tiles@[i]);
        }
    }
    assert(t.tiles@.take(n - 1) =~= lens);
    crate::arith::lemma_prod_split(t.tiles@, n - 1);
    crate::arith::lemma_prod_singleton(t.tiles@.skip(n - 1));
    assert(t.tiles@[n - 1] == 1);
    assert(prod(t.tiles@.skip(n - 1)) == 1);
    assert(prod(t.tiles@) == prod(t.tiles@.take(n - 1)) * prod(t.tiles@.skip(n - 1)));
    assert(prod(t.tiles@) == prod(lens)) by (nonlinear_arith)
        requires
            prod(t.tiles@) == prod(lens) * prod(t.tiles@.skip(n - 1)),
            prod(t.tiles@.skip(n - 1)) == 1,
    ;
    assert(t.tiles.wf());
    assert(t.spec_size() == prod(lens));

    // The broadcast position counts: a distinguished axis keeps its
    // extent, so the factor sequences agree pointwise.
    assert(dist_factors(t.pattern.shape@, t.tiles@) =~= dist_factors(
        s0.pattern.shape@,
        s0.tiles@,
    ));
    assert(dist_factors(t.storage.shape@, t.tiles@) =~= dist_factors(
        s0.storage.shape@,
        s0.tiles@,
    ));
}

} // verus!
