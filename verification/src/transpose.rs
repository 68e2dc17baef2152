use vstd::prelude::*;

verus! {

use vstd::arithmetic::div_mod::lemma_fundamental_div_mod_converse;
use crate::TransformError;
use crate::arith::{
    all_pos, sum, read_map, identity_map, valid_axis_map, lemma_prod_permuted, lemma_prod_pos,
};
use crate::meta::MetaTensor;
use crate::perm_map::{
    has_dup, axis_map, perm_has, axis_map_vec, find_duplicate, any_reaches, is_identity,
};
use crate::tensor::{Tensor, dist_count, dist_factors};
use crate::tiles::Tiles;

impl<S> Tensor<S> {
    /// Applies a full bijective destination-to-source axis map that
    /// keeps the sentinel fixed: the extents and the broadcast tags are
    /// read through the map, and each pattern column permutes its rows
    /// the same way.
    fn permute_axes(self, map: &Vec<usize>) -> (t: Self)
        requires
            self.wf(),
            valid_axis_map(map@, self.width()),
            map@[self.width() - 1] == self.width() - 1,
        ensures
            t.wf(),
            t.tiles@ == read_map(self.tiles@, map@),
            t.shape_groups == self.shape_groups,
            t.pattern.shape@ == read_map(self.pattern.shape@, map@),
            t.storage.shape@ == read_map(self.storage.shape@, map@),
            t.storage.value == self.storage.value,
            t.pattern.value@.len() == self.pattern.value@.len(),
            forall|idx: int|
                0 <= idx < t.pattern.value@.len() ==> #[trigger] t.pattern.value@[idx]
                    == self.pattern.value@[(idx / self.width()) * self.width() + map@[idx
                    % self.width()] as int],
            t.spec_size() == self.spec_size(),
    {
        let ghost s0 = self;
        let n = self.tiles.0.len();

        let mut tv: Vec<usize> = Vec::new();
        let mut i: usize = 0;
        while i < n
            invariant
                i <= n,
                self == s0,
                s0.wf(),
                n == s0.width(),
                valid_axis_map(map@, n as int),
                tv@ == read_map(s0.tiles@, map@).subrange(0, i as int),
            decreases n - i,
        {
            tv.push(self.tiles.0[map[i]]);
            assert(tv@ =~= read_map(s0.tiles@, map@).subrange(0, i + 1));
            i = i + 1;
        }
        proof {
            assert(tv@ =~= read_map(s0.tiles@, map@));
        }

        let ncols = self.pattern.value.len() / n;
        proof {
            let dp = dist_count(s0.pattern.shape@, s0.tiles@);
            assert(all_pos(dist_factors(s0.pattern.shape@, s0.tiles@)));
            lemma_prod_pos(dist_factors(s0.pattern.shape@, s0.tiles@));
            assert(s0.pattern.value@.len() == dp * n) by (nonlinear_arith)
                requires
                    s0.pattern.value@.len() == n * dp,
            ;
            lemma_fundamental_div_mod_converse(s0.pattern.value@.len() as int, n as int, dp, 0);
            assert(ncols == dp);
            assert(s0.pattern.value@.len() <= usize::MAX);
        }
        let mut pv: Vec<isize> = Vec::new();
        let mut col: usize = 0;
        while col < ncols
            invariant
                col <= ncols,
                self == s0,
                s0.wf(),
                n == s0.width(),
                valid_axis_map(map@, n as int),
                ncols == s0.pattern.value@.len() as int / n as int,
                s0.pattern.value@.len() == n * ncols,
                n * ncols <= usize::MAX,
                pv@.len() == col * n,
                forall|idx: int|
                    0 <= idx < pv@.len() ==> #[trigger] pv@[idx] == s0.pattern.value@[(idx
                        / n as int) * n + map@[idx % n as int] as int],
            decreases ncols - col,
        {
            proof {
                assert(col * n + n <= ncols * n) by (nonlinear_arith)
                    requires
                        col < ncols,
                        n >= 1,
                ;
                assert(col * n >= 0) by (nonlinear_arith)
                    requires
                        col >= 0,
                        n >= 1,
                ;
                assert(ncols * n == n * ncols) by (nonlinear_arith);
            }
            let mut i: usize = 0;
            while i < n
                invariant
                    i <= n,
                    col < ncols,
                    self == s0,
                    s0.wf(),
                    n == s0.width(),
                    valid_axis_map(map@, n as int),
                    ncols == s0.pattern.value@.len() as int / n as int,
                    s0.pattern.value@.len() == n * ncols,
                    n * ncols <= usize::MAX,
                    col * n + n <= ncols * n,
                    ncols * n == n * ncols,
                    col * n >= 0,
                    pv@.len() == col * n + i,
                    forall|idx: int|
                        0 <= idx < pv@.len() ==> #[trigger] pv@[idx] == s0.pattern.value@[(idx
                            / n as int) * n + map@[idx % n as int] as int],
                decreases n - i,
            {
                let v = self.pattern.value[col * n + map[i]];
                pv.push(v);
                proof {
                    lemma_fundamental_div_mod_converse(
                        (col * n + i) as int,
                        n as int,
                        col as int,
                        i as int,
                    );
                }
                i = i + 1;
            }
            proof {
                assert((col + 1) * n == col * n + n) by (nonlinear_arith);
            }
            col = col + 1;
        }

        let t = Tensor {
            shape_groups: self.shape_groups,
            tiles: Tiles(tv),
            pattern: MetaTensor { shape: self.pattern.shape.transpose(map), value: pv },
            storage: self.storage.transpose(map),
        };
        proof {
            lemma_permute_wf(s0, t, map@, ncols as int);
        }
        t
    }
}

/// Permuting the axes of a well-formed tensor by a bijection that fixes
/// the sentinel keeps it well formed and keeps its element count.
proof fn lemma_permute_wf<S>(s0: Tensor<S>, t: Tensor<S>, m: Seq<usize>, ncols: int)
    requires
        s0.wf(),
        valid_axis_map(m, s0.width()),
        m[s0.width() - 1] == s0.width() - 1,
        t.tiles@ == read_map(s0.tiles@, m),
        t.shape_groups@ == s0.shape_groups@,
        t.pattern.shape@ == read_map(s0.pattern.shape@, m),
        t.storage.shape@ == read_map(s0.storage.shape@, m),
        t.storage.value@.len() == s0.storage.value@.len(),
        t.pattern.value@.len() == s0.pattern.value@.len(),
    ensures
        t.wf(),
        t.spec_size() == s0.spec_size(),
{
    let n = s0.width();
    lemma_prod_permuted(s0.tiles@, t.tiles@, m);
    assert(t.tiles@[n - 1] == s0.tiles@[n - 1]);
    assert(t.tiles.wf());

    // The element count: the map restricted to the real axes is still a
    // bijection, since the sentinel maps to itself.
    let m1 = m.take(n - 1);
    assert(valid_axis_map(m1, n - 1)) by {
        assert forall|i: int| 0 <= i < n - 1 implies #[trigger] m1[i] < n - 1 by {
            assert(m[i] != m[n - 1]);
        }
    }
    assert forall|i: int| 0 <= i < n - 1 implies t.tiles@.take(n - 1)[i] == s0.tiles@.take(
        n - 1,
    )[#[trigger] m1[i] as int] by {
        assert(m[i] != m[n - 1]);
    }
    lemma_prod_permuted(s0.tiles@.take(n - 1), t.tiles@.take(n - 1), m1);
    assert(t.spec_size() == s0.spec_size());

    // Both meta-tensors keep their broadcast position count.
    let pf = dist_factors(s0.pattern.shape@, s0.tiles@);
    assert forall|i: int| 0 <= i < n implies dist_factors(t.pattern.shape@, t.tiles@)[i]
        == pf[#[trigger] m[i] as int] by {}
    lemma_prod_permuted(pf, dist_factors(t.pattern.shape@, t.tiles@), m);
    let sf = dist_factors(s0.storage.shape@, s0.tiles@);
    assert forall|i: int| 0 <= i < n implies dist_factors(t.storage.shape@, t.tiles@)[i]
        == sf[#[trigger] m[i] as int] by {}
    lemma_prod_permuted(sf, dist_factors(t.storage.shape@, t.tiles@), m);
}

impl<S> Tensor<S> {
    /// Permutes tile axes: the destinations named in `perm`, taken in
    /// increasing order, receive the extents, tags and pattern rows of
    /// the named source axes in the order given; every other axis and
    /// the sentinel stay in place, and the dimension groups are
    /// untouched.
    ///
    /// An empty or identity permutation hands the tensor back unchanged.
    /// Fails with `DuplicateAxis` exactly when `perm` names the same
    /// destination twice, and otherwise with `AxisOutOfRange` exactly
    /// when a name reaches the sentinel axis.
    pub fn tile_transpose(self, perm: &[usize]) -> (r: Result<Self, TransformError>)
        requires
            self.wf(),
        ensures
            perm@.len() == 0 ==> r == Ok::<Self, TransformError>(self),
            perm@.len() > 0 && has_dup(perm@) ==> r == Err::<Self, TransformError>(
                TransformError::DuplicateAxis,
            ),
            perm@.len() > 0 && !has_dup(perm@) && (exists|j: int|
                0 <= j < perm@.len() && #[trigger] perm@[j] >= self.rank()) ==> r == Err::<
                Self,
                TransformError,
            >(TransformError::AxisOutOfRange),
            perm@.len() > 0 && !has_dup(perm@) && (forall|j: int|
                0 <= j < perm@.len() ==> #[trigger] perm@[j] < self.rank()) ==> (r matches Ok(t)
                && {
                let m = axis_map(perm@, self.width());
                &&& identity_map(m) ==> t == self
                &&& t.wf()
                &&& t.tiles@ == read_map(self.tiles@, m)
                &&& t.shape_groups == self.shape_groups
                &&& t.pattern.shape@ == read_map(self.pattern.shape@, m)
                &&& t.storage.shape@ == read_map(self.storage.shape@, m)
                &&& t.storage.value == self.storage.value
                &&& t.pattern.value@.len() == self.pattern.value@.len()
                &&& forall|idx: int|
                    0 <= idx < t.pattern.value@.len() ==> #[trigger] t.pattern.value@[idx]
                        == self.pattern.value@[(idx / self.width()) * self.width() + m[idx
                        % self.width()] as int]
                &&& t.spec_size() == self.spec_size()
            }),
    {
        if perm.len() == 0 {
            return Ok(self);
        }
        if find_duplicate(perm) {
            return Err(TransformError::DuplicateAxis);
        }
        let n = self.tiles.0.len();
        let rank = n - 1;
        if any_reaches(perm, rank) {
            return Err(TransformError::AxisOutOfRange);
        }
        let map = axis_map_vec(perm, n);
        proof {
            assert(!perm_has(perm@, n - 1));
            assert(map@[n - 1] == (n - 1) as usize);
        }
        if is_identity(&map) {
            proof {
                lemma_read_map_identity(self.tiles@, map@);
                lemma_read_map_identity(self.pattern.shape@, map@);
                lemma_read_map_identity(self.storage.shape@, map@);
                assert forall|idx: int| 0 <= idx < self.pattern.value@.len() implies #[trigger] self
                    .pattern
                    .value@[idx] == self.pattern.value@[(idx / self.width()) * self.width()
                    + map@[idx % self.width()] as int] by {
                    vstd::arithmetic::div_mod::lemma_fundamental_div_mod(idx, n as int);
                    vstd::arithmetic::div_mod::lemma_mod_bound(idx, n as int);
                    let q = idx / n as int;
                    let w = idx % n as int;
                    assert(map@[w] == w);
                    assert(q * n == n * q) by (nonlinear_arith);
                    assert(q * n + w == idx);
                }
            }
            return Ok(self);
        }
        Ok(self.permute_axes(&map))
    }
}

/// Reading through an identity map reproduces the sequence.
proof fn lemma_read_map_identity<A>(s: Seq<A>, m: Seq<usize>)
    requires
        identity_map(m),
        m.len() == s.len(),
    ensures
        read_map(s, m) == s,
{
    assert(read_map(s, m) =~= s);
}

/// The tile-axis map that a group-level map induces: each destination
/// group's run of tile axes reads, in order, the run of its source
/// group; the sentinel and any axis past the runs stay in place.
pub open spec fn expand_group_map(groups: Seq<usize>, gm: Seq<usize>, n: int) -> Seq<usize> {
    let ngroups = read_map(groups, gm);
    Seq::new(
        n as nat,
        |x: int|
            if x < sum(ngroups) {
                let g = crate::tensor::group_of(ngroups, x);
                (crate::tensor::group_start(groups, gm[g] as int) + (x - crate::tensor::group_start(
                    ngroups,
                    g,
                ))) as usize
            } else {
                x as usize
            },
    )
}

/// What the expanded map holds at one real tile axis: a position inside
/// the source group's run.
proof fn lemma_expand_at(groups: Seq<usize>, gm: Seq<usize>, n: int, x: int)
    requires
        all_pos(groups),
        valid_axis_map(gm, groups.len() as int),
        sum(groups) == n - 1,
        1 <= n <= usize::MAX,
        0 <= x < n - 1,
    ensures
        ({
            let ng = read_map(groups, gm);
            let g = crate::tensor::group_of(ng, x);
            let m = expand_group_map(groups, gm, n);
            &&& 0 <= g < groups.len()
            &&& crate::tensor::group_start(ng, g) <= x < crate::tensor::group_start(ng, g)
                + ng[g]
            &&& m[x] as int == crate::tensor::group_start(groups, gm[g] as int) + (x
                - crate::tensor::group_start(ng, g))
            &&& crate::tensor::group_start(groups, gm[g] as int) <= m[x] as int
            &&& (m[x] as int) < crate::tensor::group_start(groups, gm[g] as int)
                + groups[gm[g] as int]
            &&& (m[x] as int) < n - 1
        }),
{
    let ng = read_map(groups, gm);
    crate::arith::lemma_sum_permuted(groups, ng, gm);
    assert(all_pos(ng));
    crate::tensor::lemma_group_of_range(ng, x);
    let g = crate::tensor::group_of(ng, x);
    assert(ng[g] == groups[gm[g] as int]);
    crate::arith::lemma_sum_nonneg(groups.take(gm[g] as int));
    crate::arith::lemma_sum_nonneg(ng.take(g));
    crate::tensor::lemma_group_end_le_sum(groups, gm[g] as int);
}

/// A group-level bijection expands to a tile-axis bijection that fixes
/// the sentinel.
proof fn lemma_expand_valid(groups: Seq<usize>, gm: Seq<usize>, n: int)
    requires
        all_pos(groups),
        valid_axis_map(gm, groups.len() as int),
        sum(groups) == n - 1,
        1 <= n <= usize::MAX,
    ensures
        valid_axis_map(expand_group_map(groups, gm, n), n),
        expand_group_map(groups, gm, n)[n - 1] == (n - 1) as usize,
{
    let ng = read_map(groups, gm);
    let m = expand_group_map(groups, gm, n);
    crate::arith::lemma_sum_permuted(groups, ng, gm);
    assert(all_pos(ng));
    assert forall|x: int| 0 <= x < n implies #[trigger] m[x] < n by {
        if x < n - 1 {
            lemma_expand_at(groups, gm, n, x);
        }
    }
    assert forall|x1: int, x2: int| 0 <= x1 < x2 < n implies m[x1] != m[x2] by {
        if x2 < n - 1 {
            lemma_expand_at(groups, gm, n, x1);
            lemma_expand_at(groups, gm, n, x2);
            let g1 = crate::tensor::group_of(ng, x1);
            let g2 = crate::tensor::group_of(ng, x2);
            if g1 > g2 {
                crate::tensor::lemma_group_start_mono(ng, g2, g1);
                assert(false);
            }
            if g1 < g2 {
                assert(gm[g1] != gm[g2]);
                if gm[g1] < gm[g2] {
                    crate::tensor::lemma_group_start_mono(groups, gm[g1] as int, gm[g2] as int);
                } else {
                    crate::tensor::lemma_group_start_mono(groups, gm[g2] as int, gm[g1] as int);
                }
            }
        } else {
            lemma_expand_at(groups, gm, n, x1);
        }
    }
}

/// Expanding the identity group map moves no tile axis.
proof fn lemma_expand_identity(groups: Seq<usize>, gm: Seq<usize>, n: int)
    requires
        all_pos(groups),
        identity_map(gm),
        gm.len() == groups.len(),
        sum(groups) == n - 1,
        1 <= n <= usize::MAX,
    ensures
        identity_map(expand_group_map(groups, gm, n)),
{
    let ng = read_map(groups, gm);
    assert(ng =~= groups);
    let m = expand_group_map(groups, gm, n);
    assert forall|x: int| 0 <= x < n implies #[trigger] m[x] == x by {
        if x < n - 1 {
            crate::tensor::lemma_group_of_range(ng, x);
        }
    }
}

impl<S> Tensor<S> {
    /// Permutes whole logical dimensions: each group's run of tile axes
    /// moves as one block, together with its extents, tags and pattern
    /// rows, and the dimension groups are reordered the same way.
    ///
    /// An empty or identity permutation hands the tensor back unchanged.
    /// Fails with `DuplicateAxis` exactly when `perm` names the same
    /// destination twice, and otherwise with `AxisOutOfRange` exactly
    /// when a name reaches past the last logical dimension.
    pub fn transpose(self, perm: &[usize]) -> (r: Result<Self, TransformError>)
        requires
            self.wf(),
        ensures
            perm@.len() == 0 ==> r == Ok::<Self, TransformError>(self),
            perm@.len() > 0 && has_dup(perm@) ==> r == Err::<Self, TransformError>(
                TransformError::DuplicateAxis,
            ),
            perm@.len() > 0 && !has_dup(perm@) && (exists|j: int|
                0 <= j < perm@.len() && #[trigger] perm@[j] >= self.shape_groups@.len()) ==> r
                == Err::<Self, TransformError>(TransformError::AxisOutOfRange),
            perm@.len() > 0 && !has_dup(perm@) && (forall|j: int|
                0 <= j < perm@.len() ==> #[trigger] perm@[j] < self.shape_groups@.len()) ==> (
            r matches Ok(t) && {
                let gm = axis_map(perm@, self.shape_groups@.len() as int);
                let m = expand_group_map(self.shape_groups@, gm, self.width());
                &&& identity_map(gm) ==> t == self
                &&& t.wf()
                &&& t.shape_groups@ == read_map(self.shape_groups@, gm)
                &&& t.tiles@ == read_map(self.tiles@, m)
                &&& t.pattern.shape@ == read_map(self.pattern.shape@, m)
                &&& t.storage.shape@ == read_map(self.storage.shape@, m)
                &&& t.storage.value == self.storage.value
                &&& t.pattern.value@.len() == self.pattern.value@.len()
                &&& forall|idx: int|
                    0 <= idx < t.pattern.value@.len() ==> #[trigger] t.pattern.value@[idx]
                        == self.pattern.value@[(idx / self.width()) * self.width() + m[idx
                        % self.width()] as int]
                &&& t.spec_size() == self.spec_size()
            }),
    {
        let ghost s0 = self;
        if perm.len() == 0 {
            return Ok(self);
        }
        if find_duplicate(perm) {
            return Err(TransformError::DuplicateAxis);
        }
        let n_groups = self.shape_groups.len();
        if any_reaches(perm, n_groups) {
            return Err(TransformError::AxisOutOfRange);
        }
        let gm = axis_map_vec(perm, n_groups);
        let n = self.tiles.0.len();
        let rank = n - 1;
        if is_identity(&gm) {
            proof {
                let m = expand_group_map(s0.shape_groups@, gm@, n as int);
                lemma_expand_identity(s0.shape_groups@, gm@, n as int);
                lemma_read_map_identity(s0.shape_groups@, gm@);
                lemma_read_map_identity(s0.tiles@, m);
                lemma_read_map_identity(s0.pattern.shape@, m);
                lemma_read_map_identity(s0.storage.shape@, m);
                assert forall|idx: int| 0 <= idx < s0.pattern.value@.len() implies #[trigger] s0
                    .pattern
                    .value@[idx] == s0.pattern.value@[(idx / s0.width()) * s0.width() + m[idx
                    % s0.width()] as int] by {
                    vstd::arithmetic::div_mod::lemma_fundamental_div_mod(idx, n as int);
                    vstd::arithmetic::div_mod::lemma_mod_bound(idx, n as int);
                    let q = idx / n as int;
                    let w = idx % n as int;
                    assert(m[w] == w);
                    assert(q * n == n * q) by (nonlinear_arith);
                    assert(q * n + w == idx);
                }
            }
            return Ok(self);
        }

        // The reordered groups.
        let mut ngv: Vec<usize> = Vec::new();
        let mut g: usize = 0;
        while g < n_groups
            invariant
                g <= n_groups,
                self == s0,
                s0.wf(),
                n_groups == s0.shape_groups@.len(),
                valid_axis_map(gm@, n_groups as int),
                ngv@ == read_map(s0.shape_groups@, gm@).subrange(0, g as int),
            decreases n_groups - g,
        {
            ngv.push(self.shape_groups[gm[g]]);
            assert(ngv@ =~= read_map(s0.shape_groups@, gm@).subrange(0, g + 1));
            g = g + 1;
        }
        proof {
            assert(ngv@ =~= read_map(s0.shape_groups@, gm@));
            crate::arith::lemma_sum_permuted(s0.shape_groups@, ngv@, gm@);
        }

        // Where each source group's run begins.
        let mut starts: Vec<usize> = Vec::new();
        let mut acc: usize = 0;
        let mut h: usize = 0;
        proof {
            assert(s0.shape_groups@.take(0) =~= Seq::<usize>::empty());
        }
        while h < n_groups
            invariant
                h <= n_groups,
                self == s0,
                s0.wf(),
                rank == s0.rank(),
                n_groups == s0.shape_groups@.len(),
                acc == crate::tensor::group_start(s0.shape_groups@, h as int),
                acc <= s0.rank(),
                starts@.len() == h,
                forall|x: int|
                    0 <= x < h ==> #[trigger] starts@[x] as int == crate::tensor::group_start(
                        s0.shape_groups@,
                        x,
                    ),
            decreases n_groups - h,
        {
            starts.push(acc);
            let width = self.shape_groups[h];
            proof {
                assert(s0.shape_groups@.take(h + 1) =~= s0.shape_groups@.take(h as int).push(width));
                crate::arith::lemma_sum_snoc(s0.shape_groups@.take(h as int), width);
                crate::arith::lemma_sum_take_le(s0.shape_groups@, h + 1);
            }
            acc = acc + width;
            h = h + 1;
        }

        // The tile-axis map each group block induces.
        let ghost m_spec = expand_group_map(s0.shape_groups@, gm@, n as int);
        let mut mv: Vec<usize> = Vec::new();
        let mut g: usize = 0;
        proof {
            assert(ngv@.take(0) =~= Seq::<usize>::empty());
        }
        while g < n_groups
            invariant
                g <= n_groups,
                self == s0,
                s0.wf(),
                n == s0.width(),
                rank == s0.rank(),
                n_groups == s0.shape_groups@.len(),
                valid_axis_map(gm@, n_groups as int),
                ngv@ == read_map(s0.shape_groups@, gm@),
                sum(ngv@) == s0.rank(),
                starts@.len() == n_groups,
                forall|x: int|
                    0 <= x < n_groups ==> #[trigger] starts@[x] as int
                        == crate::tensor::group_start(s0.shape_groups@, x),
                m_spec == expand_group_map(s0.shape_groups@, gm@, n as int),
                mv@.len() == crate::tensor::group_start(ngv@, g as int),
                mv@.len() <= s0.rank(),
                forall|x: int| 0 <= x < mv@.len() ==> #[trigger] mv@[x] == m_spec[x],
            decreases n_groups - g,
        {
            let width = ngv[g];
            let src = gm[g];
            let st = starts[src];
            proof {
                crate::tensor::lemma_group_end_le_sum(ngv@, g as int);
                crate::tensor::lemma_group_end_le_sum(s0.shape_groups@, src as int);
            }
            let ghost out_start = crate::tensor::group_start(ngv@, g as int);
            let mut j: usize = 0;
            while j < width
                invariant
                    j <= width,
                    g < n_groups,
                    self == s0,
                    s0.wf(),
                    n == s0.width(),
                    rank == s0.rank(),
                    n_groups == s0.shape_groups@.len(),
                    valid_axis_map(gm@, n_groups as int),
                    ngv@ == read_map(s0.shape_groups@, gm@),
                    sum(ngv@) == s0.rank(),
                    src == gm@[g as int],
                    width == ngv@[g as int],
                    st as int == crate::tensor::group_start(s0.shape_groups@, src as int),
                    st + width <= s0.rank(),
                    out_start == crate::tensor::group_start(ngv@, g as int),
                    out_start + width <= s0.rank(),
                    m_spec == expand_group_map(s0.shape_groups@, gm@, n as int),
                    mv@.len() == out_start + j,
                    forall|x: int| 0 <= x < mv@.len() ==> #[trigger] mv@[x] == m_spec[x],
                decreases width - j,
            {
                mv.push(st + j);
                proof {
                    let x = out_start + j;
                    assert(all_pos(ngv@));
                    crate::tensor::lemma_group_of_unique(ngv@, x, g as int);
                    assert(x < sum(ngv@));
                    assert(m_spec[x] == (st + j) as usize);
                }
                j = j + 1;
            }
            proof {
                assert(ngv@.take(g + 1) =~= ngv@.take(g as int).push(width));
                crate::arith::lemma_sum_snoc(ngv@.take(g as int), width);
                crate::arith::lemma_sum_take_le(ngv@, g + 1);
            }
            g = g + 1;
        }
        proof {
            assert(ngv@.take(n_groups as int) =~= ngv@);
            assert(mv@.len() == s0.rank());
        }
        mv.push(rank);
        proof {
            assert forall|x: int| 0 <= x < n implies mv@[x] == m_spec[x] by {
                if x == n - 1 {
                    assert(mv@[x] == rank as usize);
                }
            }
            assert(mv@ =~= m_spec);
            lemma_expand_valid(s0.shape_groups@, gm@, n as int);
        }

        // Reorder the groups, then move the tile axes in their blocks.
        let t1 = Tensor {
            shape_groups: ngv,
            tiles: self.tiles,
            pattern: self.pattern,
            storage: self.storage,
        };
        proof {
            assert(t1.wf());
        }
        Ok(t1.permute_axes(&mv))
    }
}

} // verus!
