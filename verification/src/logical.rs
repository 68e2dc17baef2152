use vstd::prelude::*;

verus! {

use vstd::slice::slice_subrange;
use crate::arith::{all_pos, prod, lemma_prod_subrange_le};
use crate::strides::range_product;

/// A logical shape with its per-dimension tiling scheme, packed into
/// one vector: the dimension count, then for each dimension where its
/// tile record begins (plus one closing position), then the records.
///
/// A record lists, for one dimension, the running suffix products of
/// its tile extents, so its first entry is the dimension's full extent
/// and coordinates inside the tiling fall out of divisions.
#[derive(Clone, Debug)]
pub struct Logical(pub Vec<usize>);

/// One dimension's tile record: the suffix products of the tile
/// extents, borrowed from the packed vector.
#[derive(Clone, Debug)]
pub struct Tile<'a>(pub &'a [usize]);

/// The suffix products of a run of tile extents.
pub open spec fn suffix_products(shape: Seq<usize>) -> Seq<usize> {
    Seq::new(shape.len(), |j: int| prod(shape.skip(j)) as usize)
}

impl View for Logical {
    type V = Seq<usize>;

    open spec fn view(&self) -> Seq<usize> {
        self.0@
    }
}

impl Logical {
    /// The number of logical dimensions.
    pub open spec fn spec_rank(self) -> int {
        self@[0] as int
    }

    /// Where dimension `i`'s record begins, relative to the records.
    pub open spec fn pos(self, i: int) -> int {
        self@[1 + i] as int
    }

    /// Where the records begin in the packed vector.
    pub open spec fn base(self) -> int {
        2 + self.spec_rank()
    }

    /// Dimension `i`'s record.
    pub open spec fn dim(self, i: int) -> Seq<usize> {
        self@.subrange(self.base() + self.pos(i), self.base() + self.pos(i + 1))
    }

    /// The packed vector is consistent: the positions start at zero,
    /// rise strictly, and close exactly at the vector's end, and every
    /// record entry is positive.
    pub open spec fn wf(self) -> bool {
        &&& self@.len() >= 2
        &&& 2 + self.spec_rank() <= self@.len()
        &&& self.pos(0) == 0
        &&& forall|i: int| 0 <= i < self.spec_rank() ==> #[trigger] self.pos(i) < self.pos(i + 1)
        &&& self@.len() == self.base() + self.pos(self.spec_rank())
        &&& forall|j: int| self.base() <= j < self@.len() ==> #[trigger] self@[j] >= 1
    }

    /// Positions never fall as the dimension index rises.
    pub proof fn lemma_pos_mono(self, i: int, j: int)
        requires
            self.wf(),
            0 <= i <= j <= self.spec_rank(),
        ensures
            self.pos(i) <= self.pos(j),
        decreases j - i,
    {
        if i < j {
            self.lemma_pos_mono(i + 1, j);
        }
    }

    /// Builds the untiled scheme of `shape`: every dimension is one
    /// whole tile.
    pub fn new(shape: &[usize]) -> (r: Self)
        requires
            all_pos(shape@),
            shape@.len() + 2 <= usize::MAX,
        ensures
            r.wf(),
            r.spec_rank() == shape@.len(),
            forall|i: int| 0 <= i < shape@.len() ==> r.dim(i) =~= seq![shape@[i]],
    {
        let rank = shape.len();
        let mut v: Vec<usize> = Vec::new();
        v.push(rank);
        let mut i: usize = 0;
        while i <= rank
            invariant
                i <= rank + 1,
                rank + 2 <= usize::MAX,
                v@.len() == 1 + i,
                v@[0] == rank,
                forall|j: int| 0 <= j < i ==> #[trigger] v@[1 + j] == j,
            decreases rank + 1 - i,
        {
            v.push(i);
            i = i + 1;
        }
        let mut i: usize = 0;
        while i < rank
            invariant
                i <= rank,
                rank == shape@.len(),
                all_pos(shape@),
                v@.len() == 2 + rank + i,
                v@[0] == rank,
                forall|j: int| 0 <= j <= rank ==> #[trigger] v@[1 + j] == j,
                forall|j: int| 0 <= j < i ==> #[trigger] v@[2 + rank + j] == shape@[j],
            decreases rank - i,
        {
            v.push(shape[i]);
            i = i + 1;
        }
        let r = Logical(v);
        proof {
            assert(r.spec_rank() == rank);
            assert forall|h: int| 0 <= h <= rank implies #[trigger] r.pos(h) == h by {
                assert(r@[1 + h] == h);
            }
            assert forall|j: int| r.base() <= j < r@.len() implies #[trigger] r@[j] >= 1 by {
                let x = j - 2 - rank;
                assert(r@[2 + rank + x] == shape@[x]);
            }
            assert(r.wf());
            assert forall|i: int| 0 <= i < shape@.len() implies r.dim(i) =~= seq![shape@[i]] by {
                assert(r.pos(i) == i);
                assert(r.pos(i + 1) == i + 1);
                assert(r@[r.base() + i] == shape@[i]);
            }
        }
        r
    }

    /// The number of logical dimensions.
    pub fn rank(&self) -> (r: usize)
        requires
            self.wf(),
        ensures
            r == self.spec_rank(),
    {
        self.0[0]
    }

    /// The full extent of dimension `i`, if there is such a dimension.
    #[verifier::rlimit(50)]
    pub fn shape(&self, i: usize) -> (r: Option<usize>)
        requires
            self.wf(),
        ensures
            i < self.spec_rank() ==> r == Some(self.dim(i as int)[0]),
            i >= self.spec_rank() ==> r is None,
    {
        let rank = self.0[0];
        let full_len = self.0.len();
        if i < rank {
            proof {
                self.lemma_pos_mono(i + 1, rank as int);
                assert(self.pos(i as int) < self.pos(i as int + 1));
                assert(self.base() + self.pos(rank as int) == full_len);
            }
            Some(self.0[2 + rank + self.0[1 + i]])
        } else {
            None
        }
    }

    /// The extents of all dimensions.
    #[verifier::rlimit(50)]
    pub fn shape_vec(&self) -> (r: Vec<usize>)
        requires
            self.wf(),
        ensures
            r@.len() == self.spec_rank(),
            forall|i: int| 0 <= i < r@.len() ==> #[trigger] r@[i] == self.dim(i)[0],
    {
        let rank = self.0[0];
        let full_len = self.0.len();
        let mut out: Vec<usize> = Vec::new();
        let mut i: usize = 0;
        while i < rank
            invariant
                i <= rank,
                self.wf(),
                self@.len() == full_len,
                rank == self.spec_rank(),
                out@.len() == i,
                forall|j: int| 0 <= j < i ==> #[trigger] out@[j] == self.dim(j)[0],
            decreases rank - i,
        {
            proof {
                self.lemma_pos_mono(i + 1, rank as int);
                assert(self.pos(i as int) < self.pos(i as int + 1));
                assert(self.base() + self.pos(rank as int) == full_len);
            }
            out.push(self.0[2 + rank + self.0[1 + i]]);
            i = i + 1;
        }
        out
    }

    /// Dimension `i`'s tile record, if there is such a dimension.
    #[verifier::rlimit(50)]
    pub fn tile(&self, i: usize) -> (r: Option<Tile<'_>>)
        requires
            self.wf(),
        ensures
            i < self.spec_rank() ==> (r matches Some(t) && t.0@ == self.dim(i as int)),
            i >= self.spec_rank() ==> r is None,
    {
        let rank = self.0[0];
        let full_len = self.0.len();
        if i < rank {
            proof {
                self.lemma_pos_mono(i + 1, rank as int);
                assert(self.pos(i as int) < self.pos(i as int + 1));
                assert(self.base() + self.pos(rank as int) == full_len);
            }
            let a = 2 + rank + self.0[1 + i];
            let b = 2 + rank + self.0[2 + i];
            Some(Tile(slice_subrange(self.0.as_slice(), a, b)))
        } else {
            None
        }
    }

    /// The scheme with its dimensions rearranged: the record of new
    /// dimension `i` is the record of old dimension `perm[i]`.
    #[verifier::rlimit(100)]
    pub fn transpose(&self, perm: &[usize]) -> (r: Self)
        requires
            self.wf(),
            perm@.len() == self.spec_rank(),
            forall|i: int| 0 <= i < perm@.len() ==> #[trigger] perm@[i] < self.spec_rank(),
            forall|i: int, j: int| 0 <= i < j < perm@.len() ==> perm@[i] != perm@[j],
        ensures
            r.wf(),
            r.spec_rank() == self.spec_rank(),
            forall|i: int|
                0 <= i < self.spec_rank() ==> #[trigger] r.dim(i) == self.dim(perm@[i] as int),
    {
        let rank = self.0[0];
        let full_len = self.0.len();
        let mut posv: Vec<usize> = Vec::new();
        let mut tl: Vec<usize> = Vec::new();
        posv.push(0);
        let mut i: usize = 0;
        while i < rank
            invariant
                i <= rank,
                self.wf(),
                self@.len() == full_len,
                rank == self.spec_rank(),
                perm@.len() == rank,
                forall|h: int| 0 <= h < perm@.len() ==> #[trigger] perm@[h] < rank,
                posv@.len() == i + 1,
                posv@[0] == 0,
                posv@[i as int] == tl@.len(),
                forall|h: int| 0 <= h < i ==> #[trigger] posv@[h] < posv@[h + 1],
                forall|h: int| 0 <= h <= i ==> #[trigger] posv@[h] <= tl@.len(),
                forall|h: int|
                    0 <= h < i ==> tl@.subrange(#[trigger] posv@[h] as int, posv@[h + 1] as int)
                        == self.dim(perm@[h] as int),
                forall|j: int| 0 <= j < tl@.len() ==> #[trigger] tl@[j] >= 1,
            decreases rank - i,
        {
            let src = perm[i];
            proof {
                self.lemma_pos_mono(src + 1, rank as int);
                self.lemma_pos_mono(0, src as int);
                assert(self.pos(src as int) < self.pos(src as int + 1));
            }
            let a = self.0[1 + src];
            let b = self.0[2 + src];
            let ghost tl_before = tl@;
            let mut j: usize = a;
            while j < b
                invariant
                    a <= j <= b,
                    self.wf(),
                    self@.len() == full_len,
                    rank == self.spec_rank(),
                    src < rank,
                    a == self.pos(src as int),
                    b == self.pos(src as int + 1),
                    b <= self.pos(rank as int),
                    tl@.len() == tl_before.len() + (j - a),
                    tl@.take(tl_before.len() as int) == tl_before,
                    tl@.skip(tl_before.len() as int) == self@.subrange(
                        self.base() + a,
                        self.base() + j,
                    ),
                    forall|x: int| 0 <= x < tl@.len() ==> #[trigger] tl@[x] >= 1,
                decreases b - j,
            {
                tl.push(self.0[2 + rank + j]);
                proof {
                    assert(tl@.take(tl_before.len() as int) =~= tl_before);
                    assert(tl@.skip(tl_before.len() as int) =~= self@.subrange(
                        self.base() + a,
                        self.base() + j + 1,
                    ));
                }
                j = j + 1;
            }
            posv.push(tl.len());
            proof {
                assert(tl@.skip(tl_before.len() as int) =~= self.dim(src as int));
                assert forall|h: int|
                    0 <= h < i + 1 implies tl@.subrange(
                    #[trigger] posv@[h] as int,
                    posv@[h + 1] as int,
                ) == self.dim(perm@[h] as int) by {
                    if h < i {
                        assert(posv@[h + 1] <= tl_before.len());
                        assert(tl@.subrange(posv@[h] as int, posv@[h + 1] as int)
                            =~= tl_before.subrange(posv@[h] as int, posv@[h + 1] as int));
                    } else {
                        assert(tl@.subrange(posv@[h] as int, posv@[h + 1] as int) =~= tl@.skip(
                            tl_before.len() as int,
                        ));
                    }
                }
            }
            i = i + 1;
        }

        // Pack the pieces back into one vector.
        let out = pack(rank, &posv, &tl);
        let r = Logical(out);
        proof {
            lemma_packed_form(r, rank as int, posv@, tl@);
            assert forall|i: int|
                0 <= i < rank implies #[trigger] r.dim(i) == self.dim(perm@[i] as int) by {
                assert(r.dim(i) =~= tl@.subrange(posv@[i] as int, posv@[i + 1] as int));
            }
        }
        r
    }

    /// The scheme with dimension `axis` re-tiled by the extents in
    /// `shape`, whose product must reproduce the dimension's extent.
    #[verifier::rlimit(100)]
    pub fn partition(&self, axis: usize, shape: &[usize]) -> (r: Self)
        requires
            self.wf(),
            shape@.len() >= 1,
            axis < self.spec_rank(),
            prod(shape@) == self.dim(axis as int)[0],
        ensures
            r.wf(),
            r.spec_rank() == self.spec_rank(),
            forall|i: int|
                0 <= i < self.spec_rank() && i != axis ==> #[trigger] r.dim(i) == self.dim(i),
            r.dim(axis as int) == suffix_products(shape@),
    {
        let rank = self.0[0];
        let full_len = self.0.len();
        proof {
            self.lemma_pos_mono(axis as int + 1, rank as int);
            self.lemma_pos_mono(0, axis as int);
            assert(self.pos(axis as int) < self.pos(axis as int + 1));
            assert(self.dim(axis as int)[0] == self@[self.base() + self.pos(axis as int)]);
            crate::arith::lemma_all_pos_of_prod_pos(shape@);
        }
        let mut posv: Vec<usize> = Vec::new();
        let mut tl: Vec<usize> = Vec::new();
        posv.push(0);
        let mut i: usize = 0;
        while i < rank
            invariant
                i <= rank,
                self.wf(),
                self@.len() == full_len,
                rank == self.spec_rank(),
                axis < rank,
                shape@.len() >= 1,
                all_pos(shape@),
                prod(shape@) == self.dim(axis as int)[0],
                posv@.len() == i + 1,
                posv@[0] == 0,
                posv@[i as int] == tl@.len(),
                forall|h: int| 0 <= h < i ==> #[trigger] posv@[h] < posv@[h + 1],
                forall|h: int| 0 <= h <= i ==> #[trigger] posv@[h] <= tl@.len(),
                forall|h: int|
                    0 <= h < i ==> tl@.subrange(#[trigger] posv@[h] as int, posv@[h + 1] as int)
                        == (if h == axis {
                        suffix_products(shape@)
                    } else {
                        self.dim(h)
                    }),
                forall|j: int| 0 <= j < tl@.len() ==> #[trigger] tl@[j] >= 1,
            decreases rank - i,
        {
            let ghost tl_before = tl@;
            if i == axis {
                let k = shape.len();
                proof {
                    assert(self@[self.base() + self.pos(axis as int)] <= usize::MAX);
                }
                let mut j: usize = 0;
                while j < k
                    invariant
                        j <= k,
                        k == shape@.len(),
                        all_pos(shape@),
                        prod(shape@) <= usize::MAX,
                        tl@.len() == tl_before.len() + j,
                        tl@.take(tl_before.len() as int) == tl_before,
                        tl@.skip(tl_before.len() as int) == suffix_products(shape@).subrange(
                            0,
                            j as int,
                        ),
                        forall|x: int| 0 <= x < tl@.len() ==> #[trigger] tl@[x] >= 1,
                    decreases k - j,
                {
                    let p = range_product(shape, j, k);
                    proof {
                        assert(shape@.subrange(j as int, k as int) =~= shape@.skip(j as int));
                        lemma_prod_subrange_le(shape@, j as int, k as int);
                    }
                    tl.push(p);
                    proof {
                        assert(tl@.take(tl_before.len() as int) =~= tl_before);
                        assert(tl@.skip(tl_before.len() as int) =~= suffix_products(
                            shape@,
                        ).subrange(0, j + 1));
                    }
                    j = j + 1;
                }
                proof {
                    assert(tl@.skip(tl_before.len() as int) =~= suffix_products(shape@));
                }
            } else {
                proof {
                    self.lemma_pos_mono(i + 1, rank as int);
                    self.lemma_pos_mono(0, i as int);
                    assert(self.pos(i as int) < self.pos(i as int + 1));
                }
                let a = self.0[1 + i];
                let b = self.0[2 + i];
                let mut j: usize = a;
                while j < b
                    invariant
                        a <= j <= b,
                        self.wf(),
                        self@.len() == full_len,
                        rank == self.spec_rank(),
                        i < rank,
                        a == self.pos(i as int),
                        b == self.pos(i as int + 1),
                        b <= self.pos(rank as int),
                        tl@.len() == tl_before.len() + (j - a),
                        tl@.take(tl_before.len() as int) == tl_before,
                        tl@.skip(tl_before.len() as int) == self@.subrange(
                            self.base() + a,
                            self.base() + j,
                        ),
                        forall|x: int| 0 <= x < tl@.len() ==> #[trigger] tl@[x] >= 1,
                    decreases b - j,
                {
                    tl.push(self.0[2 + rank + j]);
                    proof {
                        assert(tl@.take(tl_before.len() as int) =~= tl_before);
                        assert(tl@.skip(tl_before.len() as int) =~= self@.subrange(
                            self.base() + a,
                            self.base() + j + 1,
                        ));
                    }
                    j = j + 1;
                }
                proof {
                    assert(tl@.skip(tl_before.len() as int) =~= self.dim(i as int));
                }
            }
            posv.push(tl.len());
            proof {
                assert(tl@.len() > tl_before.len());
                assert forall|h: int|
                    0 <= h < i + 1 implies tl@.subrange(
                    #[trigger] posv@[h] as int,
                    posv@[h + 1] as int,
                ) == (if h == axis {
                    suffix_products(shape@)
                } else {
                    self.dim(h)
                }) by {
                    if h < i {
                        assert(posv@[h + 1] <= tl_before.len());
                        assert(tl@.subrange(posv@[h] as int, posv@[h + 1] as int)
                            =~= tl_before.subrange(posv@[h] as int, posv@[h + 1] as int));
                    } else {
                        assert(tl@.subrange(posv@[h] as int, posv@[h + 1] as int) =~= tl@.skip(
                            tl_before.len() as int,
                        ));
                    }
                }
            }
            i = i + 1;
        }

        let out = pack(rank, &posv, &tl);
        let r = Logical(out);
        proof {
            lemma_packed_form(r, rank as int, posv@, tl@);
            assert forall|i: int|
                0 <= i < rank && i != axis implies #[trigger] r.dim(i) == self.dim(i) by {
                assert(r.dim(i) =~= tl@.subrange(posv@[i] as int, posv@[i + 1] as int));
            }
            assert(r.dim(axis as int) =~= tl@.subrange(
                posv@[axis as int] as int,
                posv@[axis as int + 1] as int,
            ));
        }
        r
    }
}

/// A vector packed from a count, strictly rising closing positions and
/// records is a well-formed scheme whose parts read back unchanged.
proof fn lemma_packed_form(r: Logical, rank: int, posv: Seq<usize>, tl: Seq<usize>)
    requires
        r@ == seq![rank as usize] + posv + tl,
        0 <= rank <= usize::MAX,
        posv.len() == rank + 1,
        posv[0] == 0,
        posv[rank] == tl.len(),
        forall|h: int| 0 <= h < rank ==> #[trigger] posv[h] < posv[h + 1],
        forall|h: int| 0 <= h <= rank ==> #[trigger] posv[h] <= tl.len(),
        forall|j: int| 0 <= j < tl.len() ==> #[trigger] tl[j] >= 1,
    ensures
        r.wf(),
        r.spec_rank() == rank,
        forall|h: int| 0 <= h <= rank ==> #[trigger] r.pos(h) == posv[h],
        forall|i: int|
            0 <= i < rank ==> #[trigger] r.dim(i) == tl.subrange(posv[i] as int, posv[i + 1] as int),
{
    assert(r.spec_rank() == rank);
    assert forall|h: int| 0 <= h <= rank implies #[trigger] r.pos(h) == posv[h] by {
        assert(r@[1 + h] == posv[h]);
    }
    assert forall|i: int|
        0 <= i < rank implies #[trigger] r.dim(i) == tl.subrange(
        posv[i] as int,
        posv[i + 1] as int,
    ) by {
        assert(r.dim(i) =~= tl.subrange(posv[i] as int, posv[i + 1] as int));
    }
    assert forall|j: int| r.base() <= j < r@.len() implies #[trigger] r@[j] >= 1 by {
        assert(r@[j] == tl[j - r.base()]);
    }
    assert(r.wf());
}

/// Packs a dimension count, its closing positions and the records back
/// into one vector.
fn pack(rank: usize, posv: &Vec<usize>, tl: &Vec<usize>) -> (out: Vec<usize>)
    requires
        posv@.len() == rank + 1,
        rank < usize::MAX,
    ensures
        out@ == seq![rank] + posv@ + tl@,
{
    let mut out: Vec<usize> = Vec::new();
    out.push(rank);
    proof {
        assert(out@ =~= seq![rank] + posv@.subrange(0, 0));
    }
    let mut i: usize = 0;
    while i <= rank
        invariant
            i <= rank + 1,
            posv@.len() == rank + 1,
            rank < usize::MAX,
            out@ == seq![rank] + posv@.subrange(0, i as int),
        decreases rank + 1 - i,
    {
        out.push(posv[i]);
        proof {
            assert(out@ =~= seq![rank] + posv@.subrange(0, i + 1));
        }
        i = i + 1;
    }
    proof {
        assert(posv@.subrange(0, posv@.len() as int) =~= posv@);
        assert(out@ =~= seq![rank] + posv@ + tl@.subrange(0, 0));
    }
    let mut j: usize = 0;
    let tn = tl.len();
    while j < tn
        invariant
            j <= tn,
            tn == tl@.len(),
            out@ == seq![rank] + posv@ + tl@.subrange(0, j as int),
        decreases tn - j,
    {
        out.push(tl[j]);
        proof {
            assert(out@ =~= seq![rank] + posv@ + tl@.subrange(0, j + 1));
        }
        j = j + 1;
    }
    proof {
        assert(out@ =~= seq![rank] + posv@ + tl@);
    }
    out
}

impl Tile<'_> {
    /// How many tile axes cover the dimension.
    pub fn rank(&self) -> (r: usize)
        ensures
            r == self.0@.len(),
    {
        self.0.len()
    }

    /// The dimension's full extent.
    pub fn size(&self) -> (r: usize)
        requires
            self.0@.len() >= 1,
        ensures
            r == self.0@[0],
    {
        self.0[0]
    }

    /// The extent of tile axis `i`, recovered from adjacent suffix
    /// products, if there is such an axis.
    pub fn shape(&self, i: usize) -> (r: Option<usize>)
        requires
            forall|j: int| 0 <= j < self.0@.len() ==> #[trigger] self.0@[j] >= 1,
        ensures
            i < self.0@.len() ==> r == Some(
                (self.0@[i as int] as int / (if i + 1 < self.0@.len() {
                    self.0@[i as int + 1] as int
                } else {
                    1
                })) as usize,
            ),
            i >= self.0@.len() ==> r is None,
    {
        let n = self.0.len();
        if i < n {
            if i + 1 < n {
                Some(self.0[i] / self.0[i + 1])
            } else {
                Some(self.0[i])
            }
        } else {
            None
        }
    }

    /// The extents of all tile axes covering the dimension.
    pub fn shape_vec(&self) -> (r: Vec<usize>)
        requires
            self.0@.len() >= 1,
            forall|j: int| 0 <= j < self.0@.len() ==> #[trigger] self.0@[j] >= 1,
        ensures
            r@.len() == self.0@.len(),
            forall|i: int|
                0 <= i < r@.len() - 1 ==> #[trigger] r@[i] == self.0@[i] as int / self.0@[i
                    + 1] as int,
            r@[r@.len() - 1] == self.0@[self.0@.len() - 1],
    {
        let n = self.0.len();
        let mut out: Vec<usize> = Vec::new();
        let mut i: usize = 0;
        while i < n - 1
            invariant
                i <= n - 1,
                n == self.0@.len(),
                n >= 1,
                forall|j: int| 0 <= j < n ==> #[trigger] self.0@[j] >= 1,
                out@.len() == i,
                forall|j: int|
                    0 <= j < i ==> #[trigger] out@[j] == self.0@[j] as int / self.0@[j + 1] as int,
            decreases n - 1 - i,
        {
            out.push(self.0[i] / self.0[i + 1]);
            i = i + 1;
        }
        out.push(self.0[n - 1]);
        out
    }
}

} // verus!
