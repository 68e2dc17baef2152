use vstd::prelude::*;

verus! {

use crate::arith::{valid_axis_map, identity_map};

/// `v` occurs among the destination axes that `perm` names.
pub open spec fn perm_has(perm: Seq<usize>, v: int) -> bool {
    exists|j: int| 0 <= j < perm.len() && perm[j] == v
}

/// `perm` names some destination axis twice.
pub open spec fn has_dup(perm: Seq<usize>) -> bool {
    exists|i: int, j: int| 0 <= i < j < perm.len() && perm[i] == perm[j]
}

/// How many entries of `perm` lie below `v`: the rank of destination
/// axis `v` among the named destinations.
pub open spec fn count_below(perm: Seq<usize>, v: int) -> int
    decreases perm.len(),
{
    if perm.len() == 0 {
        0
    } else {
        (if perm[0] < v {
            1int
        } else {
            0int
        }) + count_below(perm.skip(1), v)
    }
}

/// The full destination-to-source axis map that `perm` induces on
/// `0 .. n`: the named destination axes, in increasing order, read from
/// the entries of `perm` in the order given; every other axis keeps its
/// place.
pub open spec fn axis_map(perm: Seq<usize>, n: int) -> Seq<usize> {
    Seq::new(
        n as nat,
        |i: int|
            if perm_has(perm, i) {
                perm[count_below(perm, i)]
            } else {
                i as usize
            },
    )
}

pub proof fn lemma_count_below_nonneg(perm: Seq<usize>, v: int)
    ensures
        0 <= count_below(perm, v) <= perm.len(),
    decreases perm.len(),
{
    if perm.len() > 0 {
        lemma_count_below_nonneg(perm.skip(1), v);
    }
}

/// An axis that `perm` names ranks strictly below the number of names.
pub proof fn lemma_count_below_lt(perm: Seq<usize>, v: int)
    requires
        perm_has(perm, v),
    ensures
        0 <= count_below(perm, v) < perm.len(),
    decreases perm.len(),
{
    lemma_count_below_nonneg(perm, v);
    if perm[0] == v {
        lemma_count_below_nonneg(perm.skip(1), v);
    } else {
        let j = choose|j: int| 0 <= j < perm.len() && perm[j] == v;
        assert(perm.skip(1)[j - 1] == v);
        lemma_count_below_lt(perm.skip(1), v);
    }
}

pub proof fn lemma_count_below_mono(perm: Seq<usize>, w: int, v: int)
    requires
        w <= v,
    ensures
        count_below(perm, w) <= count_below(perm, v),
    decreases perm.len(),
{
    if perm.len() > 0 {
        lemma_count_below_mono(perm.skip(1), w, v);
    }
}

/// A named axis strictly between two values raises the count strictly.
pub proof fn lemma_count_below_strict(perm: Seq<usize>, w: int, v: int)
    requires
        perm_has(perm, w),
        w < v,
    ensures
        count_below(perm, w) < count_below(perm, v),
    decreases perm.len(),
{
    if perm[0] == w {
        lemma_count_below_mono(perm.skip(1), w, v);
    } else {
        let j = choose|j: int| 0 <= j < perm.len() && perm[j] == w;
        assert(perm.skip(1)[j - 1] == w);
        lemma_count_below_strict(perm.skip(1), w, v);
    }
}

/// Appending one entry counts it exactly when it lies below `v`.
pub proof fn lemma_count_below_snoc(perm: Seq<usize>, x: usize, v: int)
    ensures
        count_below(perm.push(x), v) == count_below(perm, v) + (if x < v {
            1int
        } else {
            0int
        }),
    decreases perm.len(),
{
    if perm.len() == 0 {
        assert(perm.push(x).skip(1) =~= Seq::<usize>::empty());
        assert(perm.push(x)[0] == x);
        assert(count_below(perm.push(x), v) == (if x < v {
            1int
        } else {
            0int
        }) + count_below(perm.push(x).skip(1), v));
    } else {
        assert(perm.push(x).skip(1) =~= perm.skip(1).push(x));
        lemma_count_below_snoc(perm.skip(1), x, v);
        assert(perm.push(x)[0] == perm[0]);
    }
}

/// Without duplicate names, the induced axis map is a bijection on
/// `0 .. n` whenever every name lies below `n`.
pub proof fn lemma_axis_map_valid(perm: Seq<usize>, n: int)
    requires
        !has_dup(perm),
        forall|j: int| 0 <= j < perm.len() ==> #[trigger] perm[j] < n,
        0 <= n <= usize::MAX,
    ensures
        valid_axis_map(axis_map(perm, n), n),
{
    let m = axis_map(perm, n);
    assert forall|i: int| 0 <= i < n implies #[trigger] m[i] < n by {
        if perm_has(perm, i) {
            lemma_count_below_lt(perm, i);
        }
    }
    assert forall|i: int, j: int| 0 <= i < j < n implies m[i] != m[j] by {
        if perm_has(perm, i) && perm_has(perm, j) {
            lemma_count_below_lt(perm, i);
            lemma_count_below_lt(perm, j);
            lemma_count_below_strict(perm, i, j);
            assert(count_below(perm, i) != count_below(perm, j));
        } else if perm_has(perm, i) {
            lemma_count_below_lt(perm, i);
            let w = count_below(perm, i);
            if perm[w] == j as usize {
                assert(0 <= w < perm.len() && perm[w] == j);
                assert(perm_has(perm, j));
            }
        } else if perm_has(perm, j) {
            lemma_count_below_lt(perm, j);
            let w = count_below(perm, j);
            if perm[w] == i as usize {
                assert(0 <= w < perm.len() && perm[w] == i);
                assert(perm_has(perm, i));
            }
        }
    }
}

/// Detects a repeated destination axis.
pub fn find_duplicate(perm: &[usize]) -> (r: bool)
    ensures
        r == has_dup(perm@),
{
    let n = perm.len();
    let mut i: usize = 0;
    while i < n
        invariant
            i <= n,
            n == perm@.len(),
            !(exists|a: int, b: int| 0 <= a < b < perm@.len() && a < i && perm@[a] == perm@[b]),
        decreases n - i,
    {
        let mut j: usize = i + 1;
        while j < n
            invariant
                i < j <= n,
                n == perm@.len(),
                forall|b: int| i < b < j ==> perm@[i as int] != #[trigger] perm@[b],
            decreases n - j,
        {
            if perm[i] == perm[j] {
                return true;
            }
            j = j + 1;
        }
        i = i + 1;
    }
    false
}

/// Tests whether any entry of `perm` reaches `bound`.
pub fn any_reaches(perm: &[usize], bound: usize) -> (r: bool)
    ensures
        r == exists|j: int| 0 <= j < perm@.len() && #[trigger] perm@[j] >= bound,
{
    let n = perm.len();
    let mut i: usize = 0;
    while i < n
        invariant
            i <= n,
            n == perm@.len(),
            forall|j: int| 0 <= j < i ==> #[trigger] perm@[j] < bound,
        decreases n - i,
    {
        if perm[i] >= bound {
            return true;
        }
        i = i + 1;
    }
    false
}

/// Builds the full destination-to-source axis map as a vector.
pub fn axis_map_vec(perm: &[usize], n: usize) -> (r: Vec<usize>)
    requires
        !has_dup(perm@),
        forall|j: int| 0 <= j < perm@.len() ==> #[trigger] perm@[j] < n,
    ensures
        r@ == axis_map(perm@, n as int),
        valid_axis_map(r@, n as int),
{
    let m = perm.len();
    let mut out: Vec<usize> = Vec::new();
    let mut i: usize = 0;
    while i < n
        invariant
            i <= n,
            m == perm@.len(),
            !has_dup(perm@),
            forall|j: int| 0 <= j < perm@.len() ==> #[trigger] perm@[j] < n,
            out@ == axis_map(perm@, n as int).subrange(0, i as int),
        decreases n - i,
    {
        let mut cnt: usize = 0;
        let mut found = false;
        let mut j: usize = 0;
        proof {
            assert(perm@.take(0) =~= Seq::<usize>::empty());
        }
        while j < m
            invariant
                j <= m,
                m == perm@.len(),
                i < n,
                cnt == count_below(perm@.take(j as int), i as int),
                cnt <= j,
                found == perm_has(perm@.take(j as int), i as int),
            decreases m - j,
        {
            proof {
                assert(perm@.take(j + 1) =~= perm@.take(j as int).push(perm@[j as int]));
                lemma_count_below_snoc(perm@.take(j as int), perm@[j as int], i as int);
                lemma_count_below_nonneg(perm@.take(j as int), i as int);
                if perm_has(perm@.take(j as int), i as int) {
                    let w = choose|w: int|
                        0 <= w < j && perm@.take(j as int)[w] == i as usize;
                    assert(perm@.take(j + 1)[w] == i as usize);
                }
            }
            if perm[j] < i {
                cnt = cnt + 1;
            } else if perm[j] == i {
                found = true;
                proof {
                    assert(perm@.take(j + 1)[j as int] == i as usize);
                }
            }
            j = j + 1;
        }
        proof {
            assert(perm@.take(m as int) =~= perm@);
        }
        if found {
            proof {
                lemma_count_below_lt(perm@, i as int);
            }
            out.push(perm[cnt]);
        } else {
            out.push(i);
        }
        proof {
            assert(out@ =~= axis_map(perm@, n as int).subrange(0, i + 1));
        }
        i = i + 1;
    }
    proof {
        assert(out@ =~= axis_map(perm@, n as int));
        lemma_axis_map_valid(perm@, n as int);
    }
    out
}

/// Tests whether an axis map moves nothing.
pub fn is_identity(map: &Vec<usize>) -> (r: bool)
    ensures
        r == identity_map(map@),
{
    let n = map.len();
    let mut i: usize = 0;
    while i < n
        invariant
            i <= n,
            n == map@.len(),
            forall|j: int| 0 <= j < i ==> #[trigger] map@[j] == j,
        decreases n - i,
    {
        if map[i] != i {
            return false;
        }
        i = i + 1;
    }
    true
}

} // verus!
