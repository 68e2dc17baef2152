use vstd::prelude::*;

verus! {

/// Product of a sequence of extents, as a mathematical integer.
///
/// The empty product is 1, so the product over the sentinel axis alone is
/// the neutral element of the address algebra.
pub open spec fn prod(s: Seq<usize>) -> int
    decreases s.len(),
{
    if s.len() == 0 {
        1
    } else {
        s[0] * prod(s.skip(1))
    }
}

/// Sum of a sequence of group widths, as a mathematical integer.
pub open spec fn sum(s: Seq<usize>) -> int
    decreases s.len(),
{
    if s.len() == 0 {
        0
    } else {
        s[0] + sum(s.skip(1))
    }
}

/// Product of a sequence of mathematical integers.
pub open spec fn prod_ints(s: Seq<int>) -> int
    decreases s.len(),
{
    if s.len() == 0 {
        1
    } else {
        s[0] * prod_ints(s.skip(1))
    }
}

/// Every entry of `s` is at least one.
pub open spec fn all_pos(s: Seq<usize>) -> bool {
    forall|i: int| 0 <= i < s.len() ==> s[i] >= 1
}

pub proof fn lemma_prod_singleton(s: Seq<usize>)
    requires
        s.len() == 1,
    ensures
        prod(s) == s[0],
{
    assert(prod(s.skip(1)) == 1);
    assert(prod(s) == s[0] * prod(s.skip(1)));
}

pub proof fn lemma_sum_singleton(s: Seq<usize>)
    requires
        s.len() == 1,
    ensures
        sum(s) == s[0],
{
    assert(sum(s.skip(1)) == 0);
    assert(sum(s) == s[0] + sum(s.skip(1)));
}

pub proof fn lemma_prod_concat(a: Seq<usize>, b: Seq<usize>)
    ensures
        prod(a + b) == prod(a) * prod(b),
    decreases a.len(),
{
    if a.len() == 0 {
        assert(a + b =~= b);
    } else {
        assert((a + b).skip(1) =~= a.skip(1) + b);
        lemma_prod_concat(a.skip(1), b);
        assert(a[0] * (prod(a.skip(1)) * prod(b)) == (a[0] * prod(a.skip(1))) * prod(b))
            by (nonlinear_arith);
    }
}

pub proof fn lemma_sum_concat(a: Seq<usize>, b: Seq<usize>)
    ensures
        sum(a + b) == sum(a) + sum(b),
    decreases a.len(),
{
    if a.len() == 0 {
        assert(a + b =~= b);
    } else {
        assert((a + b).skip(1) =~= a.skip(1) + b);
        lemma_sum_concat(a.skip(1), b);
    }
}

/// Splitting a sequence at any point splits its product.
pub proof fn lemma_prod_split(s: Seq<usize>, k: int)
    requires
        0 <= k <= s.len(),
    ensures
        prod(s) == prod(s.take(k)) * prod(s.skip(k)),
{
    assert(s =~= s.take(k) + s.skip(k));
    lemma_prod_concat(s.take(k), s.skip(k));
}

/// Splitting a sequence at any point splits its sum.
pub proof fn lemma_sum_split(s: Seq<usize>, k: int)
    requires
        0 <= k <= s.len(),
    ensures
        sum(s) == sum(s.take(k)) + sum(s.skip(k)),
{
    assert(s =~= s.take(k) + s.skip(k));
    lemma_sum_concat(s.take(k), s.skip(k));
}

pub proof fn lemma_prod_pos(s: Seq<usize>)
    requires
        all_pos(s),
    ensures
        prod(s) >= 1,
    decreases s.len(),
{
    if s.len() > 0 {
        assert(all_pos(s.skip(1)));
        lemma_prod_pos(s.skip(1));
        assert(s[0] * prod(s.skip(1)) >= 1) by (nonlinear_arith)
            requires
                s[0] >= 1,
                prod(s.skip(1)) >= 1,
        ;
    }
}

pub proof fn lemma_sum_nonneg(s: Seq<usize>)
    ensures
        sum(s) >= 0,
    decreases s.len(),
{
    if s.len() > 0 {
        lemma_sum_nonneg(s.skip(1));
    }
}

/// With positive entries, the product over any middle part divides out as
/// a factor no larger than the whole product.
pub proof fn lemma_prod_subrange_le(s: Seq<usize>, i: int, j: int)
    requires
        all_pos(s),
        0 <= i <= j <= s.len(),
    ensures
        1 <= prod(s.subrange(i, j)),
        prod(s.subrange(i, j)) <= prod(s),
{
    lemma_prod_split(s, i);
    lemma_prod_split(s.skip(i), j - i);
    assert(s.skip(i).take(j - i) =~= s.subrange(i, j));
    assert(all_pos(s.take(i)));
    assert(all_pos(s.skip(i)));
    assert(all_pos(s.subrange(i, j)));
    assert(all_pos(s.skip(i).skip(j - i)));
    lemma_prod_pos(s.take(i));
    lemma_prod_pos(s.subrange(i, j));
    lemma_prod_pos(s.skip(i).skip(j - i));
    assert(prod(s) == prod(s.take(i)) * (prod(s.subrange(i, j)) * prod(s.skip(i).skip(j - i))));
    assert(prod(s.take(i)) * (prod(s.subrange(i, j)) * prod(s.skip(i).skip(j - i))) >= prod(
        s.subrange(i, j),
    )) by (nonlinear_arith)
        requires
            prod(s.take(i)) >= 1,
            prod(s.subrange(i, j)) >= 1,
            prod(s.skip(i).skip(j - i)) >= 1,
    ;
}

/// Removing one entry divides the product by that entry.
pub proof fn lemma_prod_remove(s: Seq<usize>, k: int)
    requires
        0 <= k < s.len(),
    ensures
        prod(s) == s[k] * prod(s.remove(k)),
    decreases k,
{
    if k == 0 {
        assert(s.remove(0) =~= s.skip(1));
    } else {
        lemma_prod_remove(s.skip(1), k - 1);
        assert(s.remove(k).skip(1) =~= s.skip(1).remove(k - 1));
        assert(s.remove(k)[0] == s[0]);
        assert(prod(s.remove(k)) == s[0] * prod(s.skip(1).remove(k - 1)));
        assert(prod(s) == s[0] * (s[k] * prod(s.skip(1).remove(k - 1))));
        assert(s[0] * (s[k] * prod(s.skip(1).remove(k - 1))) == s[k] * (s[0] * prod(
            s.skip(1).remove(k - 1),
        ))) by (nonlinear_arith);
    }
}

pub proof fn lemma_prod_snoc(s: Seq<usize>, x: usize)
    ensures
        prod(s.push(x)) == prod(s) * x,
{
    assert(s.push(x) =~= s + seq![x]);
    lemma_prod_concat(s, seq![x]);
    lemma_prod_singleton(seq![x]);
}

pub proof fn lemma_sum_snoc(s: Seq<usize>, x: usize)
    ensures
        sum(s.push(x)) == sum(s) + x,
{
    assert(s.push(x) =~= s + seq![x]);
    lemma_sum_concat(s, seq![x]);
    lemma_sum_singleton(seq![x]);
}

/// No entry exceeds the sum of the whole sequence.
pub proof fn lemma_sum_element_le(s: Seq<usize>, i: int)
    requires
        0 <= i < s.len(),
    ensures
        s[i] <= sum(s),
{
    lemma_sum_split(s, i);
    lemma_sum_nonneg(s.take(i));
    lemma_sum_nonneg(s.skip(i).skip(1));
    assert(sum(s.skip(i)) == s[i] + sum(s.skip(i).skip(1)));
}

/// A prefix never sums to more than the whole sequence.
pub proof fn lemma_sum_take_le(s: Seq<usize>, k: int)
    requires
        0 <= k <= s.len(),
    ensures
        sum(s.take(k)) <= sum(s),
{
    lemma_sum_split(s, k);
    lemma_sum_nonneg(s.skip(k));
}

/// The value fits a machine-word signed integer.
pub open spec fn within_isize(x: int) -> bool {
    isize::MIN <= x <= isize::MAX
}

/// One zero entry wipes out the whole product.
pub proof fn lemma_prod_zero(s: Seq<usize>, i: int)
    requires
        0 <= i < s.len(),
        s[i] == 0,
    ensures
        prod(s) == 0,
{
    lemma_prod_remove(s, i);
}

/// A positive product can only come from positive entries.
pub proof fn lemma_all_pos_of_prod_pos(s: Seq<usize>)
    requires
        prod(s) >= 1,
    ensures
        all_pos(s),
{
    assert forall|i: int| 0 <= i < s.len() implies s[i] >= 1 by {
        if s[i] == 0 {
            lemma_prod_zero(s, i);
        }
    }
}

/// Raising one entry raises the sum by the same amount.
pub proof fn lemma_sum_update(s: Seq<usize>, i: int, x: usize)
    requires
        0 <= i < s.len(),
    ensures
        sum(s.update(i, x)) == sum(s) - s[i] + x,
{
    let t = s.update(i, x);
    assert(s =~= s.take(i) + seq![s[i]] + s.skip(i + 1));
    assert(t =~= s.take(i) + seq![x] + s.skip(i + 1));
    lemma_sum_concat(s.take(i) + seq![s[i]], s.skip(i + 1));
    lemma_sum_concat(s.take(i), seq![s[i]]);
    lemma_sum_concat(s.take(i) + seq![x], s.skip(i + 1));
    lemma_sum_concat(s.take(i), seq![x]);
    lemma_sum_singleton(seq![s[i]]);
    lemma_sum_singleton(seq![x]);
}

/// A sequence of ones multiplies out to one.
pub proof fn lemma_prod_ones(s: Seq<usize>)
    requires
        forall|i: int| 0 <= i < s.len() ==> #[trigger] s[i] == 1,
    ensures
        prod(s) == 1,
    decreases s.len(),
{
    if s.len() > 0 {
        lemma_prod_ones(s.skip(1));
    }
}

/// A sequence map `m` that rearranges the indices `0 .. n` bijectively:
/// entry `i` names the source index that destination `i` reads from.
pub open spec fn valid_axis_map(m: Seq<usize>, n: int) -> bool {
    &&& m.len() == n
    &&& forall|i: int| 0 <= i < n ==> #[trigger] m[i] < n
    &&& forall|i: int, j: int| 0 <= i < j < n ==> m[i] != m[j]
}

/// A sequence read entry-wise through an index map.
pub open spec fn read_map<A>(s: Seq<A>, m: Seq<usize>) -> Seq<A> {
    Seq::new(m.len(), |i: int| s[m[i] as int])
}

/// An index map that moves nothing.
pub open spec fn identity_map(m: Seq<usize>) -> bool {
    forall|i: int| 0 <= i < m.len() ==> #[trigger] m[i] == i
}

/// Removing one entry lowers the sum by that entry.
pub proof fn lemma_sum_remove(s: Seq<usize>, k: int)
    requires
        0 <= k < s.len(),
    ensures
        sum(s) == s[k] + sum(s.remove(k)),
    decreases k,
{
    if k == 0 {
        assert(s.remove(0) =~= s.skip(1));
    } else {
        lemma_sum_remove(s.skip(1), k - 1);
        assert(s.remove(k).skip(1) =~= s.skip(1).remove(k - 1));
        assert(s.remove(k)[0] == s[0]);
        assert(sum(s.remove(k)) == s[0] + sum(s.skip(1).remove(k - 1)));
    }
}

/// Reading a sequence through a bijective index map keeps its sum.
pub proof fn lemma_sum_permuted(s: Seq<usize>, t: Seq<usize>, m: Seq<usize>)
    requires
        valid_axis_map(m, s.len() as int),
        t.len() == s.len(),
        forall|i: int| 0 <= i < t.len() ==> t[i] == s[#[trigger] m[i] as int],
    ensures
        sum(t) == sum(s),
    decreases s.len(),
{
    let n = s.len() as int;
    if n > 0 {
        let k = m[n - 1] as int;
        lemma_sum_remove(s, k);
        lemma_sum_split(t, n - 1);
        lemma_sum_singleton(t.skip(n - 1));
        let s1 = s.remove(k);
        let m1 = Seq::<usize>::new(
            (n - 1) as nat,
            |i: int| if m[i] < k { m[i] } else { (m[i] - 1) as usize },
        );
        assert(valid_axis_map(m1, n - 1)) by {
            assert forall|i: int| 0 <= i < n - 1 implies #[trigger] m1[i] < n - 1 by {
                assert(m[i] != m[n - 1]);
            }
            assert forall|i: int, j: int| 0 <= i < j < n - 1 implies m1[i] != m1[j] by {
                assert(m[i] != m[j]);
                assert(m[i] != m[n - 1]);
                assert(m[j] != m[n - 1]);
            }
        }
        assert forall|i: int| 0 <= i < n - 1 implies t.take(n - 1)[i] == s1[#[trigger] m1[i] as int] by {
            assert(m[i] != m[n - 1]);
            if m[i] < k {
                assert(s1[m1[i] as int] == s[m[i] as int]);
            } else {
                assert(s1[m1[i] as int] == s[m[i] as int]);
            }
        }
        lemma_sum_permuted(s1, t.take(n - 1), m1);
    } else {
        assert(t =~= s);
    }
}

/// Reading a sequence through a bijective index map keeps its product.
pub proof fn lemma_prod_permuted(s: Seq<usize>, t: Seq<usize>, m: Seq<usize>)
    requires
        valid_axis_map(m, s.len() as int),
        t.len() == s.len(),
        forall|i: int| 0 <= i < t.len() ==> t[i] == s[#[trigger] m[i] as int],
    ensures
        prod(t) == prod(s),
    decreases s.len(),
{
    let n = s.len() as int;
    if n > 0 {
        let k = m[n - 1] as int;
        lemma_prod_remove(s, k);
        lemma_prod_split(t, n - 1);
        lemma_prod_singleton(t.skip(n - 1));
        assert(prod(t) == prod(t.take(n - 1)) * s[k]);
        let s1 = s.remove(k);
        let m1 = Seq::<usize>::new(
            (n - 1) as nat,
            |i: int| if m[i] < k { m[i] } else { (m[i] - 1) as usize },
        );
        assert(valid_axis_map(m1, n - 1)) by {
            assert forall|i: int| 0 <= i < n - 1 implies #[trigger] m1[i] < n - 1 by {
                assert(m[i] != m[n - 1]);
            }
            assert forall|i: int, j: int| 0 <= i < j < n - 1 implies m1[i] != m1[j] by {
                assert(m[i] != m[j]);
                assert(m[i] != m[n - 1]);
                assert(m[j] != m[n - 1]);
            }
        }
        assert forall|i: int| 0 <= i < n - 1 implies t.take(n - 1)[i] == s1[#[trigger] m1[i] as int] by {
            assert(m[i] != m[n - 1]);
            if m[i] < k {
                assert(s1[m1[i] as int] == s[m[i] as int]);
            } else {
                assert(s1[m1[i] as int] == s[m[i] as int]);
            }
        }
        lemma_prod_permuted(s1, t.take(n - 1), m1);
        assert(prod(t.take(n - 1)) * s[k] == s[k] * prod(s1)) by (nonlinear_arith)
            requires
                prod(t.take(n - 1)) == prod(s1),
        ;
    } else {
        assert(t =~= s);
    }
}

} // verus!
