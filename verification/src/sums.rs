//! Sums of integer sequences, and the condition that every running total of a sum fits
//! in a machine integer.
use vstd::prelude::*;

verus! {

/// The sum of the elements of `s`.
pub open spec fn sum_of(s: Seq<int>) -> int
    decreases s.len(),
{
    if s.len() == 0 {
        0
    } else {
        sum_of(s.drop_last()) + s.last()
    }
}

/// Every running total `s[0] + ... + s[k - 1]`, for `0 <= k <= s.len()`, lies in `[lo, hi]`.
pub open spec fn running_sums_within(s: Seq<int>, lo: int, hi: int) -> bool {
    forall|k: int| 0 <= k <= s.len() ==> lo <= #[trigger] sum_of(s.take(k)) <= hi
}

/// Adding one more element to a running total.
pub proof fn lemma_sum_take_step(s: Seq<int>, k: int)
    requires
        0 <= k < s.len(),
    ensures
        sum_of(s.take(k + 1)) == sum_of(s.take(k)) + s[k],
{
    assert(s.take(k + 1).drop_last() =~= s.take(k));
}

/// The running total over all elements is the sum.
pub proof fn lemma_sum_take_all(s: Seq<int>)
    ensures
        sum_of(s.take(s.len() as int)) == sum_of(s),
{
    assert(s.take(s.len() as int) =~= s);
}

/// The empty running total is zero.
pub proof fn lemma_sum_take_none(s: Seq<int>)
    ensures
        sum_of(s.take(0)) == 0,
{
    assert(s.take(0) =~= Seq::<int>::empty());
}

/// A sum of `len` elements each of magnitude at most `c` has magnitude at most `c * len`.
pub proof fn lemma_sum_bound(s: Seq<int>, c: int)
    requires
        c >= 0,
        forall|i: int| 0 <= i < s.len() ==> -c <= #[trigger] s[i] <= c,
    ensures
        -c * s.len() <= sum_of(s) <= c * s.len(),
    decreases s.len(),
{
    if s.len() > 0 {
        let t = s.drop_last();
        assert forall|i: int| 0 <= i < t.len() implies -c <= #[trigger] t[i] <= c by {
            assert(t[i] == s[i]);
        }
        lemma_sum_bound(t, c);
        assert(c * s.len() == c * t.len() + c && -c * s.len() == -c * t.len() - c)
            by (nonlinear_arith)
            requires
                s.len() == t.len() + 1,
        ;
    } else {
        assert(c * s.len() == 0 && -c * s.len() == 0) by (nonlinear_arith)
            requires
                s.len() == 0,
        ;
    }
}

/// A sum of non-negative elements is non-negative.
pub proof fn lemma_sum_nonneg(s: Seq<int>)
    requires
        forall|i: int| 0 <= i < s.len() ==> 0 <= #[trigger] s[i],
    ensures
        0 <= sum_of(s),
    decreases s.len(),
{
    if s.len() > 0 {
        let t = s.drop_last();
        assert forall|i: int| 0 <= i < t.len() implies 0 <= #[trigger] t[i] by {
            assert(t[i] == s[i]);
        }
        lemma_sum_nonneg(t);
    }
}

/// A sum of zeros is zero.
pub proof fn lemma_sum_zero(s: Seq<int>)
    requires
        forall|i: int| 0 <= i < s.len() ==> #[trigger] s[i] == 0,
    ensures
        sum_of(s) == 0,
    decreases s.len(),
{
    if s.len() > 0 {
        let t = s.drop_last();
        assert forall|i: int| 0 <= i < t.len() implies #[trigger] t[i] == 0 by {
            assert(t[i] == s[i]);
        }
        lemma_sum_zero(t);
    }
}

/// A sum of `len` copies of `c` is `c * len`.
pub proof fn lemma_sum_const(s: Seq<int>, c: int)
    requires
        forall|i: int| 0 <= i < s.len() ==> #[trigger] s[i] == c,
    ensures
        sum_of(s) == c * s.len(),
    decreases s.len(),
{
    if s.len() > 0 {
        let t = s.drop_last();
        assert forall|i: int| 0 <= i < t.len() implies #[trigger] t[i] == c by {
            assert(t[i] == s[i]);
        }
        lemma_sum_const(t, c);
        assert(c * s.len() == c * t.len() + c) by (nonlinear_arith)
            requires
                s.len() == t.len() + 1,
        ;
    } else {
        assert(c * s.len() == 0) by (nonlinear_arith)
            requires
                s.len() == 0,
        ;
    }
}

/// The sum of a concatenation is the sum of the sums.
pub proof fn lemma_sum_concat(s: Seq<int>, t: Seq<int>)
    ensures
        sum_of(s + t) == sum_of(s) + sum_of(t),
    decreases t.len(),
{
    if t.len() == 0 {
        assert(s + t =~= s);
    } else {
        assert((s + t).drop_last() =~= s + t.drop_last());
        lemma_sum_concat(s, t.drop_last());
    }
}

/// Removing element `i` takes `s[i]` off the sum.
pub proof fn lemma_sum_remove(s: Seq<int>, i: int)
    requires
        0 <= i < s.len(),
    ensures
        sum_of(s) == sum_of(s.remove(i)) + s[i],
{
    let a = s.take(i);
    let b = s.skip(i + 1);
    let one = seq![s[i]];
    assert(s =~= a + one + b);
    assert(s.remove(i) =~= a + b);
    lemma_sum_concat(a + one, b);
    lemma_sum_concat(a, one);
    lemma_sum_concat(a, b);
    assert(one.drop_last() =~= Seq::<int>::empty());
    assert(sum_of(one.drop_last()) == 0);
    assert(sum_of(one) == s[i]);
}

/// Negating every element negates the sum.
pub proof fn lemma_sum_negate(s: Seq<int>, t: Seq<int>)
    requires
        s.len() == t.len(),
        forall|i: int| 0 <= i < s.len() ==> #[trigger] t[i] == -s[i],
    ensures
        sum_of(t) == -sum_of(s),
    decreases s.len(),
{
    if s.len() > 0 {
        let s2 = s.drop_last();
        let t2 = t.drop_last();
        assert forall|i: int| 0 <= i < s2.len() implies #[trigger] t2[i] == -s2[i] by {
            assert(t2[i] == t[i] && s2[i] == s[i]);
        }
        lemma_sum_negate(s2, t2);
    }
}

/// The sum of elementwise differences is the difference of the sums.
pub proof fn lemma_sum_sub(s: Seq<int>, t: Seq<int>, u: Seq<int>)
    requires
        s.len() == t.len(),
        u.len() == s.len(),
        forall|i: int| 0 <= i < s.len() ==> #[trigger] u[i] == s[i] - t[i],
    ensures
        sum_of(u) == sum_of(s) - sum_of(t),
    decreases s.len(),
{
    if s.len() > 0 {
        let (s2, t2, u2) = (s.drop_last(), t.drop_last(), u.drop_last());
        assert forall|i: int| 0 <= i < s2.len() implies #[trigger] u2[i] == s2[i] - t2[i] by {
            assert(u2[i] == u[i] && s2[i] == s[i] && t2[i] == t[i]);
        }
        lemma_sum_sub(s2, t2, u2);
    }
}

/// Scaling every element scales the sum.
pub proof fn lemma_sum_scale(s: Seq<int>, t: Seq<int>, c: int)
    requires
        s.len() == t.len(),
        forall|i: int| 0 <= i < s.len() ==> #[trigger] t[i] == c * s[i],
    ensures
        sum_of(t) == c * sum_of(s),
    decreases s.len(),
{
    if s.len() > 0 {
        let (s2, t2) = (s.drop_last(), t.drop_last());
        assert forall|i: int| 0 <= i < s2.len() implies #[trigger] t2[i] == c * s2[i] by {
            assert(t2[i] == t[i] && s2[i] == s[i]);
        }
        lemma_sum_scale(s2, t2, c);
        assert(c * sum_of(s) == c * sum_of(s2) + c * s.last()) by (nonlinear_arith)
            requires
                sum_of(s) == sum_of(s2) + s.last(),
        ;
    }
}

} // verus!
