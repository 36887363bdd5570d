//! Products of domain sizes and the mixed-radix digit arithmetic.

use vstd::arithmetic::div_mod::{
    lemma_fundamental_div_mod, lemma_fundamental_div_mod_converse, lemma_mod_division_less_than_divisor,
};
use vstd::prelude::*;

verus! {

/// The product of a sequence of integers.
pub open spec fn prod(s: Seq<int>) -> int
    decreases s.len(),
{
    if s.len() == 0 {
        1
    } else {
        s[0] * prod(s.drop_first())
    }
}

/// A product of factors that are all at least one is at least one.
pub proof fn lemma_prod_all_pos(s: Seq<int>)
    requires
        forall|i: int| 0 <= i < s.len() ==> s[i] >= 1,
    ensures
        prod(s) >= 1,
    decreases s.len(),
{
    if s.len() > 0 {
        lemma_prod_all_pos(s.drop_first());
        assert(s[0] * prod(s.drop_first()) >= 1) by (nonlinear_arith)
            requires
                s[0] >= 1,
                prod(s.drop_first()) >= 1,
        ;
    }
}

/// A product splits at any position into the product of the prefix and the
/// product of the rest.
pub proof fn lemma_prod_split(s: Seq<int>, k: int)
    requires
        0 <= k <= s.len(),
    ensures
        prod(s) == prod(s.take(k)) * prod(s.skip(k)),
    decreases k,
{
    if k == 0 {
        assert(s.take(0) =~= Seq::<int>::empty());
        assert(s.skip(0) =~= s);
    } else {
        let r = s.drop_first();
        lemma_prod_split(r, k - 1);
        assert(s.take(k).drop_first() =~= r.take(k - 1));
        assert(s.skip(k) =~= r.skip(k - 1));
        assert(s.take(k)[0] == s[0]);
        assert(prod(s.take(k)) == s[0] * prod(r.take(k - 1)));
        assert(s[0] * (prod(r.take(k - 1)) * prod(r.skip(k - 1))) == (s[0] * prod(r.take(k - 1)))
            * prod(r.skip(k - 1))) by (nonlinear_arith);
    }
}

/// Peels the first factor off the product of a suffix.
pub proof fn lemma_prod_skip_unfold(s: Seq<int>, k: int)
    requires
        0 <= k < s.len(),
    ensures
        prod(s.skip(k)) == s[k] * prod(s.skip(k + 1)),
{
    assert(s.skip(k).drop_first() =~= s.skip(k + 1));
    assert(s.skip(k)[0] == s[k]);
}

/// If every factor is at least one, the whole product bounds each factor and
/// each prefix product from above.
pub proof fn lemma_prod_bounds(s: Seq<int>, k: int)
    requires
        0 <= k < s.len(),
        forall|i: int| 0 <= i < s.len() ==> s[i] >= 1,
    ensures
        s[k] <= prod(s),
        prod(s.take(k)) <= prod(s),
        prod(s.skip(k)) <= prod(s),
{
    lemma_prod_split(s, k);
    lemma_prod_skip_unfold(s, k);
    lemma_prod_all_pos(s.take(k));
    lemma_prod_all_pos(s.skip(k));
    lemma_prod_all_pos(s.skip(k + 1));
    assert(s[k] <= prod(s) && prod(s.take(k)) <= prod(s) && prod(s.skip(k)) <= prod(s))
        by (nonlinear_arith)
        requires
            prod(s) == prod(s.take(k)) * prod(s.skip(k)),
            prod(s.skip(k)) == s[k] * prod(s.skip(k + 1)),
            prod(s.take(k)) >= 1,
            prod(s.skip(k)) >= 1,
            prod(s.skip(k + 1)) >= 1,
            s[k] >= 1,
    ;
}

/// Extending a prefix by one factor multiplies its product by that factor.
pub proof fn lemma_prod_take_step(s: Seq<int>, k: int)
    requires
        0 <= k < s.len(),
    ensures
        prod(s.take(k + 1)) == prod(s.take(k)) * s[k],
{
    lemma_prod_split(s.take(k + 1), k);
    assert(s.take(k + 1).take(k) =~= s.take(k));
    assert(s.take(k + 1).skip(k) =~= seq![s[k]]);
    assert(seq![s[k]].drop_first() =~= Seq::<int>::empty());
    assert(prod(seq![s[k]]) == s[k] * prod(Seq::<int>::empty()));
}

/// Once a prefix product is zero or has outgrown `cap`, the whole product of
/// nonnegative factors is zero or above `cap` as well.
pub proof fn lemma_prod_capped(s: Seq<int>, k: int, cap: int)
    requires
        0 <= k <= s.len(),
        cap >= 0,
        forall|i: int| 0 <= i < s.len() ==> s[i] >= 0,
        prod(s.take(k)) == 0 || prod(s.take(k)) > cap,
    ensures
        prod(s) == 0 || prod(s) > cap,
{
    lemma_prod_split(s, k);
    let rest = s.skip(k);
    if prod(s.take(k)) == 0 {
        assert(prod(s) == 0) by (nonlinear_arith)
            requires
                prod(s) == prod(s.take(k)) * prod(rest),
                prod(s.take(k)) == 0,
        ;
    } else if forall|i: int| 0 <= i < rest.len() ==> rest[i] >= 1 {
        lemma_prod_all_pos(rest);
        assert(prod(s) > cap) by (nonlinear_arith)
            requires
                prod(s) == prod(s.take(k)) * prod(rest),
                prod(s.take(k)) > cap,
                prod(rest) >= 1,
                cap >= 0,
        ;
    } else {
        let i = choose|i: int| 0 <= i < rest.len() && !(rest[i] >= 1);
        lemma_prod_zero(rest, i);
        assert(prod(s) == 0) by (nonlinear_arith)
            requires
                prod(s) == prod(s.take(k)) * prod(rest),
                prod(rest) == 0,
        ;
    }
}

/// A product with a zero factor is zero.
pub proof fn lemma_prod_zero(s: Seq<int>, k: int)
    requires
        0 <= k < s.len(),
        s[k] == 0,
        forall|i: int| 0 <= i < s.len() ==> s[i] >= 0,
    ensures
        prod(s) == 0,
{
    lemma_prod_split(s, k);
    lemma_prod_skip_unfold(s, k);
    assert(prod(s) == 0) by (nonlinear_arith)
        requires
            prod(s) == prod(s.take(k)) * prod(s.skip(k)),
            prod(s.skip(k)) == s[k] * prod(s.skip(k + 1)),
            s[k] == 0,
    ;
}

/// Rewriting one mixed-radix digit: subtracting the current digit `c` at a
/// position with weight `stride` and radix `m`, and adding a new digit `n`,
/// keeps the offset inside the space and stores exactly `n` at that position,
/// leaving the part below the position unchanged.
pub proof fn lemma_radix_roundtrip(off: int, stride: int, m: int, outer: int, n: int)
    requires
        stride >= 1,
        m >= 1,
        outer >= 1,
        0 <= off < outer * m * stride,
        0 <= n < m,
    ensures
        ({
            let c = (off / stride) % m;
            let off2 = off - c * stride + n * stride;
            &&& 0 <= c < m
            &&& c * stride <= off
            &&& 0 <= off2 < outer * m * stride
            &&& (off2 / stride) % m == n
            &&& off2 % stride == off % stride
        }),
{
    let d = off / stride;
    let t = off % stride;
    lemma_fundamental_div_mod(off, stride);
    lemma_mod_division_less_than_divisor(off, stride);
    let q = d / m;
    let c = d % m;
    lemma_fundamental_div_mod(d, m);
    lemma_mod_division_less_than_divisor(d, m);
    assert(d >= 0) by (nonlinear_arith)
        requires
            off == stride * d + t,
            0 <= t < stride,
            off >= 0,
            stride >= 1,
    ;
    assert(q >= 0) by (nonlinear_arith)
        requires
            d == m * q + c,
            0 <= c < m,
            d >= 0,
            m >= 1,
    ;
    assert(off == (q * m + c) * stride + t) by (nonlinear_arith)
        requires
            off == stride * d + t,
            d == m * q + c,
    ;
    assert(q < outer) by (nonlinear_arith)
        requires
            off == (q * m + c) * stride + t,
            off < outer * m * stride,
            0 <= t < stride,
            0 <= c < m,
            q >= 0,
            m >= 1,
            stride >= 1,
    ;
    assert(c * stride <= off) by (nonlinear_arith)
        requires
            off == stride * d + t,
            d == m * q + c,
            0 <= t,
            0 <= c,
            q >= 0,
            m >= 1,
            stride >= 1,
    ;
    let off2 = off - c * stride + n * stride;
    assert(off2 == (q * m + n) * stride + t) by (nonlinear_arith)
        requires
            off == (q * m + c) * stride + t,
            off2 == off - c * stride + n * stride,
    ;
    assert(0 <= off2 < outer * m * stride) by (nonlinear_arith)
        requires
            off2 == (q * m + n) * stride + t,
            0 <= q < outer,
            0 <= n < m,
            0 <= t < stride,
            m >= 1,
            stride >= 1,
    ;
    assert(q * m + n >= 0) by (nonlinear_arith)
        requires
            q >= 0,
            m >= 1,
            0 <= n,
    ;
    lemma_fundamental_div_mod_converse(off2, stride, q * m + n, t);
    lemma_fundamental_div_mod_converse(q * m + n, m, q, n);
    assert(off2 / stride == q * m + n) by {
        assert(off2 == stride * (q * m + n) + t) by (nonlinear_arith)
            requires
                off2 == (q * m + n) * stride + t,
        ;
        lemma_fundamental_div_mod_converse(off2, stride, q * m + n, t);
    }
    assert((q * m + n) == m * q + n) by (nonlinear_arith);
}

} // verus!
