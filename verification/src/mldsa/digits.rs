//! Positional notation: the number that a sequence of digits stands for, and
//! its digits again.

use vstd::arithmetic::div_mod::*;
use vstd::arithmetic::mul::*;
use vstd::arithmetic::power::*;
use vstd::prelude::*;

use crate::mldsa::ring;

verus! {

/// The number with the little-endian digits d[0], ..., d[n - 1] in base `b`.
pub open spec fn number(d: Seq<int>, b: int, n: nat) -> int {
    ring::seval(d, 0, 1, b, n)
}

/// Digit `i` of `v` in base `b`.
pub open spec fn digit(v: int, b: int, i: int) -> int {
    (v / pow(b, i as nat)) % b
}

/// The first `n` digits of `v` in base `b`.
pub open spec fn digits(v: int, b: int, n: nat) -> Seq<int> {
    Seq::new(n, |i: int| digit(v, b, i))
}

/// Bytes as integers.
pub open spec fn ints(s: Seq<u8>) -> Seq<int> {
    Seq::new(s.len(), |i: int| s[i] as int)
}

pub open spec fn all_below(d: Seq<int>, b: int, n: nat) -> bool {
    forall|i: int| 0 <= i < n ==> 0 <= #[trigger] d[i] < b
}

pub proof fn lemma_number_prefix(d: Seq<int>, e: Seq<int>, b: int, n: nat)
    requires
        forall|i: int| 0 <= i < n ==> #[trigger] d[i] == e[i],
    ensures
        number(d, b, n) == number(e, b, n),
    decreases n,
{
    if n > 0 {
        lemma_number_prefix(d, e, b, (n - 1) as nat);
        assert(d[n - 1] == e[n - 1]);
    }
}

/// The digits of a number are the digits it was made from.
pub proof fn lemma_digits_of_number(d: Seq<int>, b: int, n: nat)
    requires
        b >= 2,
        all_below(d, b, n),
    ensures
        0 <= number(d, b, n) < pow(b, n),
        forall|i: int| 0 <= i < n ==> digit(number(d, b, n), b, i) == #[trigger] d[i],
    decreases n,
{
    reveal(pow);
    if n > 0 {
        let m = (n - 1) as nat;
        lemma_digits_of_number(d, b, m);
        let v = number(d, b, m);
        let x = d[m as int];
        let p = pow(b, m);
        lemma_pow_positive(b, m);
        assert(0 <= x < b);
        assert(pow(b, n) == b * p);
        assert(0 <= x * p && v + x * p < b * p) by (nonlinear_arith)
            requires
                0 <= v < p,
                0 <= x < b,
        ;
        let w = number(d, b, n);
        assert(w == v + x * p);
        assert forall|i: int| 0 <= i < n implies digit(w, b, i) == #[trigger] d[i] by {
            if i == m {
                lemma_fundamental_div_mod_converse(w, p, x, v);
                lemma_small_mod(x as nat, b as nat);
            } else {
                let k = (m - i - 1) as nat;
                let pi = pow(b, i as nat);
                lemma_pow_positive(b, i as nat);
                lemma_pow_adds(b, i as nat, (m - i) as nat);
                let r = pow(b, k);
                assert(pow(b, (m - i) as nat) == b * r);
                assert(p == pi * (b * r));
                assert(x * p == (b * (r * x)) * pi) by (nonlinear_arith)
                    requires
                        p == pi * (b * r),
                ;
                lemma_hoist_over_denominator(v, b * (r * x), pi as nat);
                assert(w / pi == v / pi + b * (r * x));
                lemma_mod_multiples_vanish(r * x, v / pi, b);
                assert(digit(v, b, i) == d[i]);
            }
        }
    }
}

/// A number is made of its digits.
pub proof fn lemma_number_of_digits(v: int, b: int, n: nat)
    requires
        b >= 2,
        v >= 0,
    ensures
        number(digits(v, b, n), b, n) == v % pow(b, n),
        all_below(digits(v, b, n), b, n),
    decreases n,
{
    reveal(pow);
    if n > 0 {
        let m = (n - 1) as nat;
        lemma_number_of_digits(v, b, m);
        lemma_number_prefix(digits(v, b, n), digits(v, b, m), b, m);
        let p = pow(b, m);
        lemma_pow_positive(b, m);
        lemma_mod_breakdown(v, p, b);
        assert(b * p == p * b) by (nonlinear_arith);
        let x = (v / p) % b;
        assert(x * p == p * x) by (nonlinear_arith);
        assert(digits(v, b, n)[m as int] == x);
    }
    assert forall|i: int| 0 <= i < n implies 0 <= #[trigger] digits(v, b, n)[i] < b by {
        lemma_mod_bound(v / pow(b, i as nat), b);
    }
}

/// One step of changing the base: `t` counts the part of the number that has
/// not been written yet, in units of `p`.
pub proof fn lemma_emit(t: int, b: int, p: int)
    requires
        b > 0,
    ensures
        (t % b) * p + (t / b) * (b * p) == t * p,
{
    lemma_fundamental_div_mod(t, b);
    assert((t % b) * p + (t / b) * (b * p) == (b * (t / b) + t % b) * p) by (nonlinear_arith);
}

}
