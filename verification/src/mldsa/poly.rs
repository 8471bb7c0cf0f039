//! The ring element and the pointwise product.

use vstd::prelude::*;

use crate::mldsa::modq;
use crate::mldsa::reduce::mont_reduce;
use crate::wipe::wipe_words;

verus! {

/// A ring element: 256 signed coefficients. One type carries both the normal
/// and the NTT or Montgomery domain; which one holds is a convention at each
/// call site. The coefficients are overwritten when it goes out of scope.
#[derive(PartialEq, Eq, Debug)]
pub struct Poly(pub [i32; 256]);

impl Clone for Poly {
    fn clone(&self) -> (p: Self)
        ensures
            p == *self,
    {
        Poly(self.0)
    }
}

impl Poly {
    /// Overwrites the coefficients with zeros.
    pub fn wipe(&mut self)
        ensures
            final(self)@ == zero_seq(),
        opens_invariants none
        no_unwind
    {
        wipe_words(&mut self.0);
        assert(self@ =~= zero_seq());
    }
}

impl Drop for Poly {
    fn drop(&mut self)
        opens_invariants none
        no_unwind
    {
        self.wipe();
    }
}

impl View for Poly {
    type V = Seq<int>;

    /// The coefficients as integers.
    open spec fn view(&self) -> Seq<int> {
        Seq::new(256, |n: int| self.0@[n] as int)
    }
}

/// Every coefficient of `s` lies in [lo, hi].
pub open spec fn within(s: Seq<int>, lo: int, hi: int) -> bool {
    forall|n: int| 0 <= n < 256 ==> lo <= #[trigger] s[n] <= hi
}

/// The zero polynomial.
pub open spec fn zero_seq() -> Seq<int> {
    Seq::new(256, |n: int| 0int)
}

impl Poly {
    /// The zero polynomial.
    pub fn zero() -> (p: Self)
        ensures
            p@ == zero_seq(),
    {
        let p = Poly([0i32; 256]);
        assert(p@ =~= zero_seq());
        p
    }

    /// Replaces coefficient `n`.
    pub fn set(&mut self, n: usize, v: i32)
        requires
            n < 256,
        ensures
            final(self)@ == old(self)@.update(n as int, v as int),
    {
        self.0[n] = v;
        assert(self@ =~= old(self)@.update(n as int, v as int));
    }

    /// Coefficient `n`.
    pub fn get(&self, n: usize) -> (v: i32)
        requires
            n < 256,
        ensures
            v == self@[n as int],
    {
        self.0[n]
    }
}

impl Default for Poly {
    fn default() -> (p: Self)
        ensures
            p@ == zero_seq(),
    {
        Poly::zero()
    }
}

/// A vector of `m` ring elements, all zero.
pub fn zero_vec(m: usize) -> (v: Vec<Poly>)
    ensures
        v@.len() == m,
        forall|i: int| 0 <= i < m ==> (#[trigger] v@[i])@ == zero_seq(),
{
    let mut v: Vec<Poly> = Vec::with_capacity(m);
    let mut i: usize = 0;
    while i < m
        invariant
            i <= m,
            v@.len() == i,
            forall|x: int| 0 <= x < i ==> (#[trigger] v@[x])@ == zero_seq(),
        decreases m - i,
    {
        v.push(Poly::zero());
        i = i + 1;
    }
    v
}

/// Pointwise Montgomery product: coefficient n of the result is
/// a[n] * b[n] * 2^-32 modulo q, in (-q, q). With exactly one operand carrying
/// the factor 2^32 this is the plain pointwise product.
pub fn pointwise_mont(a: &Poly, b: &Poly) -> (out: Poly)
    requires
        forall|n: int|
            0 <= n < 256 ==> -17996808470921216 <= #[trigger] (a@[n] * b@[n])
                < 17996808470921216,
    ensures
        within(out@, -8380416, 8380416),
        forall|n: int|
            0 <= n < 256 ==> modq::cong(#[trigger] out@[n] * 4294967296, a@[n] * b@[n]),
{
    let mut out = Poly::zero();
    let mut n: usize = 0;
    while n < 256
        invariant
            n <= 256,
            forall|n: int|
                0 <= n < 256 ==> -17996808470921216 <= #[trigger] (a@[n] * b@[n])
                    < 17996808470921216,
            within(out@, -8380416, 8380416),
            forall|m: int|
                0 <= m < n ==> modq::cong(#[trigger] out@[m] * 4294967296, a@[m] * b@[m]),
        decreases 256 - n,
    {
        let x: i64 = a.get(n) as i64;
        let y: i64 = b.get(n) as i64;
        assert(a@[n as int] * b@[n as int] == x * y);
        out.set(n, mont_reduce(x * y));
        n = n + 1;
    }
    out
}

}
