//! The ring Z_q[X]/(X^256 + 1) and its number-theoretic transform, as
//! mathematics: evaluation at the roots of X^256 + 1, the butterfly layers that
//! compute it, their inverses, and the convolution theorem.

use vstd::arithmetic::div_mod::*;
use vstd::arithmetic::power::*;
use vstd::prelude::*;

use crate::mldsa::modq;

verus! {

/// The eight low bits of `i` in reverse order.
#[verifier::opaque]
pub open spec fn brv8(i: int) -> int {
    (i % 2) * 128 + ((i / 2) % 2) * 64 + ((i / 4) % 2) * 32 + ((i / 8) % 2) * 16 + ((i / 16) % 2)
        * 8 + ((i / 32) % 2) * 4 + ((i / 64) % 2) * 2 + (i / 128) % 2
}

/// The canonical residue of zeta^e, zeta being 1753.
pub open spec fn zpow(e: nat) -> int {
    modq::res(pow(1753, e))
}

/// Entry `m` of the twiddle table: zeta to the bit-reversal of `m`.
pub open spec fn twiddle(m: int) -> int {
    zpow(brv8(m) as nat)
}

/// The sum of x[t + i * step] * s^i for i below `k`.
pub open spec fn seval(x: Seq<int>, t: int, step: int, s: int, k: nat) -> int
    decreases k,
{
    if k == 0 {
        0
    } else {
        seval(x, t, step, s, (k - 1) as nat) + x[t + (k - 1) * step] * pow(s, (k - 1) as nat)
    }
}

/// The value at `r` of the polynomial with coefficients `x`.
pub open spec fn eval(x: Seq<int>, r: int) -> int {
    seval(x, 0, 1, r, 256)
}

/// The point at which entry `i` of the transform evaluates.
pub open spec fn ntt_point(i: int) -> int {
    zpow((2 * brv8(i) + 1) as nat)
}

/// The number-theoretic transform: entry i is the value of the polynomial at
/// zeta^(2 * brv8(i) + 1), as a canonical residue.
pub open spec fn ntt(x: Seq<int>) -> Seq<int> {
    Seq::new(256, |i: int| modq::res(eval(x, ntt_point(i))))
}

/// One butterfly layer with stride `len`.
pub open spec fn layer_at(x: Seq<int>, len: int, p: int) -> int {
    let m = 128int / len + p / (2 * len);
    if p % (2 * len) < len {
        x[p] + twiddle(m) * x[p + len]
    } else {
        x[p - len] - twiddle(m) * x[p]
    }
}

pub open spec fn layer(x: Seq<int>, len: int) -> Seq<int> {
    Seq::new(256, |p: int| layer_at(x, len, p))
}

/// The butterfly layers with strides `len`, `len / 2`, ..., 1.
pub open spec fn ntt_layers(x: Seq<int>, len: int) -> Seq<int>
    decreases len,
{
    if len < 1 {
        x
    } else {
        ntt_layers(layer(x, len), len / 2)
    }
}

/// One inverse butterfly layer with stride `len`.
pub open spec fn ilayer_at(x: Seq<int>, len: int, p: int) -> int {
    let m = 256int / len - 1 - p / (2 * len);
    if p % (2 * len) < len {
        x[p] + x[p + len]
    } else {
        (-twiddle(m)) * (x[p - len] - x[p])
    }
}

pub open spec fn ilayer(x: Seq<int>, len: int) -> Seq<int> {
    Seq::new(256, |p: int| ilayer_at(x, len, p))
}

/// The inverse butterfly layers with strides `len`, `2 * len`, ..., 128.
pub open spec fn inv_layers(x: Seq<int>, len: int) -> Seq<int>
    decreases (if len < 256 { 256 - len } else { 0 }),
{
    if len < 1 || len >= 256 {
        x
    } else {
        inv_layers(ilayer(x, len), 2 * len)
    }
}

/// The inverse transform, as canonical residues: `lemma_ntt_inv` and
/// `lemma_inv_ntt` say that it is one.
pub open spec fn inv_ntt(a: Seq<int>) -> Seq<int> {
    Seq::new(256, |p: int| modq::res(8347681 * inv_layers(a, 1)[p]))
}

/// The two sequences agree modulo q in all 256 places.
pub open spec fn pcong(x: Seq<int>, y: Seq<int>) -> bool {
    forall|p: int| 0 <= p < 256 ==> modq::cong(#[trigger] x[p], y[p])
}

pub open spec fn scale(x: Seq<int>, c: int) -> Seq<int> {
    Seq::new(256, |p: int| c * x[p])
}

pub open spec fn is_stride(len: int) -> bool {
    len == 1 || len == 2 || len == 4 || len == 8 || len == 16 || len == 32 || len == 64 || len
        == 128
}

pub proof fn lemma_index(len: int, p: int)
    requires
        is_stride(len),
        0 <= p < 256,
    ensures
        256int / len == 2 * (128int / len),
        256int / (2 * len) == 128int / len,
        1 <= 128int / len <= 128,
        0 <= p / (2 * len) < 128int / len,
        p % (2 * len) < len ==> {
            &&& p + len < 256
            &&& p / len == 2 * (p / (2 * len))
            &&& p % len == p % (2 * len)
            &&& (p + len) % (2 * len) == p % (2 * len) + len
            &&& (p + len) / (2 * len) == p / (2 * len)
        },
        p % (2 * len) >= len ==> {
            &&& p - len >= 0
            &&& p / len == 2 * (p / (2 * len)) + 1
            &&& p % len == p % (2 * len) - len
            &&& (p - len) % (2 * len) == p % (2 * len) - len
            &&& (p - len) / (2 * len) == p / (2 * len)
        },
        0 <= p % len < len,
        len > 1 ==> is_stride(len / 2) && 2 * (len / 2) == len,
        len == 1 ==> len / 2 == 0,
        is_stride(2 * len) || 2 * len == 256,
        (2 * len) / 2 == len,
{
    if len == 1 {
        lemma_index_at(p, len, 2, 128);
    } else if len == 2 {
        lemma_index_at(p, len, 4, 64);
    } else if len == 4 {
        lemma_index_at(p, len, 8, 32);
    } else if len == 8 {
        lemma_index_at(p, len, 16, 16);
    } else if len == 16 {
        lemma_index_at(p, len, 32, 8);
    } else if len == 32 {
        lemma_index_at(p, len, 64, 4);
    } else if len == 64 {
        lemma_index_at(p, len, 128, 2);
    } else {
        lemma_index_at(p, len, 256, 1);
    }
}

/// Splitting 256 places into `nb` blocks of `two = 2 * len`.
pub proof fn lemma_index_at(p: int, len: int, two: int, nb: int)
    requires
        len > 0,
        two == 2 * len,
        nb * two == 256,
        0 <= p < 256,
    ensures
        256int / len == 2 * nb,
        256int / two == nb,
        128int / len == nb,
        0 <= p / two < nb,
        0 <= p % len < len,
        p % two < len ==> {
            &&& p + len < 256
            &&& p / len == 2 * (p / two)
            &&& p % len == p % two
            &&& (p + len) % two == p % two + len
            &&& (p + len) / two == p / two
        },
        p % two >= len ==> {
            &&& p - len >= 0
            &&& p / len == 2 * (p / two) + 1
            &&& p % len == p % two - len
            &&& (p - len) % two == p % two - len
            &&& (p - len) / two == p / two
        },
{
    let b = p / two;
    let t = p % two;
    lemma_fundamental_div_mod(p, two);
    assert(0 <= b < nb) by (nonlinear_arith)
        requires
            p == two * b + t,
            0 <= t < two,
            0 <= p < nb * two,
    ;
    assert((2 * nb) * len == 256 && nb * len == 128) by (nonlinear_arith)
        requires
            nb * two == 256,
            two == 2 * len,
    ;
    lemma_fundamental_div_mod_converse(256, len, 2 * nb, 0);
    lemma_fundamental_div_mod_converse(256, two, nb, 0);
    lemma_fundamental_div_mod_converse(128, len, nb, 0);
    if t < len {
        assert(two * b + len + len <= 256) by (nonlinear_arith)
            requires
                b < nb,
                nb * two == 256,
                two == 2 * len,
                len > 0,
        ;
        assert((2 * b) * len + t == p) by (nonlinear_arith)
            requires
                p == two * b + t,
                two == 2 * len,
        ;
        lemma_fundamental_div_mod_converse(p, len, 2 * b, t);
        lemma_fundamental_div_mod_converse(p + len, two, b, t + len);
    } else {
        assert(two * b >= 0) by (nonlinear_arith)
            requires
                b >= 0,
                two > 0,
        ;
        assert((2 * b + 1) * len + (t - len) == p) by (nonlinear_arith)
            requires
                p == two * b + t,
                two == 2 * len,
        ;
        lemma_fundamental_div_mod_converse(p, len, 2 * b + 1, t - len);
        lemma_fundamental_div_mod_converse(p - len, two, b, t - len);
    }
}

/// The bits of a number below 256.
proof fn lemma_bits(m: int) -> (b: (int, int, int, int, int, int, int, int))
    requires
        0 <= m < 256,
    ensures
        m == b.0 + 2 * b.1 + 4 * b.2 + 8 * b.3 + 16 * b.4 + 32 * b.5 + 64 * b.6 + 128 * b.7,
        0 <= b.0 <= 1,
        0 <= b.1 <= 1,
        0 <= b.2 <= 1,
        0 <= b.3 <= 1,
        0 <= b.4 <= 1,
        0 <= b.5 <= 1,
        0 <= b.6 <= 1,
        0 <= b.7 <= 1,
{
    let m1 = m / 2;
    let m2 = m1 / 2;
    let m3 = m2 / 2;
    let m4 = m3 / 2;
    let m5 = m4 / 2;
    let m6 = m5 / 2;
    let m7 = m6 / 2;
    (m % 2, m1 % 2, m2 % 2, m3 % 2, m4 % 2, m5 % 2, m6 % 2, m7)
}

/// `b` is the bit of weight `d` when m = d * (2 * h + b) + r.
proof fn lemma_bit(m: int, d: int, u: int, r: int, h: int, b: int)
    requires
        d > 0,
        m == d * u + r,
        0 <= r < d,
        u == 2 * h + b,
        0 <= b <= 1,
    ensures
        (m / d) % 2 == b,
{
    assert(d * u == u * d) by (nonlinear_arith);
    lemma_fundamental_div_mod_converse(m, d, u, r);
}

/// The bit reversal of a number given by its bits.
proof fn lemma_brv8_of_bits(
    m: int,
    b0: int,
    b1: int,
    b2: int,
    b3: int,
    b4: int,
    b5: int,
    b6: int,
    b7: int,
)
    requires
        m == b0 + 2 * b1 + 4 * b2 + 8 * b3 + 16 * b4 + 32 * b5 + 64 * b6 + 128 * b7,
        0 <= b0 <= 1,
        0 <= b1 <= 1,
        0 <= b2 <= 1,
        0 <= b3 <= 1,
        0 <= b4 <= 1,
        0 <= b5 <= 1,
        0 <= b6 <= 1,
        0 <= b7 <= 1,
    ensures
        brv8(m) == 128 * b0 + 64 * b1 + 32 * b2 + 16 * b3 + 8 * b4 + 4 * b5 + 2 * b6 + b7,
{
    reveal(brv8);
    lemma_bit(m, 1, b0 + 2 * b1 + 4 * b2 + 8 * b3 + 16 * b4 + 32 * b5 + 64 * b6 + 128 * b7, 0, b1 + 2 * b2 + 4 * b3 + 8 * b4 + 16 * b5 + 32 * b6 + 64 * b7, b0);
    lemma_bit(m, 2, b1 + 2 * b2 + 4 * b3 + 8 * b4 + 16 * b5 + 32 * b6 + 64 * b7, b0, b2 + 2 * b3 + 4 * b4 + 8 * b5 + 16 * b6 + 32 * b7, b1);
    lemma_bit(m, 4, b2 + 2 * b3 + 4 * b4 + 8 * b5 + 16 * b6 + 32 * b7, b0 + 2 * b1, b3 + 2 * b4 + 4 * b5 + 8 * b6 + 16 * b7, b2);
    lemma_bit(m, 8, b3 + 2 * b4 + 4 * b5 + 8 * b6 + 16 * b7, b0 + 2 * b1 + 4 * b2, b4 + 2 * b5 + 4 * b6 + 8 * b7, b3);
    lemma_bit(m, 16, b4 + 2 * b5 + 4 * b6 + 8 * b7, b0 + 2 * b1 + 4 * b2 + 8 * b3, b5 + 2 * b6 + 4 * b7, b4);
    lemma_bit(m, 32, b5 + 2 * b6 + 4 * b7, b0 + 2 * b1 + 4 * b2 + 8 * b3 + 16 * b4, b6 + 2 * b7, b5);
    lemma_bit(m, 64, b6 + 2 * b7, b0 + 2 * b1 + 4 * b2 + 8 * b3 + 16 * b4 + 32 * b5, b7, b6);
    lemma_bit(m, 128, b7, b0 + 2 * b1 + 4 * b2 + 8 * b3 + 16 * b4 + 32 * b5 + 64 * b6, 0, b7);
}

pub proof fn lemma_brv8(m: int)
    requires
        0 <= m < 128,
    ensures
        2 * brv8(2 * m) == brv8(m),
        brv8(2 * m + 1) == 128 + brv8(2 * m),
        brv8(m + 128) == brv8(m) + 1,
        0 <= brv8(m) < 256,
        0 <= brv8(2 * m) < 128,
{
    let b = lemma_bits(m);
    lemma_brv8_of_bits(m, b.0, b.1, b.2, b.3, b.4, b.5, b.6, 0);
    lemma_brv8_of_bits(2 * m, 0, b.0, b.1, b.2, b.3, b.4, b.5, b.6);
    lemma_brv8_of_bits(2 * m + 1, 1, b.0, b.1, b.2, b.3, b.4, b.5, b.6);
    lemma_brv8_of_bits(m + 128, b.0, b.1, b.2, b.3, b.4, b.5, b.6, 1);
}

pub proof fn lemma_brv8_range(m: int)
    requires
        0 <= m < 256,
    ensures
        0 <= brv8(m) < 256,
{
    let b = lemma_bits(m);
    lemma_brv8_of_bits(m, b.0, b.1, b.2, b.3, b.4, b.5, b.6, b.7);
}

pub proof fn lemma_zpow_add(a: nat, b: nat)
    ensures
        modq::cong(zpow(a) * zpow(b), zpow(a + b)),
        0 <= zpow(a) < 8380417,
{
    let x = pow(1753, a);
    let y = pow(1753, b);
    lemma_pow_adds(1753, a, b);
    modq::lemma_res_range(x);
    modq::lemma_res_range(y);
    modq::lemma_res_range(x * y);
    modq::lemma_cong_mul(zpow(a), x, zpow(b), y);
}

proof fn lemma_zpow_double(a: nat, v: int, w: int)
    requires
        zpow(a) == v,
        modq::res(v * v) == w,
    ensures
        zpow(a + a) == w,
{
    lemma_zpow_add(a, a);
    modq::lemma_res_range(pow(1753, a + a));
}

/// zeta^256 is -1.
pub proof fn lemma_zeta_256()
    ensures
        zpow(0) == 1,
        zpow(1) == 1753,
        zpow(256) == 8380416,
        modq::cong(zpow(256), -1),
{
    lemma_pow0(1753);
    lemma_pow1(1753);
    assert(zpow(0) == 1 && zpow(1) == 1753) by {
        reveal(modq::res);
    }
    assert(modq::res(1753int * 1753int) == 3073009 && modq::res(3073009int * 3073009int) == 3602218
        && modq::res(3602218int * 3602218int) == 5010068 && modq::res(5010068int * 5010068int) == 7778734
        && modq::res(7778734int * 7778734int) == 5178923 && modq::res(5178923int * 5178923int) == 3765607
        && modq::res(3765607int * 3765607int) == 4808194 && modq::res(4808194int * 4808194int) == 8380416
        && modq::cong(8380416, -1)) by {
        reveal(modq::res);
    }
    lemma_zpow_double(1, 1753, 3073009);
    lemma_zpow_double(2, 3073009, 3602218);
    lemma_zpow_double(4, 3602218, 5010068);
    lemma_zpow_double(8, 5010068, 7778734);
    lemma_zpow_double(16, 7778734, 5178923);
    lemma_zpow_double(32, 5178923, 3765607);
    lemma_zpow_double(64, 3765607, 4808194);
    lemma_zpow_double(128, 4808194, 8380416);
}

/// Adding 256 to the exponent negates.
proof fn lemma_zpow_neg(e: nat)
    ensures
        modq::cong(zpow(e + 256), -zpow(e)),
{
    lemma_zeta_256();
    lemma_zpow_add(e, 256);
    modq::lemma_cong_mul(zpow(e), zpow(e), zpow(256), -1);
    assert(zpow(e) * (-1) == -zpow(e));
}

/// The constant term that block `c` of the decomposition tree works modulo.
spec fn node_root(c: int) -> int {
    if c % 2 == 0 {
        twiddle(c / 2)
    } else {
        -twiddle(c / 2)
    }
}

proof fn lemma_node_square(m: int)
    requires
        1 <= m < 256,
    ensures
        modq::cong(twiddle(m) * twiddle(m), node_root(m)),
{
    let h = m / 2;
    lemma_brv8(h);
    let e = brv8(m) as nat;
    lemma_brv8_range(m);
    lemma_zpow_add(e, e);
    if m % 2 == 0 {
        assert(m == 2 * h);
        assert(e + e == brv8(h));
    } else {
        assert(m == 2 * h + 1);
        assert(e + e == brv8(h) + 256);
        lemma_zpow_neg(brv8(h) as nat);
    }
}

proof fn lemma_leaf_root(i: int)
    requires
        0 <= i < 256,
    ensures
        modq::cong(node_root(256 + i), ntt_point(i)),
{
    let j = i / 2;
    lemma_brv8(j);
    assert((256 + i) / 2 == j + 128);
    if i % 2 == 0 {
        assert(i == 2 * j);
        assert(2 * brv8(i) + 1 == brv8(j + 128));
    } else {
        assert(i == 2 * j + 1);
        assert(2 * brv8(i) + 1 == brv8(j + 128) + 256);
        lemma_zpow_neg(brv8(j + 128) as nat);
    }
}

proof fn lemma_pow_sq(s: int, k: nat)
    ensures
        pow(s * s, k) == pow(s, 2 * k),
    decreases k,
{
    reveal(pow);
    if k > 0 {
        lemma_pow_sq(s, (k - 1) as nat);
        let a = pow(s, (2 * k - 2) as nat);
        assert(pow(s, (2 * k - 1) as nat) == s * a);
        assert(pow(s, 2 * k) == s * (s * a));
        assert((s * s) * a == s * (s * a)) by (nonlinear_arith);
    }
}

/// Even and odd places of a strided sum.
proof fn lemma_seval_split(x: Seq<int>, t: int, len: int, s: int, k: nat)
    ensures
        seval(x, t, len, s, 2 * k) == seval(x, t, 2 * len, s * s, k) + s * seval(
            x,
            t + len,
            2 * len,
            s * s,
            k,
        ),
    decreases k,
{
    if k > 0 {
        let j = (k - 1) as nat;
        lemma_seval_split(x, t, len, s, j);
        lemma_pow_sq(s, j);
        reveal(pow);
        let a = pow(s, 2 * j);
        assert(pow(s, (2 * j + 1) as nat) == s * a);
        let u = x[t + (2 * j) * len];
        let v = x[t + (2 * j + 1) * len];
        assert(t + j * (2 * len) == t + (2 * j) * len) by (nonlinear_arith);
        assert((t + len) + j * (2 * len) == t + (2 * j + 1) * len) by (nonlinear_arith);
        assert(seval(x, t, len, s, (2 * j + 1) as nat) == seval(x, t, len, s, 2 * j) + u * a);
        assert(seval(x, t, len, s, 2 * k) == seval(x, t, len, s, (2 * j + 1) as nat) + v * (s * a));
        let e = seval(x, t, 2 * len, s * s, j);
        let o = seval(x, t + len, 2 * len, s * s, j);
        assert(seval(x, t, 2 * len, s * s, k) == e + u * a);
        assert(seval(x, t + len, 2 * len, s * s, k) == o + v * a);
        assert((e + s * o) + u * a + v * (s * a) == (e + u * a) + s * (o + v * a))
            by (nonlinear_arith);
    } else {
        assert(s * 0 == 0);
    }
}

proof fn lemma_seval_cong(x: Seq<int>, t: int, step: int, r: int, s: int, k: nat)
    requires
        modq::cong(r, s),
    ensures
        modq::cong(seval(x, t, step, r, k), seval(x, t, step, s, k)),
    decreases k,
{
    if k > 0 {
        let j = (k - 1) as nat;
        lemma_seval_cong(x, t, step, r, s, j);
        modq::lemma_cong_pow(r, s, j);
        let c = x[t + j * step];
        modq::lemma_cong_mul(c, c, pow(r, j), pow(s, j));
        modq::lemma_cong_add(
            seval(x, t, step, r, j),
            seval(x, t, step, s, j),
            c * pow(r, j),
            c * pow(s, j),
        );
    }
}

/// Place `p` after the layers down to block size `len`: a coefficient of the
/// polynomial reduced modulo X^len - node_root.
spec fn level_at(x: Seq<int>, len: int, p: int) -> int {
    seval(x, p % len, len, node_root(256int / len + p / len), (256int / len) as nat)
}

spec fn level(x: Seq<int>, len: int) -> Seq<int> {
    Seq::new(256, |p: int| level_at(x, len, p))
}

proof fn lemma_level_step(x: Seq<int>, len: int, p: int)
    requires
        is_stride(len),
        0 <= p < 256,
    ensures
        modq::cong(level_at(x, len, p), layer_at(level(x, 2 * len), len, p)),
{
    lemma_index(len, p);
    let y = level(x, 2 * len);
    let b = p / (2 * len);
    let m = 128int / len + b;
    let k = (128int / len) as nat;
    let w = twiddle(m);
    lemma_node_square(m);
    if p % (2 * len) < len {
        lemma_index(len, p + len);
        let t = p % len;
        assert((2 * m) / 2 == m && (2 * m) % 2 == 0);
        assert(node_root(256int / len + p / len) == w);
        lemma_seval_split(x, t, len, w, k);
        lemma_seval_cong(x, t, 2 * len, w * w, node_root(m), k);
        lemma_seval_cong(x, t + len, 2 * len, w * w, node_root(m), k);
        assert(y[p] == seval(x, t, 2 * len, node_root(m), k));
        assert(y[p + len] == seval(x, t + len, 2 * len, node_root(m), k));
        let o = seval(x, t + len, 2 * len, w * w, k);
        modq::lemma_cong_mul(w, w, o, y[p + len]);
        modq::lemma_cong_add(seval(x, t, 2 * len, w * w, k), y[p], w * o, w * y[p + len]);
    } else {
        lemma_index(len, p - len);
        let t = p % len;
        assert((2 * m + 1) / 2 == m && (2 * m + 1) % 2 == 1);
        assert(node_root(256int / len + p / len) == -w);
        lemma_seval_split(x, t, len, -w, k);
        assert((-w) * (-w) == w * w) by (nonlinear_arith);
        lemma_seval_cong(x, t, 2 * len, w * w, node_root(m), k);
        lemma_seval_cong(x, t + len, 2 * len, w * w, node_root(m), k);
        assert(y[p - len] == seval(x, t, 2 * len, node_root(m), k));
        assert(y[p] == seval(x, t + len, 2 * len, node_root(m), k));
        let o = seval(x, t + len, 2 * len, w * w, k);
        modq::lemma_cong_mul(w, w, o, y[p]);
        assert((-w) * o == -(w * o)) by (nonlinear_arith);
        modq::lemma_cong_sub(seval(x, t, 2 * len, w * w, k), y[p - len], w * o, w * y[p]);
    }
}

proof fn lemma_layer_cong(x: Seq<int>, y: Seq<int>, len: int)
    requires
        is_stride(len),
        pcong(x, y),
    ensures
        pcong(layer(x, len), layer(y, len)),
{
    assert forall|p: int| 0 <= p < 256 implies modq::cong(
        #[trigger] layer(x, len)[p],
        layer(y, len)[p],
    ) by {
        lemma_index(len, p);
        let w = twiddle(128int / len + p / (2 * len));
        if p % (2 * len) < len {
            modq::lemma_cong_mul(w, w, x[p + len], y[p + len]);
            modq::lemma_cong_add(x[p], y[p], w * x[p + len], w * y[p + len]);
        } else {
            modq::lemma_cong_mul(w, w, x[p], y[p]);
            modq::lemma_cong_sub(x[p - len], y[p - len], w * x[p], w * y[p]);
        }
    }
}

pub proof fn lemma_layers_cong(x: Seq<int>, y: Seq<int>, len: int)
    requires
        is_stride(len) || len == 0,
        pcong(x, y),
    ensures
        pcong(ntt_layers(x, len), ntt_layers(y, len)),
    decreases len,
{
    if len >= 1 {
        lemma_index(len, 0);
        lemma_layer_cong(x, y, len);
        lemma_layers_cong(layer(x, len), layer(y, len), len / 2);
    }
}

proof fn lemma_layers_level(x: Seq<int>, y: Seq<int>, len: int)
    requires
        is_stride(len) || len == 0,
        len > 0 ==> pcong(y, level(x, 2 * len)),
        len == 0 ==> pcong(y, level(x, 1)),
    ensures
        pcong(ntt_layers(y, len), level(x, 1)),
    decreases len,
{
    if len >= 1 {
        lemma_index(len, 0);
        lemma_layer_cong(y, level(x, 2 * len), len);
        assert forall|p: int| 0 <= p < 256 implies modq::cong(
            #[trigger] layer(y, len)[p],
            level(x, len)[p],
        ) by {
            lemma_level_step(x, len, p);
            assert(layer(level(x, 2 * len), len)[p] == layer_at(level(x, 2 * len), len, p));
        }
        lemma_layers_level(x, layer(y, len), len / 2);
    }
}

/// The eight butterfly layers evaluate the polynomial at the 256 roots.
pub proof fn lemma_layers_ntt(x: Seq<int>)
    requires
        x.len() == 256,
    ensures
        pcong(ntt_layers(x, 128), ntt(x)),
{
    assert forall|p: int| 0 <= p < 256 implies modq::cong(#[trigger] x[p], level(x, 256)[p]) by {
        reveal_with_fuel(seval, 2);
        lemma_pow0(node_root(1 + p / 256));
        assert(p % 256 == p && p / 256 == 0);
        assert(level_at(x, 256, p) == x[p]);
    }
    lemma_layers_level(x, x, 128);
    assert forall|p: int| 0 <= p < 256 implies modq::cong(
        #[trigger] ntt_layers(x, 128)[p],
        ntt(x)[p],
    ) by {
        lemma_leaf_root(p);
        lemma_seval_cong(x, 0, 1, node_root(256 + p), ntt_point(p), 256);
        assert(p % 1 == 0 && p / 1 == p);
        assert(level(x, 1)[p] == seval(x, 0, 1, node_root(256 + p), 256));
        modq::lemma_res_range(eval(x, ntt_point(p)));
    }
}

/// Mirrored nodes of one layer have twiddles whose product is -1.
proof fn lemma_mirror(m: int, w: int, nb: int)
    requires
        is_stride(nb),
        nb <= m < 2 * nb,
        m + w == 3 * nb - 1,
    ensures
        brv8(m) + brv8(w) == 256,
    decreases nb,
{
    if nb > 1 {
        lemma_index(nb, 0);
        let a = m / 2;
        let b = w / 2;
        lemma_brv8(a);
        lemma_brv8(b);
        lemma_mirror(a, b, nb / 2);
        if m % 2 == 0 {
            assert(m == 2 * a && w == 2 * b + 1);
        } else {
            assert(m == 2 * a + 1 && w == 2 * b);
        }
    } else {
        assert(m == 1 && w == 1);
        lemma_brv8_of_bits(1, 1, 0, 0, 0, 0, 0, 0, 0);
    }
}

proof fn lemma_twiddle_mirror(len: int, p: int)
    requires
        is_stride(len),
        0 <= p < 256,
    ensures
        modq::cong(
            twiddle(128int / len + p / (2 * len)) * (-twiddle(256int / len - 1 - p / (2 * len))),
            1,
        ),
{
    lemma_index(len, p);
    let nb = 128int / len;
    let b = p / (2 * len);
    let m = nb + b;
    let w = 256int / len - 1 - b;
    assert(is_stride(nb)) by {
        if len == 1 {
        } else if len == 2 {
        } else if len == 4 {
        } else if len == 8 {
        } else if len == 16 {
        } else if len == 32 {
        } else if len == 64 {
        } else {
        }
    }
    lemma_mirror(m, w, nb);
    lemma_brv8_range(m);
    lemma_brv8_range(w);
    lemma_zpow_add(brv8(m) as nat, brv8(w) as nat);
    lemma_zeta_256();
    let a = twiddle(m);
    let c = twiddle(w);
    modq::lemma_cong_sub(0, 0, a * c, -1);
    assert(a * (-c) == 0 - a * c) by (nonlinear_arith);
}

/// A layer undoes the inverse layer up to a factor 2, and the other way round.
proof fn lemma_layer_inverse(x: Seq<int>, len: int)
    requires
        is_stride(len),
    ensures
        pcong(layer(ilayer(x, len), len), scale(x, 2)),
        pcong(ilayer(layer(x, len), len), scale(x, 2)),
{
    assert forall|p: int| 0 <= p < 256 implies modq::cong(
        #[trigger] layer(ilayer(x, len), len)[p],
        scale(x, 2)[p],
    ) by {
        lemma_index(len, p);
        lemma_twiddle_mirror(len, p);
        let w = twiddle(128int / len + p / (2 * len));
        let v = -twiddle(256int / len - 1 - p / (2 * len));
        if p % (2 * len) < len {
            lemma_index(len, p + len);
            let d = x[p] - x[p + len];
            assert(ilayer(x, len)[p + len] == v * d);
            modq::lemma_cong_mul(w * v, 1, d, d);
            assert(w * (v * d) == (w * v) * d) by (nonlinear_arith);
            let s = x[p] + x[p + len];
            modq::lemma_cong_add(s, s, w * (v * d), d);
        } else {
            lemma_index(len, p - len);
            let d = x[p - len] - x[p];
            assert(ilayer(x, len)[p] == v * d);
            modq::lemma_cong_mul(w * v, 1, d, d);
            assert(w * (v * d) == (w * v) * d) by (nonlinear_arith);
            let s = x[p - len] + x[p];
            modq::lemma_cong_sub(s, s, w * (v * d), d);
        }
    }
    assert forall|p: int| 0 <= p < 256 implies modq::cong(
        #[trigger] ilayer(layer(x, len), len)[p],
        scale(x, 2)[p],
    ) by {
        lemma_index(len, p);
        lemma_twiddle_mirror(len, p);
        let w = twiddle(128int / len + p / (2 * len));
        let v = -twiddle(256int / len - 1 - p / (2 * len));
        if p % (2 * len) < len {
            lemma_index(len, p + len);
        } else {
            lemma_index(len, p - len);
            let b = 2 * x[p];
            let y = layer(x, len);
            assert(y[p - len] - y[p] == 2 * (w * x[p]));
            assert(v * (2 * (w * x[p])) == (w * v) * (2 * x[p])) by (nonlinear_arith);
            modq::lemma_cong_mul(w * v, 1, b, b);
        }
    }
}

proof fn lemma_ilayer_cong(x: Seq<int>, y: Seq<int>, len: int)
    requires
        is_stride(len),
        pcong(x, y),
    ensures
        pcong(ilayer(x, len), ilayer(y, len)),
{
    assert forall|p: int| 0 <= p < 256 implies modq::cong(
        #[trigger] ilayer(x, len)[p],
        ilayer(y, len)[p],
    ) by {
        lemma_index(len, p);
        let v = -twiddle(256int / len - 1 - p / (2 * len));
        if p % (2 * len) < len {
            modq::lemma_cong_add(x[p], y[p], x[p + len], y[p + len]);
        } else {
            modq::lemma_cong_sub(x[p - len], y[p - len], x[p], y[p]);
            modq::lemma_cong_mul(v, v, x[p - len] - x[p], y[p - len] - y[p]);
        }
    }
}

/// Congruent inputs give congruent inverse layers.
pub proof fn lemma_inv_layers_cong(x: Seq<int>, y: Seq<int>, len: int)
    requires
        is_stride(len) || len == 256,
        pcong(x, y),
    ensures
        pcong(inv_layers(x, len), inv_layers(y, len)),
    decreases 256 - len,
{
    if len < 256 {
        lemma_ilayer_cong(x, y, len);
        lemma_inv_layers_cong(ilayer(x, len), ilayer(y, len), 2 * len);
    }
}

proof fn lemma_layers_scale(x: Seq<int>, c: int, len: int)
    requires
        is_stride(len) || len == 0,
        x.len() == 256,
    ensures
        ntt_layers(scale(x, c), len) == scale(ntt_layers(x, len), c),
        ntt_layers(x, len).len() == 256,
    decreases len,
{
    if len >= 1 {
        lemma_index(len, 0);
        assert(layer(scale(x, c), len) =~= scale(layer(x, len), c)) by {
            assert forall|p: int| 0 <= p < 256 implies layer(scale(x, c), len)[p] == scale(
                layer(x, len),
                c,
            )[p] by {
                lemma_index(len, p);
                let w = twiddle(128int / len + p / (2 * len));
                if p % (2 * len) < len {
                    let a = x[p];
                    let b = x[p + len];
                    assert(c * a + w * (c * b) == c * (a + w * b)) by (nonlinear_arith);
                } else {
                    let a = x[p - len];
                    let b = x[p];
                    assert(c * a - w * (c * b) == c * (a - w * b)) by (nonlinear_arith);
                }
            }
        }
        lemma_layers_scale(layer(x, len), c, len / 2);
    }
}

proof fn lemma_inv_layers_scale(x: Seq<int>, c: int, len: int)
    requires
        is_stride(len) || len == 256,
        x.len() == 256,
    ensures
        inv_layers(scale(x, c), len) == scale(inv_layers(x, len), c),
        inv_layers(x, len).len() == 256,
    decreases 256 - len,
{
    if len < 256 {
        assert(ilayer(scale(x, c), len) =~= scale(ilayer(x, len), c)) by {
            assert forall|p: int| 0 <= p < 256 implies ilayer(scale(x, c), len)[p] == scale(
                ilayer(x, len),
                c,
            )[p] by {
                lemma_index(len, p);
                let v = -twiddle(256int / len - 1 - p / (2 * len));
                if p % (2 * len) < len {
                    let a = x[p];
                    let b = x[p + len];
                    assert(c * a + c * b == c * (a + b)) by (nonlinear_arith);
                } else {
                    let a = x[p - len];
                    let b = x[p];
                    assert(v * (c * a - c * b) == c * (v * (a - b))) by (nonlinear_arith);
                }
            }
        }
        lemma_inv_layers_scale(ilayer(x, len), c, 2 * len);
    }
}

proof fn lemma_pcong_scale(x: Seq<int>, y: Seq<int>, c: int)
    requires
        pcong(x, y),
    ensures
        pcong(scale(x, c), scale(y, c)),
{
    assert forall|p: int| 0 <= p < 256 implies modq::cong(
        #[trigger] scale(x, c)[p],
        scale(y, c)[p],
    ) by {
        modq::lemma_cong_mul(c, c, x[p], y[p]);
    }
}

pub proof fn lemma_pcong_trans(x: Seq<int>, y: Seq<int>, z: Seq<int>)
    requires
        pcong(x, y),
        pcong(y, z),
    ensures
        pcong(x, z),
{
    assert forall|p: int| 0 <= p < 256 implies modq::cong(#[trigger] x[p], z[p]) by {
        assert(modq::cong(x[p], y[p]) && modq::cong(y[p], z[p]));
    }
}

proof fn lemma_scale_scale(x: Seq<int>, c: int, d: int)
    ensures
        scale(scale(x, c), d) == scale(x, d * c),
{
    assert forall|p: int| 0 <= p < 256 implies scale(scale(x, c), d)[p] == scale(x, d * c)[p] by {
        let a = x[p];
        assert(d * (c * a) == (d * c) * a) by (nonlinear_arith);
    }
    assert(scale(scale(x, c), d) =~= scale(x, d * c));
}

proof fn lemma_forward_of_inverse(y: Seq<int>, len: int)
    requires
        is_stride(len) || len == 256,
        y.len() == 256,
    ensures
        pcong(ntt_layers(inv_layers(y, len), 128), scale(ntt_layers(y, len / 2), 256int / len)),
    decreases 256 - len,
{
    if len < 256 {
        lemma_index(len, 0);
        let z = ilayer(y, len);
        lemma_forward_of_inverse(z, 2 * len);
        let c = 128int / len;
        assert(pcong(ntt_layers(inv_layers(z, 2 * len), 128), scale(ntt_layers(z, len), c)));
        assert(ntt_layers(z, len) == ntt_layers(layer(z, len), len / 2));
        lemma_layer_inverse(y, len);
        lemma_layers_cong(layer(z, len), scale(y, 2), len / 2);
        lemma_layers_scale(y, 2, len / 2);
        let w = ntt_layers(y, len / 2);
        assert(pcong(ntt_layers(z, len), scale(w, 2)));
        lemma_pcong_scale(ntt_layers(z, len), scale(w, 2), c);
        lemma_scale_scale(w, 2, c);
        assert(inv_layers(y, len) == inv_layers(z, 2 * len));
        assert(c * 2 == 256int / len);
        assert(pcong(scale(ntt_layers(z, len), c), scale(w, 256int / len)));
        lemma_pcong_trans(
            ntt_layers(inv_layers(y, len), 128),
            scale(ntt_layers(z, len), c),
            scale(w, 256int / len),
        );
    } else {
        assert(scale(ntt_layers(y, 128), 1) =~= ntt_layers(y, 128)) by {
            lemma_layers_scale(y, 1, 128);
        }
    }
}

proof fn lemma_inverse_of_forward(x: Seq<int>, len: int)
    requires
        is_stride(len) || len == 256,
        x.len() == 256,
    ensures
        pcong(inv_layers(ntt_layers(x, len / 2), 1), scale(inv_layers(x, len), len)),
    decreases len,
{
    if len > 1 {
        let h = len / 2;
        assert(is_stride(h) && 2 * h == len) by {
            if len < 256 {
                lemma_index(len, 0);
            }
        }
        let y = layer(x, h);
        lemma_inverse_of_forward(y, h);
        lemma_layer_inverse(x, h);
        lemma_inv_layers_cong(ilayer(y, h), scale(x, 2), len);
        lemma_inv_layers_scale(x, 2, len);
        lemma_pcong_scale(inv_layers(y, h), scale(inv_layers(x, len), 2), h);
        lemma_scale_scale(inv_layers(x, len), 2, h);
    } else {
        lemma_inv_layers_scale(x, 1, 1);
        assert(scale(inv_layers(x, 1), 1) =~= inv_layers(x, 1));
    }
}

/// The transform of the inverse transform gives back the sequence, modulo q.
pub proof fn lemma_ntt_inv(a: Seq<int>)
    requires
        a.len() == 256,
    ensures
        pcong(ntt(inv_ntt(a)), a),
{
    let f: int = 8347681;
    let u = inv_layers(a, 1);
    lemma_inv_layers_scale(a, f, 1);
    let v = scale(u, f);
    assert(pcong(inv_ntt(a), v)) by {
        assert forall|p: int| 0 <= p < 256 implies modq::cong(#[trigger] inv_ntt(a)[p], v[p]) by {
            modq::lemma_res_range(f * u[p]);
        }
    }
    lemma_layers_ntt(inv_ntt(a));
    lemma_layers_cong(inv_ntt(a), v, 128);
    lemma_layers_scale(u, f, 128);
    lemma_forward_of_inverse(a, 1);
    assert(pcong(ntt_layers(u, 128), scale(a, 256)));
    lemma_pcong_scale(ntt_layers(u, 128), scale(a, 256), f);
    lemma_scale_scale(a, 256, f);
    assert forall|p: int| 0 <= p < 256 implies modq::cong(#[trigger] ntt(inv_ntt(a))[p], a[p]) by {
        assert(modq::cong(ntt_layers(inv_ntt(a), 128)[p], scale(a, f * 256)[p]));
        assert(modq::cong(f * 256, 1)) by {
            reveal(modq::res);
        }
        modq::lemma_cong_mul(f * 256, 1, a[p], a[p]);
    }
}

/// The inverse transform of the transform gives back the polynomial, modulo q.
pub proof fn lemma_inv_ntt(x: Seq<int>)
    requires
        x.len() == 256,
    ensures
        pcong(inv_ntt(ntt(x)), x),
{
    let f: int = 8347681;
    lemma_layers_ntt(x);
    lemma_inv_layers_cong(ntt_layers(x, 128), ntt(x), 1);
    lemma_inverse_of_forward(x, 256);
    assert(inv_layers(x, 256) == x);
    assert forall|p: int| 0 <= p < 256 implies modq::cong(
        #[trigger] inv_layers(ntt(x), 1)[p],
        scale(x, 256)[p],
    ) by {
        assert(modq::cong(inv_layers(ntt_layers(x, 128), 1)[p], scale(x, 256)[p]));
    }
    assert forall|p: int| 0 <= p < 256 implies modq::cong(#[trigger] inv_ntt(ntt(x))[p], x[p]) by {
        let u = inv_layers(ntt(x), 1)[p];
        modq::lemma_res_range(f * u);
        assert(modq::cong(u, scale(x, 256)[p]));
        modq::lemma_cong_mul(f, f, u, 256 * x[p]);
        assert(modq::cong(f * 256, 1)) by {
            reveal(modq::res);
        }
        modq::lemma_cong_mul(f * 256, 1, x[p], x[p]);
        assert(f * (256 * x[p]) == (f * 256) * x[p]);
    }
}

/// Coefficient `j` of X^i times the polynomial `b`, modulo X^256 + 1.
pub open spec fn rot(b: Seq<int>, i: int, j: int) -> int {
    if j >= i {
        b[j - i]
    } else {
        -b[256 + j - i]
    }
}

/// Coefficient `j` of the product of `b` with the first `n` terms of `a`.
pub open spec fn conv(a: Seq<int>, b: Seq<int>, n: nat, j: int) -> int
    decreases n,
{
    if n == 0 {
        0
    } else {
        conv(a, b, (n - 1) as nat, j) + a[n - 1] * rot(b, n - 1, j)
    }
}

/// The product of two polynomials modulo X^256 + 1.
pub open spec fn ring_mul(a: Seq<int>, b: Seq<int>) -> Seq<int> {
    Seq::new(256, |j: int| conv(a, b, 256, j))
}

/// The entrywise product, as canonical residues.
pub open spec fn pointwise(a: Seq<int>, b: Seq<int>) -> Seq<int> {
    Seq::new(256, |n: int| modq::res(a[n] * b[n]))
}

spec fn rotated(b: Seq<int>, i: int) -> Seq<int> {
    Seq::new(256, |j: int| rot(b, i, j))
}

spec fn conv_seq(a: Seq<int>, b: Seq<int>, n: nat) -> Seq<int> {
    Seq::new(256, |j: int| conv(a, b, n, j))
}

/// Evaluation is linear in the coefficients.
pub proof fn lemma_seval_linear(w: Seq<int>, u: Seq<int>, c: int, v: Seq<int>, r: int, k: nat)
    requires
        k <= 256,
        forall|p: int| 0 <= p < 256 ==> #[trigger] w[p] == u[p] + c * v[p],
    ensures
        seval(w, 0, 1, r, k) == seval(u, 0, 1, r, k) + c * seval(v, 0, 1, r, k),
    decreases k,
{
    if k > 0 {
        let i = (k - 1) as nat;
        lemma_seval_linear(w, u, c, v, r, i);
        let e = pow(r, i);
        assert(w[i as int] == u[i as int] + c * v[i as int]);
        let a = u[i as int];
        let b = v[i as int];
        let su = seval(u, 0, 1, r, i);
        let sv = seval(v, 0, 1, r, i);
        assert(su + c * sv + (a + c * b) * e == su + a * e + c * (sv + b * e))
            by (nonlinear_arith);
    } else {
        assert(c * 0 == 0);
    }
}

proof fn lemma_seval_shift(y: Seq<int>, r: int, k: nat)
    requires
        1 <= k <= 256,
    ensures
        seval(rotated(y, 1), 0, 1, r, k) == -y[255] + r * seval(y, 0, 1, r, (k - 1) as nat),
    decreases k,
{
    reveal(pow);
    let z = rotated(y, 1);
    if k == 1 {
        reveal_with_fuel(seval, 2);
        assert(z[0] == -y[255]);
        assert(r * 0 == 0);
    } else {
        let i = (k - 1) as nat;
        let h = (k - 2) as nat;
        lemma_seval_shift(y, r, i);
        assert(z[i as int] == y[h as int]);
        let e = pow(r, h);
        assert(pow(r, i) == r * e);
        let c = y[h as int];
        let s = seval(y, 0, 1, r, h);
        assert(seval(y, 0, 1, r, i) == s + c * e);
        assert(-y[255] + r * s + c * (r * e) == -y[255] + r * (s + c * e)) by (nonlinear_arith);
    }
}

proof fn lemma_eval_shift(y: Seq<int>, r: int)
    requires
        modq::cong(pow(r, 256), -1),
    ensures
        modq::cong(eval(rotated(y, 1), r), r * eval(y, r)),
{
    lemma_seval_shift(y, r, 256);
    reveal(pow);
    let e = pow(r, 255);
    let c = y[255];
    let s = seval(y, 0, 1, r, 255);
    assert(pow(r, 256) == r * e);
    assert(eval(y, r) == s + c * e);
    assert(r * (s + c * e) == r * s + c * (r * e)) by (nonlinear_arith);
    modq::lemma_cong_mul(c, c, r * e, -1);
    assert(c * (-1) == -c);
    modq::lemma_cong_add(r * s, r * s, c * (r * e), -c);
}

proof fn lemma_eval_rot(b: Seq<int>, r: int, i: nat)
    requires
        b.len() == 256,
        i < 256,
        modq::cong(pow(r, 256), -1),
    ensures
        modq::cong(eval(rotated(b, i as int), r), pow(r, i) * eval(b, r)),
    decreases i,
{
    reveal(pow);
    if i == 0 {
        assert(rotated(b, 0) =~= b);
    } else {
        let h = (i - 1) as nat;
        let y = rotated(b, h as int);
        lemma_eval_rot(b, r, h);
        assert(rotated(b, i as int) =~= rotated(y, 1)) by {
            assert forall|j: int| 0 <= j < 256 implies rotated(b, i as int)[j] == rotated(y, 1)[j] by {
                if j >= 1 {
                    assert(y[j - 1] == rot(b, h as int, j - 1));
                } else {
                    assert(y[255] == rot(b, h as int, 255));
                }
            }
        }
        lemma_eval_shift(y, r);
        let e = pow(r, h);
        let v = eval(b, r);
        modq::lemma_cong_mul(r, r, eval(y, r), e * v);
        assert(r * (e * v) == (r * e) * v) by (nonlinear_arith);
    }
}

proof fn lemma_eval_conv(a: Seq<int>, b: Seq<int>, r: int, n: nat)
    requires
        b.len() == 256,
        n <= 256,
        modq::cong(pow(r, 256), -1),
    ensures
        modq::cong(eval(conv_seq(a, b, n), r), seval(a, 0, 1, r, n) * eval(b, r)),
    decreases n,
{
    let v = eval(b, r);
    if n == 0 {
        let z = conv_seq(a, b, 0);
        assert(z =~= scale(z, 0));
        lemma_seval_linear(z, z, 1, z, r, 256);
        assert(0 * v == 0);
    } else {
        let h = (n - 1) as nat;
        lemma_eval_conv(a, b, r, h);
        lemma_eval_rot(b, r, h);
        let c = a[h as int];
        let w = conv_seq(a, b, n);
        let u = conv_seq(a, b, h);
        let t = rotated(b, h as int);
        assert forall|p: int| 0 <= p < 256 implies #[trigger] w[p] == u[p] + c * t[p] by {
            assert(t[p] == rot(b, h as int, p));
        }
        lemma_seval_linear(w, u, c, t, r, 256);
        let e = pow(r, h);
        modq::lemma_cong_mul(c, c, eval(t, r), e * v);
        let sa = seval(a, 0, 1, r, h);
        modq::lemma_cong_add(eval(u, r), sa * v, c * eval(t, r), c * (e * v));
        assert(sa * v + c * (e * v) == (sa + c * e) * v) by (nonlinear_arith);
    }
}

proof fn lemma_pow_neg1(k: nat)
    ensures
        pow(-1, (2 * k + 1) as nat) == -1,
    decreases k,
{
    reveal_with_fuel(pow, 3);
    if k > 0 {
        lemma_pow_neg1((k - 1) as nat);
    }
}

/// Every evaluation point is a root of X^256 + 1.
pub proof fn lemma_point_root(i: int)
    requires
        0 <= i < 256,
    ensures
        modq::cong(pow(ntt_point(i), 256), -1),
{
    lemma_brv8_range(i);
    let k = brv8(i) as nat;
    let e = (2 * k + 1) as nat;
    modq::lemma_res_range(pow(1753, e));
    modq::lemma_cong_pow(ntt_point(i), pow(1753, e), 256);
    lemma_pow_multiplies(1753, e, 256);
    lemma_pow_multiplies(1753, 256, e);
    assert(e * 256 == 256 * e);
    lemma_zeta_256();
    modq::lemma_res_range(pow(1753, 256));
    modq::lemma_cong_pow(pow(1753, 256), -1, e);
    lemma_pow_neg1(k);
}

/// The convolution theorem: the transform turns the ring product into the
/// entrywise product.
pub proof fn lemma_ntt_mul(a: Seq<int>, b: Seq<int>)
    requires
        a.len() == 256,
        b.len() == 256,
    ensures
        ntt(ring_mul(a, b)) == pointwise(ntt(a), ntt(b)),
{
    assert forall|i: int| 0 <= i < 256 implies ntt(ring_mul(a, b))[i] == pointwise(ntt(a), ntt(b))[i] by {
        let r = ntt_point(i);
        lemma_point_root(i);
        lemma_eval_conv(a, b, r, 256);
        assert(conv_seq(a, b, 256) =~= ring_mul(a, b));
        modq::lemma_res_range(eval(a, r));
        modq::lemma_res_range(eval(b, r));
        modq::lemma_cong_mul(ntt(a)[i], eval(a, r), ntt(b)[i], eval(b, r));
    }
    assert(ntt(ring_mul(a, b)) =~= pointwise(ntt(a), ntt(b)));
}

/// The transform is linear.
pub proof fn lemma_ntt_linear(w: Seq<int>, u: Seq<int>, c: int, v: Seq<int>)
    requires
        forall|p: int| 0 <= p < 256 ==> #[trigger] w[p] == u[p] + c * v[p],
    ensures
        forall|i: int|
            0 <= i < 256 ==> modq::cong(#[trigger] ntt(w)[i], ntt(u)[i] + c * ntt(v)[i]),
{
    assert forall|i: int| 0 <= i < 256 implies modq::cong(
        #[trigger] ntt(w)[i],
        ntt(u)[i] + c * ntt(v)[i],
    ) by {
        let r = ntt_point(i);
        lemma_seval_linear(w, u, c, v, r, 256);
        modq::lemma_res_range(eval(w, r));
        modq::lemma_res_range(eval(u, r));
        modq::lemma_res_range(eval(v, r));
        modq::lemma_cong_mul(c, c, ntt(v)[i], eval(v, r));
        modq::lemma_cong_add(ntt(u)[i], eval(u, r), c * ntt(v)[i], c * eval(v, r));
    }
}

/// Congruent polynomials have the same transform.
pub proof fn lemma_ntt_cong(x: Seq<int>, y: Seq<int>)
    requires
        x.len() == 256,
        y.len() == 256,
        pcong(x, y),
    ensures
        ntt(x) == ntt(y),
{
    lemma_layers_ntt(x);
    lemma_layers_ntt(y);
    lemma_layers_cong(x, y, 128);
    assert forall|i: int| 0 <= i < 256 implies ntt(x)[i] == ntt(y)[i] by {
        assert(modq::cong(ntt_layers(x, 128)[i], ntt(x)[i]));
        assert(modq::cong(ntt_layers(y, 128)[i], ntt(y)[i]));
        assert(modq::cong(ntt_layers(x, 128)[i], ntt_layers(y, 128)[i]));
        modq::lemma_res_range(eval(x, ntt_point(i)));
        modq::lemma_res_range(eval(y, ntt_point(i)));
    }
    assert(ntt(x) =~= ntt(y));
}

/// A polynomial is determined modulo q by its transform.
pub proof fn lemma_inv_unique(x: Seq<int>, a: Seq<int>)
    requires
        x.len() == 256,
        a.len() == 256,
        pcong(ntt(x), a),
    ensures
        pcong(inv_ntt(a), x),
{
    lemma_inv_layers_cong(ntt(x), a, 1);
    lemma_inv_ntt(x);
    assert forall|p: int| 0 <= p < 256 implies modq::cong(#[trigger] inv_ntt(a)[p], x[p]) by {
        let u = inv_layers(ntt(x), 1)[p];
        let w = inv_layers(a, 1)[p];
        modq::lemma_cong_mul(8347681, 8347681, u, w);
        modq::lemma_res_range(8347681 * u);
        modq::lemma_res_range(8347681 * w);
        assert(modq::cong(inv_ntt(ntt(x))[p], x[p]));
    }
}

/// The sum of the magnitudes of the first `n` coefficients.
pub open spec fn l1(a: Seq<int>, n: nat) -> int
    decreases n,
{
    if n == 0 {
        0
    } else {
        l1(a, (n - 1) as nat) + (if a[n - 1] < 0 {
            -a[n - 1]
        } else {
            a[n - 1]
        })
    }
}

/// A product is no larger than the weight of one factor times the largest
/// coefficient of the other.
pub proof fn lemma_conv_bound(a: Seq<int>, b: Seq<int>, n: nat, j: int, bound: int)
    requires
        n <= 256,
        0 <= j < 256,
        b.len() == 256,
        forall|p: int| 0 <= p < 256 ==> -bound <= #[trigger] b[p] <= bound,
    ensures
        -(l1(a, n) * bound) <= conv(a, b, n, j) <= l1(a, n) * bound,
    decreases n,
{
    if n > 0 {
        let h = (n - 1) as nat;
        lemma_conv_bound(a, b, h, j, bound);
        let c = a[h as int];
        let t = rot(b, h as int, j);
        assert(-bound <= t <= bound);
        let m = if c < 0 {
            -c
        } else {
            c
        };
        assert(-(m * bound) <= c * t <= m * bound) by (nonlinear_arith)
            requires
                -bound <= t <= bound,
                m == c || m == -c,
                m >= 0,
        ;
        let s = l1(a, h);
        assert((s + m) * bound == s * bound + m * bound) by (nonlinear_arith);
    } else {
        assert(0 * bound == 0);
    }
}

}
