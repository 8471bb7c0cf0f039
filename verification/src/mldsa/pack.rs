//! Bit-level packing of polynomials (FIPS 204 section 7.1, Alg 16 to 21).
//! `bit_unpack` and `hint_bit_unpack` take untrusted input during verification
//! and reject out-of-range or malformed encodings.

use vstd::arithmetic::div_mod::*;
use vstd::arithmetic::power::*;
use vstd::arithmetic::power2::*;
use vstd::prelude::*;

use crate::mldsa::digits;
use crate::mldsa::poly;
use crate::mldsa::poly::Poly;

verus! {

/// The number of bits of `x`.
pub open spec fn bitlen(x: int) -> nat
    decreases x,
{
    if x <= 0 {
        0
    } else {
        1 + bitlen(x / 2)
    }
}

pub proof fn lemma_bitlen(x: int)
    requires
        x >= 1,
    ensures
        bitlen(x) >= 1,
        pow2((bitlen(x) - 1) as nat) <= x < pow2(bitlen(x)),
    decreases x,
{
    lemma2_to64();
    if x == 1 {
        reveal_with_fuel(bitlen, 2);
    } else {
        lemma_bitlen(x / 2);
        lemma_pow2_unfold(bitlen(x));
        lemma_pow2_unfold((bitlen(x) - 1) as nat);
    }
}

/// Bits needed to represent `x`, which is at least 1.
pub fn bit_length(x: i32) -> (c: usize)
    requires
        x >= 1,
    ensures
        1 <= c <= 31,
        c == bitlen(x as int),
{
    let mut c: usize = 1;
    let mut top: i64 = 2;
    proof {
        lemma2_to64();
    }
    while top <= x as i64
        invariant
            1 <= c <= 31,
            x >= 1,
            top == pow2(c as nat),
            pow2((c - 1) as nat) <= x,
            c == 31 ==> top > x,
            top <= 4294967296,
        decreases 31 - c,
    {
        proof {
            lemma2_to64();
            lemma_pow2_unfold((c + 1) as nat);
            if c == 30 {
                assert(pow2(31) == 2147483648);
            }
            assert(c < 31);
            if c < 30 {
                lemma_pow2_strictly_increases((c + 1) as nat, 31);
            }
        }
        top = top * 2;
        c = c + 1;
    }
    proof {
        lemma_bitlen(x as int);
        lemma_width_unique(x as int, bitlen(x as int));
    }
    c
}

/// The widths that occur in the encodings.
pub open spec fn is_width(c: int) -> bool {
    1 <= c <= 20
}

/// The digits that stand for the coefficients in [-a, b]: the distance from
/// `b` when a is positive, the coefficient itself when it is 0.
pub open spec fn offsets(w: Seq<int>, a: int, b: int) -> Seq<int> {
    Seq::new(
        256,
        |n: int|
            if a > 0 {
                b - w[n]
            } else {
                w[n]
            },
    )
}

/// The bytes that hold 256 digits of `c` bits each: the little-endian number
/// in base 256 is the little-endian number in base 2^c.
pub open spec fn packed(d: Seq<int>, c: nat) -> Seq<u8> {
    Seq::new(
        (32 * c) as nat,
        |k: int| digits::digit(digits::number(d, pow2(c) as int, 256), 256, k) as u8,
    )
}

/// The 256 digits of `c` bits each that the bytes hold.
pub open spec fn unpacked(s: Seq<u8>, c: nat) -> Seq<int> {
    digits::digits(digits::number(digits::ints(s), 256, (32 * c) as nat), pow2(c) as int, 256)
}

/// BitPack (Alg 17) on integers: coefficients in [-a, b], `c` bits each.
pub open spec fn bit_packed(w: Seq<int>, a: int, b: int, c: nat) -> Seq<u8> {
    packed(offsets(w, a, b), c)
}

/// 256 digits of c bits are 32 * c bytes.
proof fn lemma_sizes(c: nat)
    requires
        is_width(c as int),
    ensures
        pow(pow2(c) as int, 256) == pow(256, (32 * c) as nat),
        pow2(c) >= 2,
        pow2(c) <= 1048576,
{
    lemma_pow2_pos(c);
    lemma_pow_multiplies(2, c, 256);
    lemma2_to64();
    lemma_pow2(8);
    lemma_pow2(c);
    lemma_pow_multiplies(2, 8, 32 * c);
    assert(c * 256 == 8 * (32 * c));
    assert(pow(2, 8) == 256);
    assert(pow2(c) >= 2) by {
        if c > 1 {
            lemma_pow2_strictly_increases(1, c);
        }
    }
    assert(pow2(c) <= 1048576) by {
        if c < 20 {
            lemma_pow2_strictly_increases(c, 20);
        }
    }
}

/// Unpacking undoes packing.
pub proof fn lemma_unpack_pack(d: Seq<int>, c: nat)
    requires
        is_width(c as int),
        d.len() == 256,
        digits::all_below(d, pow2(c) as int, 256),
    ensures
        unpacked(packed(d, c), c) == d,
        packed(d, c).len() == 32 * c,
{
    lemma_sizes(c);
    let base = pow2(c) as int;
    let v = digits::number(d, base, 256);
    let len = (32 * c) as nat;
    digits::lemma_digits_of_number(d, base, 256);
    digits::lemma_number_of_digits(v, 256, len);
    let s = packed(d, c);
    assert(digits::ints(s) =~= digits::digits(v, 256, len)) by {
        assert forall|k: int| 0 <= k < len implies digits::ints(s)[k] == digits::digits(v, 256, len)[k] by {
            let x = digits::digits(v, 256, len)[k];
            assert(0 <= x < 256);
        }
    }
    lemma_small_mod(v as nat, pow(256, len) as nat);
    assert(digits::number(digits::ints(s), 256, len) == v);
    assert(unpacked(s, c) =~= d) by {
        assert forall|i: int| 0 <= i < 256 implies unpacked(s, c)[i] == d[i] by {
            assert(digits::digit(v, base, i) == d[i]);
        }
    }
}

/// Packing undoes unpacking.
pub proof fn lemma_pack_unpack(s: Seq<u8>, c: nat)
    requires
        is_width(c as int),
        s.len() == 32 * c,
    ensures
        packed(unpacked(s, c), c) == s,
        digits::all_below(unpacked(s, c), pow2(c) as int, 256),
{
    lemma_sizes(c);
    let base = pow2(c) as int;
    let len = (32 * c) as nat;
    let e = digits::ints(s);
    let v = digits::number(e, 256, len);
    assert(digits::all_below(e, 256, len));
    digits::lemma_digits_of_number(e, 256, len);
    digits::lemma_number_of_digits(v, base, 256);
    lemma_small_mod(v as nat, pow(base, 256) as nat);
    assert(packed(unpacked(s, c), c) =~= s) by {
        assert forall|k: int| 0 <= k < len implies packed(unpacked(s, c), c)[k] == s[k] by {
            assert(digits::digit(v, 256, k) == e[k]);
        }
    }
}

/// 2 to the power `c`.
fn unit(c: usize) -> (u: u32)
    requires
        is_width(c as int),
    ensures
        u == pow2(c as nat),
        2 <= u <= 1048576,
{
    let mut u: u32 = 1;
    let mut i: usize = 0;
    proof {
        lemma2_to64();
    }
    while i < c
        invariant
            i <= c <= 20,
            u == pow2(i as nat),
            u <= 1048576,
            i >= 1 ==> u >= 2,
        decreases c - i,
    {
        proof {
            lemma2_to64();
            lemma_pow2_unfold((i + 1) as nat);
            if i + 1 < 20 {
                lemma_pow2_strictly_increases((i + 1) as nat, 20);
            }
        }
        u = u * 2;
        i = i + 1;
    }
    u
}

/// Writes the encoding of the coefficients in [-a, b] into `out` from `off`
/// on, `c` bits each.
pub fn bit_pack_at(w: &Poly, a: i32, b: i32, c: usize, out: &mut [u8], off: usize)
    requires
        is_width(c as int),
        0 <= a,
        0 <= b,
        a + b < pow2(c as nat),
        poly::within(w@, -a as int, b as int),
        off + 32 * c <= old(out)@.len(),
    ensures
        final(out)@.len() == old(out)@.len(),
        final(out)@.subrange(off as int, off + 32 * c) == bit_packed(
            w@,
            a as int,
            b as int,
            c as nat,
        ),
        forall|i: int|
            0 <= i < old(out)@.len() && !(off <= i < off + 32 * c) ==> #[trigger] final(out)@[i]
                == old(out)@[i],
{
    let ghost d = offsets(w@, a as int, b as int);
    let ghost before = out@;
    let total: usize = out.len();
    let u: u32 = unit(c);
    let mut temp: u32 = 0;
    let mut scale: u32 = 1;
    let mut bi: usize = 0;
    let mut n: usize = 0;
    let ghost mut e: Seq<int> = Seq::empty();
    let ghost mut bits: nat = 0;
    proof {
        lemma_sizes(c as nat);
        lemma2_to64();
        lemma_pow0(256);
        lemma_pow0(u as int);
        assert(digits::all_below(d, u as int, 256)) by {
            assert forall|i: int| 0 <= i < 256 implies 0 <= #[trigger] d[i] < u by {
                assert(-a <= w@[i] <= b);
            }
        }
    }
    while n < 256
        invariant
            n <= 256,
            is_width(c as int),
            u == pow2(c as nat),
            2 <= u <= 1048576,
            0 <= a,
            0 <= b,
            poly::within(w@, -a as int, b as int),
            d == offsets(w@, a as int, b as int),
            digits::all_below(d, u as int, 256),
            out@.len() == before.len(),
            out@.len() == total,
            off + 32 * c <= out@.len(),
            temp < scale <= 128,
            bits < 8,
            scale == pow2(bits),
            8 * bi + bits == c * n,
            e.len() == bi,
            digits::all_below(e, 256, bi as nat),
            forall|i: int| 0 <= i < bi ==> #[trigger] out@[off + i] == e[i],
            forall|i: int|
                0 <= i < before.len() && !(off <= i < off + 32 * c) ==> #[trigger] out@[i]
                    == before[i],
            digits::number(e, 256, bi as nat) + temp * pow(256, bi as nat) == digits::number(
                d,
                u as int,
                n as nat,
            ),
            pow(256, bi as nat) * scale == pow(u as int, n as nat),
        decreases 256 - n,
    {
        let coeff: i32 = w.get(n);
        assert(-a <= w@[n as int] <= b);
        assert(0 <= d[n as int] < u);
        let v: u32 = if a > 0 {
            (b - coeff) as u32
        } else {
            coeff as u32
        };
        assert(v == d[n as int]);
        let ghost p = pow(256, bi as nat);
        let ghost t0 = temp as int;
        proof {
            assert(v * scale <= 1048575 * 128) by (nonlinear_arith)
                requires
                    v <= 1048575,
                    scale <= 128,
            ;
            assert(scale * u <= 128 * 1048576) by (nonlinear_arith)
                requires
                    u <= 1048576,
                    scale <= 128,
            ;
            assert(temp + v * scale < scale * u) by (nonlinear_arith)
                requires
                    temp < scale,
                    v < u,
            ;
            assert((t0 + v * scale) * p == t0 * p + v * (p * scale)) by (nonlinear_arith);
            assert(p * (scale * u) == (p * scale) * u) by (nonlinear_arith);
            reveal(pow);
            assert(pow(u as int, (n + 1) as nat) == u * pow(u as int, n as nat));
            assert((p * scale) * u == u * (p * scale)) by (nonlinear_arith);
            lemma_pow2_adds(bits, c as nat);
            bits = bits + c as nat;
            assert(c * (n + 1) == c * n + c) by (nonlinear_arith);
            assert(digits::number(d, u as int, (n + 1) as nat) == digits::number(
                d,
                u as int,
                n as nat,
            ) + v * pow(u as int, n as nat));
        }
        temp = temp + v * scale;
        scale = scale * u;
        while scale >= 256
            invariant
                n < 256,
                is_width(c as int),
                2 <= u <= 1048576,
                out@.len() == before.len(),
                out@.len() == total,
                off + 32 * c <= out@.len(),
                temp < scale <= 134217728,
                bits <= 27,
                scale == pow2(bits),
                8 * bi + bits == c * (n + 1),
                e.len() == bi,
                digits::all_below(e, 256, bi as nat),
                forall|i: int| 0 <= i < bi ==> #[trigger] out@[off + i] == e[i],
                forall|i: int|
                    0 <= i < before.len() && !(off <= i < off + 32 * c) ==> #[trigger] out@[i]
                        == before[i],
                digits::number(e, 256, bi as nat) + temp * pow(256, bi as nat) == digits::number(
                    d,
                    u as int,
                    (n + 1) as nat,
                ),
                pow(256, bi as nat) * scale == pow(u as int, (n + 1) as nat),
            decreases scale,
        {
            proof {
                lemma2_to64();
                assert(bits >= 8) by {
                    if bits < 8 {
                        lemma_pow2_strictly_increases(bits, 8);
                    }
                }
                lemma_pow2_adds(8, (bits - 8) as nat);
                assert(c * (n + 1) <= 256 * c) by (nonlinear_arith)
                    requires
                        n < 256,
                        c > 0,
                ;
            }
            let byte: u8 = (temp % 256) as u8;
            out[off + bi] = byte;
            proof {
                let p = pow(256, bi as nat);
                reveal(pow);
                assert(pow(256, (bi + 1) as nat) == 256 * p);
                digits::lemma_emit(temp as int, 256, p);
                let f = e.push(byte as int);
                digits::lemma_number_prefix(e, f, 256, bi as nat);
                assert(f[bi as int] == byte);
                assert(digits::number(f, 256, (bi + 1) as nat) == digits::number(e, 256, bi as nat)
                    + byte * p);
                e = f;
                assert((256 * p) * (scale / 256) == p * scale) by (nonlinear_arith)
                    requires
                        scale == 256 * (scale / 256),
                ;
                bits = (bits - 8) as nat;
            }
            temp = temp / 256;
            scale = scale / 256;
            bi = bi + 1;
        }
        proof {
            lemma2_to64();
            assert(bits < 8) by {
                if bits > 8 {
                    lemma_pow2_strictly_increases(8, bits);
                }
            }
            if bits < 7 {
                lemma_pow2_strictly_increases(bits, 7);
            }
        }
        n = n + 1;
    }
    proof {
        assert(bi == 32 * c && bits == 0);
        lemma2_to64();
        assert(temp == 0);
        assert(0 * pow(256, bi as nat) == 0);
        digits::lemma_digits_of_number(e, 256, bi as nat);
        let s = out@.subrange(off as int, off + 32 * c);
        assert(s =~= bit_packed(w@, a as int, b as int, c as nat)) by {
            assert forall|k: int| 0 <= k < 32 * c implies s[k] == bit_packed(
                w@,
                a as int,
                b as int,
                c as nat,
            )[k] by {
                assert(s[k] == out@[off + k]);
                assert(digits::digit(digits::number(e, 256, bi as nat), 256, k) == e[k]);
            }
        }
    }
}

/// BitPack (Alg 17): encode coefficients in [-a, b] as bitlen(a + b) bits each.
pub fn bit_pack(w: &Poly, a: i32, b: i32, bytes_out: &mut [u8])
    requires
        0 <= a,
        0 <= b,
        1 <= a + b < 1048576,
        poly::within(w@, -a as int, b as int),
        old(bytes_out)@.len() == 32 * bitlen(a + b),
    ensures
        final(bytes_out)@ == bit_packed(w@, a as int, b as int, bitlen(a + b)),
{
    let c: usize = bit_length(a + b);
    proof {
        lemma_bitlen((a + b) as int);
        lemma_width_range((a + b) as int, c as nat);
    }
    bit_pack_at(w, a, b, c, bytes_out, 0);
    assert(bytes_out@.subrange(0, 32 * c) =~= bytes_out@);
}

/// SimpleBitPack (Alg 16): encode coefficients in [0, b].
pub fn simple_bit_pack(w: &Poly, b: i32, bytes_out: &mut [u8])
    requires
        1 <= b < 1048576,
        poly::within(w@, 0, b as int),
        old(bytes_out)@.len() == 32 * bitlen(b as int),
    ensures
        final(bytes_out)@ == bit_packed(w@, 0, b as int, bitlen(b as int)),
{
    bit_pack(w, 0, b, bytes_out);
}

/// The coefficients that the digits `d` stand for, in [-a, b].
pub open spec fn from_offsets(d: Seq<int>, a: int, b: int) -> Seq<int> {
    Seq::new(
        256,
        |n: int|
            if a > 0 {
                b - d[n]
            } else {
                d[n]
            },
    )
}

/// BitUnpack (Alg 19) on integers. The digits stand for coefficients of at
/// most `b`; with a = 0 a digit above `b` is an encoding of nothing.
pub open spec fn bit_unpacked(s: Seq<u8>, a: int, b: int, c: nat) -> Option<Seq<int>> {
    let d = unpacked(s, c);
    if a > 0 || (forall|n: int| 0 <= n < 256 ==> #[trigger] d[n] <= b) {
        Some(from_offsets(d, a, b))
    } else {
        None
    }
}

/// BitUnpack (Alg 19): reverse of [`bit_pack`], with a range check. `Err` when
/// a decoded coefficient lands outside [b - 2^c + 1, b].
pub fn bit_unpack(v: &[u8], a: i32, b: i32) -> (r: Result<Poly, ()>)
    requires
        0 <= a,
        0 <= b,
        1 <= a + b < 1048576,
        v@.len() == 32 * bitlen(a + b),
    ensures
        r is Ok <==> bit_unpacked(v@, a as int, b as int, bitlen(a + b)) is Some,
        r matches Ok(w) ==> bit_unpacked(v@, a as int, b as int, bitlen(a + b)) == Some(w@),
        r matches Ok(w) ==> poly::within(w@, b - pow2(bitlen(a + b)) + 1, b as int),
        a == 0 ==> (r matches Ok(w) ==> poly::within(w@, 0, b as int)),
{
    let c: usize = bit_length(a + b);
    proof {
        lemma_bitlen((a + b) as int);
        lemma_width_range((a + b) as int, c as nat);
        lemma_sizes(c as nat);
        lemma2_to64();
        lemma_pow0(256);
    }
    let u: u32 = unit(c);
    proof {
        lemma_pow0(u as int);
    }
    let ghost s = digits::ints(v@);
    let mut w = Poly::zero();
    let mut in_range: bool = true;
    let mut temp: u32 = 0;
    let mut scale: u32 = 1;
    let mut ri: usize = 0;
    let mut k: usize = 0;
    let ghost mut d: Seq<int> = Seq::empty();
    let ghost mut bits: nat = 0;
    while k < v.len()
        invariant
            k <= v@.len(),
            v@.len() == 32 * c,
            is_width(c as int),
            u == pow2(c as nat),
            2 <= u <= 1048576,
            0 <= a,
            0 <= b < u,
            s == digits::ints(v@),
            temp < scale < u,
            bits < c,
            scale == pow2(bits),
            c * ri + bits == 8 * k,
            ri <= 256,
            d.len() == ri,
            digits::all_below(d, u as int, ri as nat),
            forall|i: int| 0 <= i < ri ==> #[trigger] w@[i] == (if a > 0 { b - d[i] } else { d[i] }),
            in_range <==> (a > 0 || forall|i: int| 0 <= i < ri ==> #[trigger] d[i] <= b),
            digits::number(d, u as int, ri as nat) + temp * pow(u as int, ri as nat)
                == digits::number(s, 256, k as nat),
            pow(u as int, ri as nat) * scale == pow(256, k as nat),
        decreases v.len() - k,
    {
        let byte: u32 = v[k] as u32;
        let ghost p = pow(u as int, ri as nat);
        let ghost t0 = temp as int;
        proof {
            assert(s[k as int] == byte);
            assert(byte * scale <= 255 * 1048576) by (nonlinear_arith)
                requires
                    byte <= 255,
                    scale <= 1048576,
            ;
            assert(temp + byte * scale < scale * 256) by (nonlinear_arith)
                requires
                    temp < scale,
                    byte < 256,
            ;
            assert((t0 + byte * scale) * p == t0 * p + byte * (p * scale)) by (nonlinear_arith);
            assert(p * (scale * 256) == 256 * (p * scale)) by (nonlinear_arith);
            reveal(pow);
            assert(pow(256, (k + 1) as nat) == 256 * pow(256, k as nat));
            lemma2_to64();
            lemma_pow2_adds(bits, 8);
            bits = bits + 8;
        }
        temp = temp + byte * scale;
        scale = scale * 256;
        while scale >= u
            invariant
                k < v@.len(),
                v@.len() == 32 * c,
                is_width(c as int),
                u == pow2(c as nat),
                2 <= u <= 1048576,
                0 <= a,
                0 <= b < u,
                temp < scale <= 268435456,
                scale == pow2(bits),
                c * ri + bits == 8 * (k + 1),
                ri <= 256,
                d.len() == ri,
                digits::all_below(d, u as int, ri as nat),
                forall|i: int|
                    0 <= i < ri ==> #[trigger] w@[i] == (if a > 0 { b - d[i] } else { d[i] }),
                in_range <==> (a > 0 || forall|i: int| 0 <= i < ri ==> #[trigger] d[i] <= b),
                digits::number(d, u as int, ri as nat) + temp * pow(u as int, ri as nat)
                    == digits::number(s, 256, (k + 1) as nat),
                pow(u as int, ri as nat) * scale == pow(256, (k + 1) as nat),
            decreases scale,
        {
            proof {
                assert(bits >= c) by {
                    if bits < c {
                        lemma_pow2_strictly_increases(bits, c as nat);
                    }
                }
                lemma_pow2_adds(c as nat, (bits - c) as nat);
                assert(ri < 256) by (nonlinear_arith)
                    requires
                        c * ri + bits == 8 * (k + 1),
                        k < 32 * c,
                        bits >= c,
                        c >= 1,
                ;
                let rest = pow2((bits - c) as nat) as int;
                lemma_pow2_pos((bits - c) as nat);
                assert(scale as int == u * rest);
                assert(u * rest == rest * u) by (nonlinear_arith);
                lemma_fundamental_div_mod_converse(scale as int, u as int, rest, 0);
                assert(scale / u < scale && temp / u < scale / u) by (nonlinear_arith)
                    requires
                        scale as int == u * rest,
                        (scale as int) / (u as int) == rest,
                        temp < scale,
                        u >= 2,
                        rest >= 1,
                        rest == scale / u,
                {
                    lemma_fundamental_div_mod(temp as int, u as int);
                    assert(u * (temp / u) < u * rest);
                }
            }
            let t: u32 = temp % u;
            let x: i32 = if a == 0 {
                t as i32
            } else {
                b - (t as i32)
            };
            if a == 0 && x > b {
                in_range = false;
            }
            w.set(ri, x);
            proof {
                let p = pow(u as int, ri as nat);
                reveal(pow);
                assert(pow(u as int, (ri + 1) as nat) == u * p);
                digits::lemma_emit(temp as int, u as int, p);
                let f = d.push(t as int);
                digits::lemma_number_prefix(d, f, u as int, ri as nat);
                assert(f[ri as int] == t);
                assert(digits::number(f, u as int, (ri + 1) as nat) == digits::number(
                    d,
                    u as int,
                    ri as nat,
                ) + t * p);
                assert(in_range <==> (a > 0 || forall|i: int|
                    0 <= i < ri + 1 ==> #[trigger] f[i] <= b)) by {
                    assert(forall|i: int| 0 <= i < ri ==> f[i] == d[i]);
                }
                d = f;
                let rest = (scale / u) as int;
                assert((u * p) * rest == p * scale) by (nonlinear_arith)
                    requires
                        scale as int == u * rest,
                ;
                bits = (bits - c) as nat;
                assert(c * (ri + 1) == c * ri + c) by (nonlinear_arith);
            }
            temp = temp / u;
            scale = scale / u;
            ri = ri + 1;
        }
        proof {
            assert(bits < c) by {
                if bits > c {
                    lemma_pow2_strictly_increases(c as nat, bits);
                }
            }
        }
        k = k + 1;
    }
    proof {
        assert(ri == 256 && bits == 0) by (nonlinear_arith)
            requires
                c * ri + bits == 8 * k,
                k == 32 * c,
                0 <= bits < c,
                ri <= 256,
        ;
        lemma2_to64();
        assert(temp == 0);
        assert(0 * pow(u as int, 256) == 0);
        digits::lemma_digits_of_number(d, u as int, 256);
        assert(d =~= unpacked(v@, c as nat)) by {
            assert forall|i: int| 0 <= i < 256 implies d[i] == unpacked(v@, c as nat)[i] by {
                assert(digits::digit(digits::number(d, u as int, 256), u as int, i) == d[i]);
            }
        }
        assert(w@ =~= from_offsets(d, a as int, b as int));
    }
    if in_range {
        Ok(w)
    } else {
        Err(())
    }
}

/// SimpleBitUnpack (Alg 18): reverse of [`simple_bit_pack`].
pub fn simple_bit_unpack(v: &[u8], b: i32) -> (r: Result<Poly, ()>)
    requires
        1 <= b < 1048576,
        v@.len() == 32 * bitlen(b as int),
    ensures
        r is Ok <==> bit_unpacked(v@, 0, b as int, bitlen(b as int)) is Some,
        r matches Ok(w) ==> bit_unpacked(v@, 0, b as int, bitlen(b as int)) == Some(w@),
        r matches Ok(w) ==> poly::within(w@, 0, b as int),
{
    bit_unpack(v, 0, b)
}

/// Decoding an encoding gives back the coefficients.
pub proof fn law_bit_unpack_pack(w: Seq<int>, a: int, b: int)
    requires
        w.len() == 256,
        0 <= a,
        0 <= b,
        1 <= a + b < 1048576,
        poly::within(w, -a, b),
    ensures
        bit_unpacked(bit_packed(w, a, b, bitlen(a + b)), a, b, bitlen(a + b)) == Some(w),
{
    let c = bitlen(a + b);
    lemma_bitlen(a + b);
    lemma_width_range(a + b, c);
    let d = offsets(w, a, b);
    assert(digits::all_below(d, pow2(c) as int, 256)) by {
        assert forall|i: int| 0 <= i < 256 implies 0 <= #[trigger] d[i] < pow2(c) by {
            assert(-a <= w[i] <= b);
        }
    }
    lemma_unpack_pack(d, c);
    assert(from_offsets(d, a, b) =~= w);
    if a == 0 {
        assert forall|n: int| 0 <= n < 256 implies #[trigger] d[n] <= b by {
            assert(-a <= w[n] <= b);
        }
    }
}

/// Encoding a decoded string gives back the string: every polynomial has one
/// encoding.
pub proof fn law_bit_pack_unpack(s: Seq<u8>, a: int, b: int)
    requires
        0 <= a,
        0 <= b,
        1 <= a + b < 1048576,
        s.len() == 32 * bitlen(a + b),
        bit_unpacked(s, a, b, bitlen(a + b)) is Some,
    ensures
        bit_packed(bit_unpacked(s, a, b, bitlen(a + b))->0, a, b, bitlen(a + b)) == s,
{
    let c = bitlen(a + b);
    lemma_bitlen(a + b);
    lemma_width_range(a + b, c);
    lemma_pack_unpack(s, c);
    let d = unpacked(s, c);
    assert(offsets(from_offsets(d, a, b), a, b) =~= d);
}

/// The bit length of a number is unique.
pub proof fn lemma_width_unique(x: int, c: nat)
    requires
        c >= 1,
        pow2((c - 1) as nat) <= x < pow2(c),
    ensures
        forall|e: nat|
            #![trigger pow2(e)]
            e >= 1 && pow2((e - 1) as nat) <= x < pow2(e) ==> e == c,
{
    assert forall|e: nat|
        #![trigger pow2(e)]
        e >= 1 && pow2((e - 1) as nat) <= x < pow2(e) implies e == c by {
        if e < c {
            if e < c - 1 {
                lemma_pow2_strictly_increases(e, (c - 1) as nat);
            }
        } else if c < e {
            if c < e - 1 {
                lemma_pow2_strictly_increases(c, (e - 1) as nat);
            }
        }
    }
}

pub proof fn lemma_width_range(x: int, c: nat)
    requires
        c >= 1,
        pow2((c - 1) as nat) <= x < pow2(c),
        x < 1048576,
    ensures
        is_width(c as int),
{
    lemma2_to64();
    if c > 21 {
        lemma_pow2_strictly_increases(20, (c - 1) as nat);
    }
}

/// The places below `n` at which the row is not zero, in ascending order.
pub open spec fn ones(row: Seq<int>, n: nat) -> Seq<int>
    decreases n,
{
    if n == 0 {
        Seq::empty()
    } else if row[n - 1] != 0 {
        ones(row, (n - 1) as nat).push(n - 1)
    } else {
        ones(row, (n - 1) as nat)
    }
}

/// The ones of the first `i` rows, row after row.
pub open spec fn all_ones(h: Seq<Seq<int>>, i: nat) -> Seq<int>
    decreases i,
{
    if i == 0 {
        Seq::empty()
    } else {
        all_ones(h, (i - 1) as nat) + ones(h[i - 1], 256)
    }
}

/// A hint vector: rows of zeros and ones, at most `omega` ones in all.
pub open spec fn is_hint(h: Seq<Seq<int>>, omega: int) -> bool {
    &&& forall|i: int|
        0 <= i < h.len() ==> (#[trigger] h[i]).len() == 256 && poly::within(h[i], 0, 1)
    &&& all_ones(h, h.len()).len() <= omega
}

/// HintBitPack (Alg 20) on integers: the positions of the ones, zeros up to
/// `omega`, then the running count after each row.
pub open spec fn hint_packed(omega: int, h: Seq<Seq<int>>) -> Seq<u8> {
    let all = all_ones(h, h.len());
    Seq::new(
        (omega + h.len()) as nat,
        |p: int|
            if p < all.len() {
                all[p] as u8
            } else if p < omega {
                0u8
            } else {
                all_ones(h, (p - omega + 1) as nat).len() as u8
            },
    )
}

/// The rows of a vector of polynomials.
pub open spec fn rows(h: Seq<Poly>) -> Seq<Seq<int>> {
    Seq::new(h.len(), |i: int| h[i]@)
}

proof fn lemma_ones(row: Seq<int>, n: nat)
    requires
        n <= 256,
    ensures
        ones(row, n).len() <= n,
        forall|p: int| 0 <= p < ones(row, n).len() ==> 0 <= #[trigger] ones(row, n)[p] < n,
        forall|p: int|
            0 <= p < ones(row, n).len() ==> row[#[trigger] ones(row, n)[p]] != 0,
        forall|p: int, r: int|
            0 <= p < r < ones(row, n).len() ==> #[trigger] ones(row, n)[p] < #[trigger] ones(
                row,
                n,
            )[r],
        forall|j: int|
            #![trigger row[j]]
            0 <= j < n && row[j] != 0 ==> ones(row, n).contains(j),
    decreases n,
{
    if n > 0 {
        let m = (n - 1) as nat;
        lemma_ones(row, m);
        let o = ones(row, m);
        assert forall|j: int|
            #![trigger row[j]]
            0 <= j < n && row[j] != 0 implies ones(row, n).contains(j) by {
            if j == m {
                assert(ones(row, n)[o.len() as int] == j);
            } else {
                assert(o.contains(j));
                let p = choose|p: int| 0 <= p < o.len() && o[p] == j;
                assert(ones(row, n)[p] == j);
            }
        }
    }
}

/// The ones of an initial segment of the rows come first.
proof fn lemma_all_prefix(h: Seq<Seq<int>>, i: nat, k: nat)
    requires
        i <= k,
    ensures
        all_ones(h, i).len() <= all_ones(h, k).len(),
        forall|p: int|
            0 <= p < all_ones(h, i).len() ==> #[trigger] all_ones(h, i)[p] == all_ones(h, k)[p],
    decreases k - i,
{
    if i < k {
        lemma_all_prefix(h, i, (k - 1) as nat);
    }
}

proof fn lemma_all_range(h: Seq<Seq<int>>, i: nat)
    ensures
        forall|p: int| 0 <= p < all_ones(h, i).len() ==> 0 <= #[trigger] all_ones(h, i)[p] < 256,
    decreases i,
{
    if i > 0 {
        let m = (i - 1) as nat;
        lemma_all_range(h, m);
        let o = ones(h[m as int], 256);
        lemma_ones(h[m as int], 256);
        let base = all_ones(h, m).len();
        assert forall|p: int| 0 <= p < all_ones(h, i).len() implies 0 <= #[trigger] all_ones(h, i)[p]
            < 256 by {
            if p < base {
                assert(all_ones(h, i)[p] == all_ones(h, m)[p]);
            } else {
                assert(all_ones(h, i)[p] == o[p - base]);
            }
        }
    }
}

/// Rows that agree have the same ones.
proof fn lemma_all_agree(g: Seq<Seq<int>>, h: Seq<Seq<int>>, i: nat)
    requires
        forall|r: int| 0 <= r < i ==> #[trigger] g[r] == h[r],
    ensures
        all_ones(g, i) == all_ones(h, i),
    decreases i,
{
    if i > 0 {
        lemma_all_agree(g, h, (i - 1) as nat);
        assert(g[i - 1] == h[i - 1]);
    }
}

/// HintBitPack (Alg 20): encode the binary hint polynomials into omega + k
/// bytes.
pub fn hint_bit_pack(omega: i32, h: &[Poly], y_bytes: &mut [u8])
    requires
        0 <= omega <= 255,
        is_hint(rows(h@), omega as int),
        old(y_bytes)@.len() == omega + h@.len(),
    ensures
        final(y_bytes)@ == hint_packed(omega as int, rows(h@)),
{
    let omega_u: usize = omega as usize;
    let total: usize = y_bytes.len();
    let k: usize = h.len();
    let ghost g = rows(h@);
    let ghost all = all_ones(g, k as nat);
    let mut z: usize = 0;
    while z < total
        invariant
            z <= total,
            omega_u <= 255,
            total == omega_u + k,
            y_bytes@.len() == omega_u + k,
            forall|p: int| 0 <= p < z ==> #[trigger] y_bytes@[p] == 0,
        decreases total - z,
    {
        y_bytes[z] = 0;
        z = z + 1;
    }
    let mut index: usize = 0;
    let mut i: usize = 0;
    while i < k
        invariant
            i <= k,
            total == omega_u + k,
            k == h@.len(),
            omega_u <= 255,
            g == rows(h@),
            all == all_ones(g, k as nat),
            all.len() <= omega_u,
            y_bytes@.len() == omega_u + k,
            index == all_ones(g, i as nat).len(),
            index <= omega_u,
            forall|p: int| 0 <= p < index ==> #[trigger] y_bytes@[p] == all[p] as u8,
            forall|p: int| index <= p < omega_u ==> #[trigger] y_bytes@[p] == 0,
            forall|p: int|
                omega_u <= p < omega_u + i ==> #[trigger] y_bytes@[p] == all_ones(
                    g,
                    (p - omega_u + 1) as nat,
                ).len() as u8,
        decreases k - i,
    {
        let ghost row = h@[i as int]@;
        let ghost base = index as int;
        proof {
            assert(g[i as int] == row);
            lemma_all_prefix(g, (i + 1) as nat, k as nat);
            lemma_all_prefix(g, i as nat, (i + 1) as nat);
        }
        let mut j: usize = 0;
        while j < 256
            invariant
                i < k,
                total == omega_u + k,
                j <= 256,
                k == h@.len(),
                omega_u <= 255,
                g == rows(h@),
                row == h@[i as int]@,
                g[i as int] == row,
                all == all_ones(g, k as nat),
                all.len() <= omega_u,
                base == all_ones(g, i as nat).len(),
                all_ones(g, (i + 1) as nat) == all_ones(g, i as nat) + ones(row, 256),
                all_ones(g, (i + 1) as nat).len() <= all.len(),
                forall|p: int|
                    0 <= p < all_ones(g, (i + 1) as nat).len() ==> #[trigger] all_ones(
                        g,
                        (i + 1) as nat,
                    )[p] == all[p],
                y_bytes@.len() == omega_u + k,
                index == base + ones(row, j as nat).len(),
                index <= omega_u,
                forall|p: int| 0 <= p < index ==> #[trigger] y_bytes@[p] == all[p] as u8,
                forall|p: int| index <= p < omega_u ==> #[trigger] y_bytes@[p] == 0,
                forall|p: int|
                    omega_u <= p < omega_u + i ==> #[trigger] y_bytes@[p] == all_ones(
                        g,
                        (p - omega_u + 1) as nat,
                    ).len() as u8,
            decreases 256 - j,
        {
            proof {
                lemma_ones_prefix(row, (j + 1) as nat, 256);
            }
            if h[i].get(j) != 0 {
                proof {
                    let o = ones(row, (j + 1) as nat);
                    assert(o[o.len() - 1] == j);
                    assert(all_ones(g, (i + 1) as nat)[index as int] == ones(
                        row,
                        256,
                    )[index - base]);
                    assert(all[index as int] == j);
                }
                y_bytes[index] = j as u8;
                index = index + 1;
            }
            j = j + 1;
        }
        y_bytes[omega_u + i] = index as u8;
        i = i + 1;
    }
    proof {
        lemma_all_range(g, k as nat);
        assert(y_bytes@ =~= hint_packed(omega as int, g));
    }
}

proof fn lemma_ones_prefix(row: Seq<int>, j: nat, n: nat)
    requires
        j <= n,
    ensures
        ones(row, j).len() <= ones(row, n).len(),
        forall|p: int|
            0 <= p < ones(row, j).len() ==> #[trigger] ones(row, j)[p] == ones(row, n)[p],
    decreases n - j,
{
    if j < n {
        lemma_ones_prefix(row, j, (n - 1) as nat);
    }
}

/// Setting a place behind all ones of a row adds it to them.
proof fn lemma_ones_set(row: Seq<int>, j: int, n: nat)
    requires
        row.len() == 256,
        0 <= j < 256,
        n <= 256,
        forall|t: int| j <= t < 256 ==> #[trigger] row[t] == 0,
    ensures
        n <= j ==> ones(row.update(j, 1), n) == ones(row, n),
        n > j ==> ones(row.update(j, 1), n) == ones(row, n).push(j),
    decreases n,
{
    if n > 0 {
        lemma_ones_set(row, j, (n - 1) as nat);
        let m = n - 1;
        if m > j {
            assert(row.update(j, 1)[m] == 0);
            assert(row[m] == 0);
        } else if m == j {
            assert(row.update(j, 1)[m] == 1);
            assert(row[m] == 0);
        } else {
            assert(row.update(j, 1)[m] == row[m]);
        }
    }
}

/// A row without ones has none.
proof fn lemma_ones_zero(row: Seq<int>, n: nat)
    requires
        forall|t: int| 0 <= t < n ==> #[trigger] row[t] == 0,
    ensures
        ones(row, n).len() == 0,
    decreases n,
{
    if n > 0 {
        lemma_ones_zero(row, (n - 1) as nat);
        assert(row[n - 1] == 0);
    }
}

/// What every encoding satisfies: the counts ascend up to omega and the bytes
/// behind the positions are zero.
proof fn lemma_hint_counts(omega: int, h: Seq<Seq<int>>, i: int)
    requires
        0 <= omega <= 255,
        is_hint(h, omega),
        0 <= i < h.len(),
    ensures
        hint_packed(omega, h)[omega + i] == all_ones(h, (i + 1) as nat).len(),
        all_ones(h, i as nat).len() <= all_ones(h, (i + 1) as nat).len() <= omega,
{
    lemma_all_prefix(h, i as nat, (i + 1) as nat);
    lemma_all_prefix(h, (i + 1) as nat, h.len());
}

/// The positions of one row ascend strictly.
proof fn lemma_hint_ascends(omega: int, h: Seq<Seq<int>>, i: int, p: int)
    requires
        0 <= omega <= 255,
        is_hint(h, omega),
        0 <= i < h.len(),
        all_ones(h, i as nat).len() < p < all_ones(h, (i + 1) as nat).len(),
    ensures
        hint_packed(omega, h)[p - 1] < hint_packed(omega, h)[p],
{
    let base = all_ones(h, i as nat).len();
    let o = ones(h[i], 256);
    lemma_all_prefix(h, (i + 1) as nat, h.len());
    lemma_all_range(h, h.len());
    lemma_ones(h[i], 256);
    let up = all_ones(h, (i + 1) as nat);
    assert(up == all_ones(h, i as nat) + o);
    assert(up[p] == o[p - base] && up[p - 1] == o[p - 1 - base]);
    assert(o[p - 1 - base] < o[p - base]);
    assert(all_ones(h, h.len())[p] == up[p] && all_ones(h, h.len())[p - 1] == up[p - 1]);
}

/// The count behind row `i`: where the positions of the row end.
pub open spec fn row_end(omega: int, y: Seq<u8>, i: int) -> int {
    if i < 0 {
        0
    } else {
        y[omega + i] as int
    }
}

/// A string of `omega + k` bytes is well formed: the counts do not descend and
/// stay within `omega`, the positions of each row ascend strictly, and the bytes
/// behind the positions are zero.
#[verifier::opaque]
pub open spec fn is_hint_string(k: int, omega: int, y: Seq<u8>) -> bool {
    &&& forall|i: int|
        0 <= i < k ==> row_end(omega, y, i - 1) <= #[trigger] row_end(omega, y, i) <= omega
    &&& forall|i: int, j: int|
        #![trigger row_end(omega, y, i), y[j]]
        0 <= i < k && row_end(omega, y, i - 1) < j < row_end(omega, y, i) ==> y[j - 1] < y[j]
    &&& forall|j: int| row_end(omega, y, k - 1) <= j < omega ==> #[trigger] y[j] == 0
}

/// Place `n` is among the positions of row `i`.
pub open spec fn listed(omega: int, y: Seq<u8>, i: int, n: int) -> bool {
    exists|j: int| row_end(omega, y, i - 1) <= j < row_end(omega, y, i) && #[trigger] y[j] == n
}

/// Each row is one where the string lists the place, and zero elsewhere.
#[verifier::opaque]
pub open spec fn rows_listed(omega: int, y: Seq<u8>, g: Seq<Seq<int>>) -> bool {
    forall|i: int, n: int|
        0 <= i < g.len() && 0 <= n < 256 ==> #[trigger] g[i][n] == (if listed(omega, y, i, n) {
            1int
        } else {
            0
        })
}

/// The rows of an encoded hint are one where the string lists the place, and zero
/// elsewhere.
proof fn lemma_listed(omega: int, g: Seq<Seq<int>>, y: Seq<u8>, i: int, n: int)
    requires
        0 <= omega <= 255,
        is_hint(g, omega),
        hint_packed(omega, g) == y,
        0 <= i < g.len(),
        0 <= n < 256,
    ensures
        g[i][n] == (if listed(omega, y, i, n) {
            1int
        } else {
            0
        }),
{
    let o = ones(g[i], 256);
    let base = all_ones(g, i as nat).len();
    let up = all_ones(g, (i + 1) as nat);
    lemma_ones(g[i], 256);
    lemma_hint_counts(omega, g, i);
    if i > 0 {
        lemma_hint_counts(omega, g, i - 1);
    }
    assert(all_ones(g, 0).len() == 0);
    assert(row_end(omega, y, i - 1) == base && row_end(omega, y, i) == up.len());
    lemma_all_prefix(g, (i + 1) as nat, g.len());
    lemma_all_range(g, g.len());
    assert(up == all_ones(g, i as nat) + o);
    assert forall|j: int| base <= j < up.len() implies #[trigger] y[j] == o[j - base] by {
        assert(up[j] == o[j - base]);
        assert(all_ones(g, g.len())[j] == up[j]);
    }
    assert(poly::within(g[i], 0, 1));
    if g[i][n] != 0 {
        assert(o.contains(n));
        let p = choose|p: int| 0 <= p < o.len() && o[p] == n;
        assert(y[base + p] == n);
    } else if listed(omega, y, i, n) {
        let j = choose|j: int|
            row_end(omega, y, i - 1) <= j < row_end(omega, y, i) && #[trigger] y[j] == n;
        assert(o[j - base] == n);
        assert(g[i][o[j - base]] != 0);
    }
}

/// A string encodes a hint exactly where it is well formed; this is the half
/// that every encoding is.
pub proof fn law_hint_encoding_well_formed(omega: int, g: Seq<Seq<int>>)
    requires
        0 <= omega <= 255,
        is_hint(g, omega),
    ensures
        is_hint_string(g.len() as int, omega, hint_packed(omega, g)),
{
    reveal(is_hint_string);
    let y = hint_packed(omega, g);
    let k = g.len() as int;
    assert(all_ones(g, 0).len() == 0);
    assert forall|i: int| 0 <= i < k implies row_end(omega, y, i - 1) <= #[trigger] row_end(
        omega,
        y,
        i,
    ) <= omega by {
        lemma_hint_counts(omega, g, i);
        if i > 0 {
            lemma_hint_counts(omega, g, i - 1);
        }
    }
    assert forall|i: int, j: int|
        #![trigger row_end(omega, y, i), y[j]]
        0 <= i < k && row_end(omega, y, i - 1) < j < row_end(omega, y, i) implies y[j - 1]
        < y[j] by {
        lemma_hint_counts(omega, g, i);
        if i > 0 {
            lemma_hint_counts(omega, g, i - 1);
        }
        lemma_hint_ascends(omega, g, i, j);
    }
    if k > 0 {
        lemma_hint_counts(omega, g, k - 1);
    }
}

/// HintBitUnpack (Alg 21): reverse of [`hint_bit_pack`] on untrusted input.
/// `Err` on every string that encodes no hint of `k` rows, which are those that
/// are not well formed.
pub fn hint_bit_unpack(k: usize, omega: i32, y_bytes: &[u8]) -> (r: Result<Vec<Poly>, ()>)
    requires
        0 <= omega <= 255,
        y_bytes@.len() == omega + k,
    ensures
        match r {
            Ok(h) => h@.len() == k && is_hint(rows(h@), omega as int) && hint_packed(
                omega as int,
                rows(h@),
            ) == y_bytes@,
            Err(_) => forall|g: Seq<Seq<int>>|
                g.len() == k && is_hint(g, omega as int) ==> #[trigger] hint_packed(
                    omega as int,
                    g,
                ) != y_bytes@,
        },
        r is Ok <==> is_hint_string(k as int, omega as int, y_bytes@),
        r matches Ok(h) ==> rows_listed(omega as int, y_bytes@, rows(h@)),
        r matches Ok(h) ==> forall|g: Seq<Seq<int>>|
            g.len() == k && is_hint(g, omega as int) && #[trigger] hint_packed(omega as int, g)
                == y_bytes@ ==> g == rows(h@),
{
    let omega_u: usize = omega as usize;
    let total: usize = y_bytes.len();
    let ghost y = y_bytes@;
    let mut h: Vec<Poly> = Vec::new();
    let mut index: usize = 0;
    let mut i: usize = 0;
    while i < k
        invariant
            i <= k,
            total == omega_u + k,
            omega_u == omega,
            omega_u <= 255,
            y == y_bytes@,
            y.len() == omega_u + k,
            h@.len() == i,
            index <= omega_u,
            i == 0 ==> index == 0,
            i > 0 ==> index == y[omega_u + i - 1],
            forall|r: int|
                0 <= r < i ==> (#[trigger] rows(h@)[r]).len() == 256 && poly::within(rows(h@)[r], 0, 1),
            all_ones(rows(h@), i as nat).len() == index,
            forall|p: int|
                0 <= p < index ==> #[trigger] all_ones(rows(h@), i as nat)[p] == y[p],
            forall|r: int|
                0 <= r < i ==> #[trigger] y[omega_u + r] == all_ones(
                    rows(h@),
                    (r + 1) as nat,
                ).len(),
        decreases k - i,
    {
        let lim: usize = y_bytes[omega_u + i] as usize;
        assert(row_end(omega as int, y, i - 1) == index && row_end(omega as int, y, i as int)
            == lim);
        if lim < index || lim > omega_u {
            proof {
                reveal(is_hint_string);
                assert forall|g: Seq<Seq<int>>|
                    g.len() == k && is_hint(g, omega as int) implies #[trigger] hint_packed(
                    omega as int,
                    g,
                ) != y by {
                    lemma_hint_counts(omega as int, g, i as int);
                    if i > 0 {
                        lemma_hint_counts(omega as int, g, i - 1);
                    }
                }
            }
            return Err(());
        }
        let first: usize = index;
        let mut row = Poly::zero();
        proof {
            lemma_ones_zero(row@, 256);
        }
        while index < lim
            invariant
                i < k,
                total == omega_u + k,
                omega_u == omega,
                omega_u <= 255,
                y == y_bytes@,
                y.len() == omega_u + k,
                first <= index <= lim <= omega_u,
                lim == y[omega_u + i],
                i == 0 ==> first == 0,
                i > 0 ==> first == y[omega_u + i - 1],
                row@.len() == 256,
                poly::within(row@, 0, 1),
                ones(row@, 256).len() == index - first,
                forall|p: int|
                    first <= p < index ==> ones(row@, 256)[p - first] == #[trigger] y[p],
                index == first ==> forall|t: int| 0 <= t < 256 ==> #[trigger] row@[t] == 0,
                index > first ==> forall|t: int|
                    y[index - 1] < t < 256 ==> #[trigger] row@[t] == 0,
            decreases lim - index,
        {
            if index > first && y_bytes[index - 1] >= y_bytes[index] {
                proof {
                    reveal(is_hint_string);
                    assert(row_end(omega as int, y, i - 1) == first && row_end(
                        omega as int,
                        y,
                        i as int,
                    ) == lim);
                    assert(y[index as int] <= y[index - 1]);
                    assert forall|g: Seq<Seq<int>>|
                        g.len() == k && is_hint(g, omega as int) implies #[trigger] hint_packed(
                        omega as int,
                        g,
                    ) != y by {
                        lemma_hint_counts(omega as int, g, i as int);
                        if i > 0 {
                            lemma_hint_counts(omega as int, g, i - 1);
                        }
                        if hint_packed(omega as int, g) == y {
                            assert(all_ones(g, 0).len() == 0);
                            lemma_hint_ascends(omega as int, g, i as int, index as int);
                        }
                    }
                }
                return Err(());
            }
            let j: usize = y_bytes[index] as usize;
            proof {
                lemma_ones_set(row@, j as int, 256);
            }
            row.set(j, 1);
            index = index + 1;
        }
        let ghost g0 = rows(h@);
        h.push(row);
        proof {
            let g1 = rows(h@);
            assert(g1 =~= g0.push(row@));
            assert forall|r: nat| r <= i implies #[trigger] all_ones(g1, r) == all_ones(g0, r) by {
                lemma_all_agree(g1, g0, r);
            }
            assert(g1[i as int] == row@);
            assert(all_ones(g1, i as nat) == all_ones(g0, i as nat));
            assert(all_ones(g1, (i + 1) as nat) == all_ones(g1, i as nat) + ones(
                g1[i as int],
                256,
            ));
            assert forall|r: int| 0 <= r < i + 1 implies #[trigger] y[omega_u + r] == all_ones(
                g1,
                (r + 1) as nat,
            ).len() by {
                if r < i {
                    assert(y[omega_u + r] == all_ones(g0, (r + 1) as nat).len());
                }
            }
        }
        i = i + 1;
    }
    let mut p: usize = index;
    while p < omega_u
        invariant
            index <= p <= omega_u,
            omega_u == omega,
            omega_u <= 255,
            total == omega_u + k,
            y == y_bytes@,
            y.len() == omega_u + k,
            k == 0 ==> index == 0,
            k > 0 ==> index == y[omega_u + k - 1],
            forall|t: int| index <= t < p ==> #[trigger] y[t] == 0,
        decreases omega_u - p,
    {
        if y_bytes[p] != 0 {
            proof {
                reveal(is_hint_string);
                assert(row_end(omega as int, y, k - 1) == index);
                assert forall|g: Seq<Seq<int>>|
                    g.len() == k && is_hint(g, omega as int) implies #[trigger] hint_packed(
                    omega as int,
                    g,
                ) != y by {
                    if k > 0 {
                        lemma_hint_counts(omega as int, g, k - 1);
                    }
                    if hint_packed(omega as int, g) == y {
                        assert(all_ones(g, k as nat).len() == index);
                    }
                }
            }
            return Err(());
        }
        p = p + 1;
    }
    proof {
        let g = rows(h@);
        let e = hint_packed(omega as int, g);
        assert forall|t: int| 0 <= t < omega + k implies e[t] == y[t] by {
            if t < index {
                assert(all_ones(g, k as nat)[t] == y[t]);
            } else if t >= omega {
                let r = t - omega;
                assert(y[omega_u + r] == all_ones(g, (r + 1) as nat).len());
            }
        }
        assert(e =~= y);
        law_hint_encoding_well_formed(omega as int, g);
        reveal(rows_listed);
        assert forall|i: int, n: int| 0 <= i < g.len() && 0 <= n < 256 implies #[trigger] g[i][n]
            == (if listed(omega as int, y, i, n) {
            1int
        } else {
            0
        }) by {
            lemma_listed(omega as int, g, y, i, n);
        }
        assert forall|f: Seq<Seq<int>>|
            f.len() == k && is_hint(f, omega as int) && #[trigger] hint_packed(omega as int, f)
                == y_bytes@ implies f == rows(h@) by {
            law_hint_encoding_unique(omega as int, f, g);
        }
    }
    Ok(h)
}

/// A string encodes at most one hint.
pub proof fn law_hint_encoding_unique(omega: int, g: Seq<Seq<int>>, h: Seq<Seq<int>>)
    requires
        0 <= omega <= 255,
        is_hint(g, omega),
        is_hint(h, omega),
        g.len() == h.len(),
        hint_packed(omega, g) == hint_packed(omega, h),
    ensures
        g == h,
{
    let y = hint_packed(omega, g);
    let k = g.len();
    assert forall|i: int| 0 <= i < k implies g[i] == h[i] by {
        lemma_hint_counts(omega, g, i);
        lemma_hint_counts(omega, h, i);
        if i > 0 {
            lemma_hint_counts(omega, g, i - 1);
            lemma_hint_counts(omega, h, i - 1);
        }
        assert(all_ones(g, i as nat).len() == all_ones(h, i as nat).len());
        let base = all_ones(g, i as nat).len();
        let og = ones(g[i], 256);
        let oh = ones(h[i], 256);
        assert(all_ones(g, (i + 1) as nat) == all_ones(g, i as nat) + og);
        assert(all_ones(h, (i + 1) as nat) == all_ones(h, i as nat) + oh);
        assert(og.len() == oh.len());
        lemma_all_prefix(g, (i + 1) as nat, k);
        lemma_all_prefix(h, (i + 1) as nat, k);
        lemma_all_range(g, k);
        lemma_all_range(h, k);
        assert forall|p: int| 0 <= p < og.len() implies og[p] == oh[p] by {
            assert(all_ones(g, (i + 1) as nat)[base + p] == og[p]);
            assert(all_ones(h, (i + 1) as nat)[base + p] == oh[p]);
            assert(all_ones(g, k)[base + p] == og[p]);
            assert(all_ones(h, k)[base + p] == oh[p]);
            assert(y[base + p] == all_ones(g, k)[base + p] as u8);
            assert(y[base + p] == all_ones(h, k)[base + p] as u8);
        }
        assert(og =~= oh);
        lemma_ones(g[i], 256);
        lemma_ones(h[i], 256);
        assert(g[i].len() == 256 && h[i].len() == 256);
        assert(poly::within(g[i], 0, 1) && poly::within(h[i], 0, 1));
        assert forall|j: int| 0 <= j < 256 implies g[i][j] == h[i][j] by {
            if g[i][j] != 0 {
                assert(og.contains(j));
                let p = choose|p: int| 0 <= p < og.len() && og[p] == j;
                assert(h[i][oh[p]] != 0);
            }
            if h[i][j] != 0 {
                assert(oh.contains(j));
                let p = choose|p: int| 0 <= p < oh.len() && oh[p] == j;
                assert(g[i][og[p]] != 0);
            }
        }
        assert(g[i] =~= h[i]);
    }
    assert(g =~= h);
}

}
