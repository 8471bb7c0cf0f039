//! Key and signature (de)serialization (FIPS 204 section 7.2, Alg 22 to 28).
//! Encoders write into a caller-provided slice of the exact length; decoders
//! take untrusted bytes in verification and pass on the rejections of
//! [`crate::mldsa::pack`].

use vstd::arithmetic::power2::*;
use vstd::prelude::*;
use vstd::slice::slice_subrange;

use crate::mldsa::pack;
use crate::mldsa::poly;
use crate::mldsa::poly::Poly;
use crate::mldsa::round;
use crate::mldsa::sample;

verus! {

/// The encodings of the first `n` rows, one behind the other.
pub open spec fn packed_rows(v: Seq<Seq<int>>, a: int, b: int, c: nat, n: nat) -> Seq<u8>
    decreases n,
{
    if n == 0 {
        Seq::empty()
    } else {
        packed_rows(v, a, b, c, (n - 1) as nat) + pack::bit_packed(v[n - 1], a, b, c)
    }
}

/// All rows lie in [lo, hi].
pub open spec fn rows_within(v: Seq<Seq<int>>, lo: int, hi: int) -> bool {
    forall|i: int|
        0 <= i < v.len() ==> (#[trigger] v[i]).len() == 256 && poly::within(v[i], lo, hi)
}

pub proof fn lemma_packed_rows(v: Seq<Seq<int>>, a: int, b: int, c: nat, n: nat)
    ensures
        packed_rows(v, a, b, c, n).len() == 32 * c * n,
        forall|i: int|
            0 <= i < n ==> packed_rows(v, a, b, c, n).subrange(
                32 * c * i,
                32 * c * i + 32 * c,
            ) == #[trigger] pack::bit_packed(v[i], a, b, c),
    decreases n,
{
    if n > 0 {
        let m = (n - 1) as nat;
        lemma_packed_rows(v, a, b, c, m);
        assert(32 * c * n == 32 * c * m + 32 * c) by (nonlinear_arith)
            requires
                n == m + 1,
        ;
        let s = packed_rows(v, a, b, c, n);
        let t = packed_rows(v, a, b, c, m);
        assert forall|i: int| 0 <= i < n implies s.subrange(32 * c * i, 32 * c * i + 32 * c)
            == #[trigger] pack::bit_packed(v[i], a, b, c) by {
            if i < m {
                assert(0 <= 32 * c * i && 32 * c * i + 32 * c <= 32 * c * m) by (nonlinear_arith)
                    requires
                        0 <= i < m,
                ;
                assert(s.subrange(32 * c * i, 32 * c * i + 32 * c) =~= t.subrange(
                    32 * c * i,
                    32 * c * i + 32 * c,
                ));
            } else {
                assert(s.subrange(32 * c * i, 32 * c * i + 32 * c) =~= pack::bit_packed(
                    v[i],
                    a,
                    b,
                    c,
                ));
            }
        }
    } else {
        assert(32 * c * 0 == 0);
    }
}

/// Writes the encodings of all rows into `out` from `off` on.
fn pack_rows_at(v: &Vec<Poly>, a: i32, b: i32, c: usize, out: &mut [u8], off: usize)
    requires
        pack::is_width(c as int),
        0 <= a,
        0 <= b,
        a + b < pow2(c as nat),
        v@.len() <= 8,
        rows_within(pack::rows(v@), -a as int, b as int),
        off + 32 * c * v@.len() <= old(out)@.len(),
    ensures
        final(out)@.len() == old(out)@.len(),
        final(out)@.subrange(off as int, off + 32 * c * v@.len()) == packed_rows(
            pack::rows(v@),
            a as int,
            b as int,
            c as nat,
            v@.len(),
        ),
        forall|i: int|
            0 <= i < old(out)@.len() && !(off <= i < off + 32 * c * v@.len())
                ==> #[trigger] final(out)@[i] == old(out)@[i],
{
    let ghost before = out@;
    let ghost g = pack::rows(v@);
    let total: usize = out.len();
    let mut i: usize = 0;
    let mut at: usize = off;
    proof {
        assert(32 * c * 0 == 0);
    }
    while i < v.len()
        invariant
            i <= v@.len() <= 8,
            pack::is_width(c as int),
            0 <= a,
            0 <= b,
            a + b < pow2(c as nat),
            g == pack::rows(v@),
            rows_within(g, -a as int, b as int),
            total == out@.len(),
            total == before.len(),
            at == off + 32 * c * i,
            off + 32 * c * v@.len() <= total,
            out@.subrange(off as int, at as int) == packed_rows(
                g,
                a as int,
                b as int,
                c as nat,
                i as nat,
            ),
            forall|p: int|
                0 <= p < total && !(off <= p < off + 32 * c * v@.len()) ==> #[trigger] out@[p]
                    == before[p],
        decreases v@.len() - i,
    {
        proof {
            assert(32 * c * (i + 1) == 32 * c * i + 32 * c) by (nonlinear_arith);
            assert(32 * c * (i + 1) <= 32 * c * v@.len()) by (nonlinear_arith)
                requires
                    i < v@.len(),
            ;
            assert(g[i as int] == v@[i as int]@);
            assert(poly::within(g[i as int], -a as int, b as int));
        }
        let ghost mid = out@;
        pack::bit_pack_at(&v[i], a, b, c, out, at);
        proof {
            assert(out@.subrange(off as int, at as int) =~= mid.subrange(off as int, at as int));
            assert(out@.subrange(off as int, at + 32 * c) =~= out@.subrange(off as int, at as int)
                + out@.subrange(at as int, at + 32 * c));
        }
        at = at + 32 * c;
        i = i + 1;
    }
}

/// Reads `count` rows from `s` at `off` on; `Err` when one is no encoding.
fn unpack_rows(s: &[u8], off: usize, count: usize, a: i32, b: i32, c: usize) -> (r: Result<
    Vec<Poly>,
    (),
>)
    requires
        0 <= a,
        0 <= b,
        1 <= a + b < 1048576,
        c == pack::bitlen(a + b),
        count <= 8,
        off + 32 * c * count <= s@.len(),
    ensures
        r is Ok <==> (a > 0 || b + 1 == pow2(c as nat) || forall|i: int|
            0 <= i < count ==> (#[trigger] row_at(s@, off as int, a as int, b as int, c as nat, i))
                is Some),
        r matches Ok(v) ==> v@.len() == count && forall|i: int|
            0 <= i < count ==> row_at(s@, off as int, a as int, b as int, c as nat, i) == Some(
                (#[trigger] v@[i])@,
            ) && poly::within(v@[i]@, b - pow2(c as nat) + 1, b as int) && (a == 0 ==> poly::within(
                v@[i]@,
                0,
                b as int,
            )),
{
    let mut v: Vec<Poly> = Vec::with_capacity(count);
    let mut i: usize = 0;
    let mut at: usize = off;
    let total: usize = s.len();
    proof {
        assert(32 * c * 0 == 0);
        pack::lemma_bitlen((a + b) as int);
        pack::lemma_width_range((a + b) as int, c as nat);
    }
    while i < count
        invariant
            i <= count <= 8,
            0 <= a,
            0 <= b,
            1 <= a + b < 1048576,
            c == pack::bitlen(a + b),
            pack::is_width(c as int),
            total == s@.len(),
            at == off + 32 * c * i,
            off + 32 * c * count <= total,
            v@.len() == i,
            forall|x: int|
                0 <= x < i ==> row_at(s@, off as int, a as int, b as int, c as nat, x) == Some(
                    (#[trigger] v@[x])@,
                ) && poly::within(v@[x]@, b - pow2(c as nat) + 1, b as int) && (a == 0 ==> poly::within(
                    v@[x]@,
                    0,
                    b as int,
                )),
        decreases count - i,
    {
        proof {
            assert(32 * c * (i + 1) == 32 * c * i + 32 * c) by (nonlinear_arith);
            assert(32 * c * (i + 1) <= 32 * c * count) by (nonlinear_arith)
                requires
                    i < count,
            ;
        }
        let part = slice_subrange(s, at, at + 32 * c);
        match pack::bit_unpack(part, a, b) {
            Ok(p) => {
                v.push(p);
            },
            Err(_) => {
                proof {
                    assert(row_at(s@, off as int, a as int, b as int, c as nat, i as int) is None);
                    if b + 1 == pow2(c as nat) {
                        pack::lemma_pack_unpack(part@, c as nat);
                        let d = pack::unpacked(part@, c as nat);
                        assert forall|n: int| 0 <= n < 256 implies #[trigger] d[n] <= b by {}
                    }
                }
                return Err(());
            },
        }
        at = at + 32 * c;
        i = i + 1;
    }
    proof {
        assert forall|x: int| 0 <= x < count implies (#[trigger] row_at(
            s@,
            off as int,
            a as int,
            b as int,
            c as nat,
            x,
        )) is Some by {
            assert(row_at(s@, off as int, a as int, b as int, c as nat, x) == Some(v@[x]@));
        }
    }
    Ok(v)
}

/// What the bytes of row `i` decode to.
pub open spec fn row_at(s: Seq<u8>, off: int, a: int, b: int, c: nat, i: int) -> Option<Seq<int>> {
    pack::bit_unpacked(s.subrange(off + 32 * c * i, off + 32 * c * i + 32 * c), a, b, c)
}

/// Rows that were decoded encode to the bytes they came from.
proof fn lemma_repack(s: Seq<u8>, off: int, v: Seq<Seq<int>>, a: int, b: int, c: nat, n: nat)
    requires
        0 <= a,
        0 <= b,
        1 <= a + b < 1048576,
        c == pack::bitlen(a + b),
        0 <= off,
        off + 32 * c * n <= s.len(),
        n <= v.len(),
        forall|i: int| 0 <= i < n ==> row_at(s, off, a, b, c, i) == Some(#[trigger] v[i]),
    ensures
        packed_rows(v, a, b, c, n) == s.subrange(off, off + 32 * c * n),
    decreases n,
{
    if n > 0 {
        let m = (n - 1) as nat;
        assert(32 * c * n == 32 * c * m + 32 * c) by (nonlinear_arith)
            requires
                n == m + 1,
        ;
        lemma_repack(s, off, v, a, b, c, m);
        let part = s.subrange(off + 32 * c * m, off + 32 * c * m + 32 * c);
        assert(row_at(s, off, a, b, c, m as int) == Some(v[m as int]));
        pack::law_bit_pack_unpack(part, a, b);
        assert(s.subrange(off, off + 32 * c * n) =~= s.subrange(off, off + 32 * c * m) + part);
    } else {
        assert(32 * c * 0 == 0);
        assert(s.subrange(off, off) =~= Seq::empty());
    }
}

/// Rows are determined by their encodings.
pub proof fn lemma_packed_rows_unique(
    u: Seq<Seq<int>>,
    v: Seq<Seq<int>>,
    a: int,
    b: int,
    n: nat,
)
    requires
        0 <= a,
        0 <= b,
        1 <= a + b < 1048576,
        u.len() == n,
        v.len() == n,
        rows_within(u, -a, b),
        rows_within(v, -a, b),
        packed_rows(u, a, b, pack::bitlen(a + b), n) == packed_rows(
            v,
            a,
            b,
            pack::bitlen(a + b),
            n,
        ),
    ensures
        u == v,
{
    let c = pack::bitlen(a + b);
    lemma_packed_rows(u, a, b, c, n);
    lemma_packed_rows(v, a, b, c, n);
    assert forall|i: int| 0 <= i < n implies u[i] == v[i] by {
        assert(pack::bit_packed(u[i], a, b, c) == pack::bit_packed(v[i], a, b, c));
        pack::law_bit_unpack_pack(u[i], a, b);
        pack::law_bit_unpack_pack(v[i], a, b);
    }
    assert(u =~= v);
}

/// The widths of the encodings.
pub proof fn lemma_widths()
    ensures
        pack::bitlen(1023) == 10,
        pow2(10) == 1024,
        pack::bitlen(43) == 6,
        pow2(6) == 64,
        pack::bitlen(15) == 4,
        pow2(4) == 16,
        pack::bitlen(4) == 3,
        pow2(3) == 8,
        pack::bitlen(8) == 4,
        pack::bitlen(8191) == 13,
        pow2(13) == 8192,
{
    lemma2_to64();
    pack::lemma_bitlen(1023);
    pack::lemma_width_unique(1023, pack::bitlen(1023));
    pack::lemma_bitlen(43);
    pack::lemma_width_unique(43, pack::bitlen(43));
    pack::lemma_bitlen(15);
    pack::lemma_width_unique(15, pack::bitlen(15));
    pack::lemma_bitlen(4);
    pack::lemma_width_unique(4, pack::bitlen(4));
    pack::lemma_bitlen(8);
    pack::lemma_width_unique(8, pack::bitlen(8));
    pack::lemma_bitlen(8191);
    pack::lemma_width_unique(8191, pack::bitlen(8191));
    assert(pow2(9) == 512 && pow2(10) == 1024 && pow2(5) == 32 && pow2(6) == 64 && pow2(3) == 8
        && pow2(4) == 16 && pow2(2) == 4 && pow2(12) == 4096 && pow2(13) == 8192);
}

/// pkEncode (Alg 22) on integers.
pub open spec fn pk_bytes(rho: Seq<u8>, t1: Seq<Seq<int>>) -> Seq<u8> {
    rho + packed_rows(t1, 0, 1023, 10, t1.len())
}

/// Copies `src` to the front of `out`.
fn copy_front(src: &[u8], out: &mut [u8])
    requires
        src@.len() <= old(out)@.len(),
    ensures
        final(out)@ == src@ + old(out)@.skip(src@.len() as int),
{
    let ghost before = out@;
    let mut i: usize = 0;
    while i < src.len()
        invariant
            i <= src@.len() <= out@.len(),
            out@.len() == before.len(),
            forall|p: int| 0 <= p < i ==> #[trigger] out@[p] == src@[p],
            forall|p: int| i <= p < before.len() ==> #[trigger] out@[p] == before[p],
        decreases src@.len() - i,
    {
        out[i] = src[i];
        i = i + 1;
    }
    assert(out@ =~= src@ + before.skip(src@.len() as int));
}

/// pkEncode (Alg 22): `rho`, then each row of `t1` in 10 bits per coefficient.
pub fn pk_encode(rho: &[u8; 32], t1: &Vec<Poly>, out: &mut [u8])
    requires
        t1@.len() <= 8,
        rows_within(pack::rows(t1@), 0, 1023),
        old(out)@.len() == 32 + 320 * t1@.len(),
    ensures
        final(out)@ == pk_bytes(rho@, pack::rows(t1@)),
{
    proof {
        lemma_widths();
        assert(32 * 10 * t1@.len() == 320 * t1@.len());
    }
    copy_front(rho.as_slice(), out);
    pack_rows_at(t1, 0, 1023, 10, out, 32);
    proof {
        assert(out@ =~= rho@ + out@.subrange(32, (32 + 320 * t1@.len()) as int));
    }
}

/// pkDecode (Alg 23): `(rho, t1)` from untrusted bytes. Every string of the
/// right length is an encoding.
pub fn pk_decode(k: usize, pk: &[u8]) -> (r: Result<([u8; 32], Vec<Poly>), ()>)
    requires
        k <= 8,
        pk@.len() == 32 + 320 * k,
    ensures
        r is Ok,
        r matches Ok(v) ==> v.0@ == pk@.take(32) && v.1@.len() == k && rows_within(
            pack::rows(v.1@),
            0,
            1023,
        ) && pk_bytes(v.0@, pack::rows(v.1@)) == pk@,
{
    proof {
        lemma_widths();
        assert(32 * 10 * k == 320 * k);
    }
    let mut rho = [0u8; 32];
    let mut i: usize = 0;
    while i < 32
        invariant
            i <= 32 <= pk@.len(),
            forall|p: int| 0 <= p < i ==> #[trigger] rho@[p] == pk@[p],
        decreases 32 - i,
    {
        rho[i] = pk[i];
        i = i + 1;
    }
    let t1 = unpack_rows(pk, 32, k, 0, 1023, 10)?;
    proof {
        let g = pack::rows(t1@);
        assert forall|x: int| 0 <= x < k implies row_at(pk@, 32, 0, 1023, 10, x) == Some(
            #[trigger] g[x],
        ) by {
            assert(g[x] == t1@[x]@);
        }
        lemma_repack(pk@, 32, g, 0, 1023, 10, k as nat);
        assert(rho@ =~= pk@.take(32));
        assert(pk_bytes(rho@, g) =~= pk@);
        assert forall|x: int| 0 <= x < k implies (#[trigger] g[x]).len() == 256 && poly::within(
            g[x],
            0,
            1023,
        ) by {
            assert(g[x] == t1@[x]@);
        }
    }
    Ok((rho, t1))
}

/// sigEncode (Alg 26) on integers.
pub open spec fn sig_bytes(
    gamma1: int,
    omega: int,
    c_tilde: Seq<u8>,
    z: Seq<Seq<int>>,
    h: Seq<Seq<int>>,
) -> Seq<u8> {
    c_tilde + packed_rows(z, gamma1 - 1, gamma1, sample::mask_width(gamma1), z.len())
        + pack::hint_packed(omega, h)
}

/// sigEncode (Alg 26): the commitment hash, `z` and the hint.
pub fn sig_encode(
    gamma1: i32,
    omega: i32,
    c_tilde: &[u8],
    z: &Vec<Poly>,
    h: &Vec<Poly>,
    out: &mut [u8],
)
    requires
        sample::is_gamma1(gamma1 as int),
        0 <= omega <= 255,
        z@.len() <= 8,
        h@.len() <= 8,
        rows_within(pack::rows(z@), -gamma1 + 1, gamma1 as int),
        pack::is_hint(pack::rows(h@), omega as int),
        old(out)@.len() == c_tilde@.len() + 32 * sample::mask_width(gamma1 as int) * z@.len()
            + omega + h@.len(),
    ensures
        final(out)@.len() == old(out)@.len(),
        final(out)@ == sig_bytes(
            gamma1 as int,
            omega as int,
            c_tilde@,
            pack::rows(z@),
            pack::rows(h@),
        ),
{
    proof {
        sample::lemma_mask_width(gamma1 as int);
    }
    let c: usize = if gamma1 == 131_072 {
        18
    } else {
        20
    };
    let total: usize = out.len();
    let start: usize = c_tilde.len();
    copy_front(c_tilde, out);
    pack_rows_at(z, gamma1 - 1, gamma1, c, out, start);
    let ghost mid = out@;
    assert(32 * c * z@.len() <= 32 * 20 * 8) by (nonlinear_arith)
        requires
            c <= 20,
            z@.len() <= 8,
    ;
    let tail: usize = start + 32 * c * z.len();
    let (_, rest) = out.split_at_mut(tail);
    pack::hint_bit_pack(omega, h.as_slice(), rest);
    proof {
        let e = sig_bytes(
            gamma1 as int,
            omega as int,
            c_tilde@,
            pack::rows(z@),
            pack::rows(h@),
        );
        assert(mid.take(tail as int) =~= c_tilde@ + mid.subrange(start as int, tail as int));
        assert(out@ =~= e);
    }
}

/// sigDecode (Alg 27): `(c_tilde, z, h)` from an untrusted signature. `Err`
/// when the last part is no encoding of a hint with `k` rows.
pub fn sig_decode(
    k: usize,
    l: usize,
    gamma1: i32,
    omega: i32,
    lambda_div4: usize,
    sig: &[u8],
) -> (r: Result<(Vec<u8>, Vec<Poly>, Vec<Poly>), ()>)
    requires
        sample::is_gamma1(gamma1 as int),
        0 <= omega <= 255,
        k <= 8,
        l <= 8,
        lambda_div4 <= 64,
        sig@.len() == lambda_div4 + 32 * sample::mask_width(gamma1 as int) * l + omega + k,
    ensures
        match r {
            Ok((c, z, h)) => {
                &&& c@ == sig@.take(lambda_div4 as int)
                &&& z@.len() == l
                &&& h@.len() == k
                &&& rows_within(pack::rows(z@), -gamma1 + 1, gamma1 as int)
                &&& pack::is_hint(pack::rows(h@), omega as int)
                &&& sig_bytes(
                    gamma1 as int,
                    omega as int,
                    c@,
                    pack::rows(z@),
                    pack::rows(h@),
                ) == sig@
            },
            Err(_) => forall|z: Seq<Seq<int>>, h: Seq<Seq<int>>|
                z.len() == l && h.len() == k && pack::is_hint(h, omega as int)
                    ==> #[trigger] sig_bytes(
                    gamma1 as int,
                    omega as int,
                    sig@.take(lambda_div4 as int),
                    z,
                    h,
                ) != sig@,
        },
{
    proof {
        sample::lemma_mask_width(gamma1 as int);
    }
    let c: usize = if gamma1 == 131_072 {
        18
    } else {
        20
    };
    let c_tilde = vstd::slice::slice_to_vec(slice_subrange(sig, 0, lambda_div4));
    let start: usize = lambda_div4;
    assert(32 * c * l <= 32 * 20 * 8) by (nonlinear_arith)
        requires
            c <= 20,
            l <= 8,
    ;
    let tail: usize = start + 32 * c * l;
    let z = match unpack_rows(sig, start, l, gamma1 - 1, gamma1, c) {
        Ok(z) => z,
        Err(_) => {
            return Err(());
        },
    };
    let rest = slice_subrange(sig, tail, sig.len());
    proof {
        let g = pack::rows(z@);
        assert forall|x: int| 0 <= x < l implies row_at(
            sig@,
            start as int,
            gamma1 - 1,
            gamma1 as int,
            c as nat,
            x,
        ) == Some(#[trigger] g[x]) by {
            assert(g[x] == z@[x]@);
        }
        lemma_repack(sig@, start as int, g, gamma1 - 1, gamma1 as int, c as nat, l as nat);
        assert(c_tilde@ =~= sig@.take(lambda_div4 as int));
        assert forall|x: int| 0 <= x < l implies (#[trigger] g[x]).len() == 256 && poly::within(
            g[x],
            -gamma1 + 1,
            gamma1 as int,
        ) by {
            assert(g[x] == z@[x]@);
        }
    }
    let h = match pack::hint_bit_unpack(k, omega, rest) {
        Ok(h) => h,
        Err(_) => {
            proof {
                assert forall|z: Seq<Seq<int>>, h: Seq<Seq<int>>|
                    z.len() == l && h.len() == k && pack::is_hint(
                        h,
                        omega as int,
                    ) implies #[trigger] sig_bytes(
                    gamma1 as int,
                    omega as int,
                    sig@.take(lambda_div4 as int),
                    z,
                    h,
                ) != sig@ by {
                    let e = sig_bytes(
                        gamma1 as int,
                        omega as int,
                        sig@.take(lambda_div4 as int),
                        z,
                        h,
                    );
                    lemma_packed_rows(z, gamma1 - 1, gamma1 as int, c as nat, l as nat);
                    if e == sig@ {
                        assert(rest@ =~= pack::hint_packed(omega as int, h));
                    }
                }
            }
            return Err(());
        },
    };
    proof {
        let g = pack::rows(z@);
        assert(sig_bytes(
            gamma1 as int,
            omega as int,
            c_tilde@,
            g,
            pack::rows(h@),
        ) =~= sig@);
    }
    Ok((c_tilde, z, h))
}

/// The width of a packed high-bits coefficient.
pub open spec fn w1_width(gamma2: int) -> nat {
    if gamma2 == 95232 {
        6
    } else {
        4
    }
}

/// w1Encode (Alg 28) on integers.
pub open spec fn w1_bytes(gamma2: int, w1: Seq<Seq<int>>) -> Seq<u8> {
    packed_rows(w1, 0, round::classes(gamma2) - 1, w1_width(gamma2), w1.len())
}

/// w1Encode (Alg 28): the rows of the high bits, packed.
pub fn w1_encode(gamma2: i32, w1: &Vec<Poly>, out: &mut [u8])
    requires
        round::is_gamma2(gamma2 as int),
        w1@.len() <= 8,
        rows_within(pack::rows(w1@), 0, round::classes(gamma2 as int) - 1),
        old(out)@.len() == 32 * w1_width(gamma2 as int) * w1@.len(),
    ensures
        final(out)@ == w1_bytes(gamma2 as int, pack::rows(w1@)),
{
    proof {
        lemma_widths();
    }
    if gamma2 == 95_232 {
        pack_rows_at(w1, 0, 43, 6, out, 0);
    } else {
        pack_rows_at(w1, 0, 15, 4, out, 0);
    }
    assert(out@.subrange(0, out@.len() as int) =~= out@);
}

/// A signature string determines its parts.
pub proof fn lemma_sig_unique(
    gamma1: int,
    omega: int,
    c: Seq<u8>,
    z: Seq<Seq<int>>,
    h: Seq<Seq<int>>,
    y: Seq<Seq<int>>,
    g: Seq<Seq<int>>,
)
    requires
        sample::is_gamma1(gamma1),
        0 <= omega <= 255,
        z.len() == y.len(),
        h.len() == g.len(),
        rows_within(z, -gamma1 + 1, gamma1),
        rows_within(y, -gamma1 + 1, gamma1),
        pack::is_hint(h, omega),
        pack::is_hint(g, omega),
        sig_bytes(gamma1, omega, c, z, h) == sig_bytes(gamma1, omega, c, y, g),
    ensures
        z == y,
        h == g,
{
    sample::lemma_mask_width(gamma1);
    let w = sample::mask_width(gamma1);
    let n = z.len();
    lemma_packed_rows(z, gamma1 - 1, gamma1, w, n);
    lemma_packed_rows(y, gamma1 - 1, gamma1, w, n);
    let a = packed_rows(z, gamma1 - 1, gamma1, w, n);
    let b = packed_rows(y, gamma1 - 1, gamma1, w, n);
    let s = sig_bytes(gamma1, omega, c, z, h);
    let t = sig_bytes(gamma1, omega, c, y, g);
    let lo = c.len() as int;
    let mid = lo + a.len();
    assert(s.subrange(lo, mid) =~= a);
    assert(t.subrange(lo, mid) =~= b);
    assert(s.subrange(mid, s.len() as int) =~= pack::hint_packed(omega, h));
    assert(t.subrange(mid, t.len() as int) =~= pack::hint_packed(omega, g));
    lemma_packed_rows_unique(z, y, gamma1 - 1, gamma1, n);
    pack::law_hint_encoding_unique(omega, h, g);
}

/// The rows of an encoded public key decode to the rows it was made from.
pub proof fn lemma_pk_rows(rho: Seq<u8>, t1: Seq<Seq<int>>, i: int)
    requires
        rho.len() == 32,
        rows_within(t1, 0, 1023),
        0 <= i < t1.len(),
    ensures
        row_at(pk_bytes(rho, t1), 32, 0, 1023, 10, i) == Some(t1[i]),
{
    lemma_widths();
    lemma_packed_rows(t1, 0, 1023, 10, t1.len());
    let pk = pk_bytes(rho, t1);
    let a = packed_rows(t1, 0, 1023, 10, t1.len());
    let c: nat = 10;
    assert(32 * c * i + 32 * c <= 32 * c * t1.len()) by (nonlinear_arith)
        requires
            i < t1.len(),
            c == 10,
    ;
    assert(pk.subrange(32 + 32 * c * i, 32 + 32 * c * i + 32 * c) =~= a.subrange(
        32 * c * i,
        32 * c * i + 32 * c,
    ));
    assert(pack::bit_packed(t1[i], 0, 1023, c) == a.subrange(32 * c * i, 32 * c * i + 32 * c));
    pack::law_bit_unpack_pack(t1[i], 0, 1023);
}

/// The width of a packed secret coefficient.
pub open spec fn eta_width(eta: int) -> nat {
    if eta == 2 {
        3
    } else {
        4
    }
}

/// The parts of an encoded secret key: rho, K, tr, s1, s2 and t0.
pub struct SecretParts {
    pub rho: [u8; 32],
    pub cap_k: [u8; 32],
    pub tr: [u8; 64],
    pub s1: Vec<Poly>,
    pub s2: Vec<Poly>,
    pub t0: Vec<Poly>,
}

/// skDecode (Alg 25): the parts of an encoded secret key. Every string of the
/// right length decodes.
pub fn sk_decode(k: usize, l: usize, eta: i32, sk: &[u8]) -> (r: SecretParts)
    requires
        eta == 2 || eta == 4,
        k <= 8,
        l <= 8,
        sk@.len() == 128 + 32 * eta_width(eta as int) * l + 32 * eta_width(eta as int) * k + 416
            * k,
    ensures
        r.rho@ == sk@.subrange(0, 32),
        r.cap_k@ == sk@.subrange(32, 64),
        r.tr@ == sk@.subrange(64, 128),
        r.s1@.len() == l,
        r.s2@.len() == k,
        r.t0@.len() == k,
        ({
            let c = eta_width(eta as int);
            let e = eta as int;
            let off2 = 128 + 32 * c * l;
            let off3 = off2 + 32 * c * k;
            &&& forall|i: int|
                0 <= i < l ==> row_at(sk@, 128, e, e, c, i) == Some((#[trigger] r.s1@[i])@)
                    && poly::within(r.s1@[i]@, -11, 4)
            &&& forall|i: int|
                0 <= i < k ==> row_at(sk@, off2, e, e, c, i) == Some((#[trigger] r.s2@[i])@)
                    && poly::within(r.s2@[i]@, -11, 4)
            &&& forall|i: int|
                0 <= i < k ==> row_at(sk@, off3, 4095, 4096, 13, i) == Some(
                    (#[trigger] r.t0@[i])@,
                ) && poly::within(r.t0@[i]@, -4095, 4096)
        }),
{
    proof {
        lemma_widths();
        lemma2_to64();
    }
    let c: usize = if eta == 2 {
        3
    } else {
        4
    };
    assert(32 * c * l <= 1024 && 32 * c * k <= 1024) by (nonlinear_arith)
        requires
            c <= 4,
            l <= 8,
            k <= 8,
    ;
    let mut rho = [0u8; 32];
    let mut cap_k = [0u8; 32];
    let mut tr = [0u8; 64];
    let mut i: usize = 0;
    while i < 32
        invariant
            i <= 32,
            sk@.len() >= 128,
            forall|x: int| 0 <= x < i ==> #[trigger] rho@[x] == sk@[x],
            forall|x: int| 0 <= x < i ==> #[trigger] cap_k@[x] == sk@[32 + x],
        decreases 32 - i,
    {
        rho[i] = sk[i];
        cap_k[i] = sk[32 + i];
        i = i + 1;
    }
    let mut j: usize = 0;
    while j < 64
        invariant
            j <= 64,
            sk@.len() >= 128,
            forall|x: int| 0 <= x < j ==> #[trigger] tr@[x] == sk@[64 + x],
        decreases 64 - j,
    {
        tr[j] = sk[64 + j];
        j = j + 1;
    }
    assert(rho@ =~= sk@.subrange(0, 32));
    assert(cap_k@ =~= sk@.subrange(32, 64));
    assert(tr@ =~= sk@.subrange(64, 128));
    let off2: usize = 128 + 32 * c * l;
    let off3: usize = off2 + 32 * c * k;
    assert(32 * 13 * k == 416 * k);
    let s1 = match unpack_rows(sk, 128, l, eta, eta, c) {
        Ok(v) => v,
        Err(_) => {
            assert(false);
            Vec::new()
        },
    };
    let s2 = match unpack_rows(sk, off2, k, eta, eta, c) {
        Ok(v) => v,
        Err(_) => {
            assert(false);
            Vec::new()
        },
    };
    let t0 = match unpack_rows(sk, off3, k, 4095, 4096, 13) {
        Ok(v) => v,
        Err(_) => {
            assert(false);
            Vec::new()
        },
    };
    proof {
        assert forall|i: int| 0 <= i < l implies poly::within((#[trigger] s1@[i])@, -11, 4) by {
            assert(poly::within(s1@[i]@, eta - pow2(c as nat) + 1, eta as int));
        }
        assert forall|i: int| 0 <= i < k implies poly::within((#[trigger] s2@[i])@, -11, 4) by {
            assert(poly::within(s2@[i]@, eta - pow2(c as nat) + 1, eta as int));
        }
    }
    SecretParts { rho, cap_k, tr, s1, s2, t0 }
}

}
