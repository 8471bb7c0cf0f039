//! The number-theoretic transform (FIPS 204 section 7.5, Alg 41 and 42),
//! transforming in place on a [`Poly`].
//!
//! `ntt_inplace` maps the normal to the NTT domain and `inv_ntt_inplace` maps
//! back, with the factor 1/256. The twiddles are multiplied by 2^32 beforehand,
//! so the butterfly's Montgomery reduction yields a plain product.

use vstd::arithmetic::div_mod::*;
use vstd::arithmetic::power::*;
use vstd::prelude::*;

use crate::mldsa::modq;
use crate::mldsa::poly;
use crate::mldsa::poly::Poly;
use crate::mldsa::reduce::{full_reduce32, mont_reduce};
use crate::mldsa::ring;

verus! {

/// The eight low bits of `i` in reverse order.
fn reverse8(i: usize) -> (r: usize)
    requires
        i < 256,
    ensures
        r == ring::brv8(i as int),
        r < 256,
{
    proof {
        reveal(ring::brv8);
        ring::lemma_brv8_range(i as int);
    }
    (i % 2) * 128 + ((i / 2) % 2) * 64 + ((i / 4) % 2) * 32 + ((i / 8) % 2) * 16 + ((i / 16) % 2)
        * 8 + ((i / 32) % 2) * 4 + ((i / 64) % 2) * 2 + (i / 128) % 2
}

/// What the twiddle table holds.
pub open spec fn is_zeta_table(t: Seq<i32>) -> bool {
    t.len() == 256 && forall|m: int|
        0 <= m < 256 ==> 0 <= (#[trigger] t[m]) < 8380417 && modq::cong(
            t[m] as int,
            ring::twiddle(m) * 4294967296,
        )
}

/// zeta^brv8(i) * 2^32 mod q for i in [0, 256).
pub fn gen_zeta_table_mont() -> (t: [i32; 256])
    ensures
        is_zeta_table(t@),
{
    let mut powers = [0i32; 256];
    let mut x: u64 = 1;
    let mut i: usize = 0;
    proof {
        ring::lemma_zeta_256();
    }
    while i < 256
        invariant
            i <= 256,
            x == ring::zpow(i as nat),
            x < 8380417,
            forall|e: int|
                0 <= e < i ==> 0 <= (#[trigger] powers@[e]) < 8380417 && modq::cong(
                    powers@[e] as int,
                    ring::zpow(e as nat) * 4294967296,
                ),
        decreases 256 - i,
    {
        let v: u64 = (x * 4_294_967_296) % 8_380_417;
        proof {
            assert(modq::cong(v as int, x * 4294967296)) by {
                reveal(modq::res);
            }
            ring::lemma_zeta_256();
            ring::lemma_zpow_add(i as nat, 1);
            modq::lemma_res_range(pow(1753, (i + 1) as nat));
            modq::lemma_res_range(ring::zpow((i + 1) as nat));
            assert((x * 1753) % 8380417 == modq::res(x * 1753)) by {
                reveal(modq::res);
            }
        }
        powers[i] = v as i32;
        x = (x * 1753) % 8_380_417;
        i = i + 1;
    }
    let mut t = [0i32; 256];
    let mut m: usize = 0;
    while m < 256
        invariant
            m <= 256,
            forall|e: int|
                0 <= e < 256 ==> 0 <= (#[trigger] powers@[e]) < 8380417 && modq::cong(
                    powers@[e] as int,
                    ring::zpow(e as nat) * 4294967296,
                ),
            forall|j: int|
                0 <= j < m ==> 0 <= (#[trigger] t@[j]) < 8380417 && modq::cong(
                    t@[j] as int,
                    ring::twiddle(j) * 4294967296,
                ),
        decreases 256 - m,
    {
        t[m] = powers[reverse8(m)];
        m = m + 1;
    }
    t
}

/// A Montgomery product with a table entry is a product with the twiddle.
proof fn lemma_twiddle_product(t: int, zeta: int, tw: int, w: int)
    requires
        modq::cong(t * 4294967296, zeta * w),
        modq::cong(zeta, tw * 4294967296),
    ensures
        modq::cong(t, tw * w),
{
    modq::lemma_cong_mul(zeta, tw * 4294967296, w, w);
    assert((tw * 4294967296) * w == (tw * w) * 4294967296) by (nonlinear_arith);
    modq::lemma_cong_cancel_r(t, tw * w);
}

/// The places of block `b`.
proof fn lemma_block(len: int, nb: int, b: int, j: int)
    requires
        len > 0,
        nb * (2 * len) == 256,
        0 <= b < nb,
        b * (2 * len) <= j < b * (2 * len) + len,
    ensures
        0 <= j,
        j + len < 256,
        128int / len == nb,
        256int / len == 2 * nb,
        j / (2 * len) == b,
        j % (2 * len) < len,
        (j + len) / (2 * len) == b,
        (j + len) % (2 * len) >= len,
        b * (2 * len) + 2 * len <= 256,
{
    assert(0 <= b * (2 * len) && b * (2 * len) + 2 * len <= 256) by (nonlinear_arith)
        requires
            nb * (2 * len) == 256,
            0 <= b < nb,
            len > 0,
    ;
    ring::lemma_index_at(j, len, 2 * len, nb);
    lemma_fundamental_div_mod_converse(j, 2 * len, b, j - b * (2 * len));
    lemma_fundamental_div_mod_converse(j + len, 2 * len, b, j + len - b * (2 * len));
}

/// The number of blocks of a layer with stride `len`.
spec fn blocks(len: int) -> int {
    if len == 1 {
        128
    } else if len == 2 {
        64
    } else if len == 4 {
        32
    } else if len == 8 {
        16
    } else if len == 16 {
        8
    } else if len == 32 {
        4
    } else if len == 64 {
        2
    } else {
        1
    }
}

/// What a butterfly of a forward layer does to place `j` and the one `len`
/// further: they add up to twice what was at `j` and differ by at most twice
/// `step`; nothing added leaves both as `j` was.
spec fn split_pair(g: Seq<int>, w: Seq<int>, len: int, step: int, j: int) -> bool {
    &&& w[j] + w[j + len] == 2 * g[j]
    &&& -2 * step <= w[j] - w[j + len] <= 2 * step
    &&& g[j + len] == 0 ==> w[j] == g[j] && w[j + len] == g[j]
}

/// Every butterfly of the layer with stride `len`.
spec fn split_layer(g: Seq<int>, w: Seq<int>, len: int, step: int) -> bool {
    forall|j: int|
        0 <= j < 256 && j % (2 * len) < len ==> #[trigger] split_pair(g, w, len, step, j)
}

/// The upper place of a butterfly before a block lies before the block.
proof fn lemma_before_block(len: int, b: int, p: int)
    requires
        len > 0,
        0 <= p < b * (2 * len),
        p % (2 * len) < len,
    ensures
        p + len < b * (2 * len),
{
    lemma_fundamental_div_mod(p, 2 * len);
    let k = p / (2 * len);
    assert(k < b) by (nonlinear_arith)
        requires
            p == (2 * len) * k + p % (2 * len),
            0 <= p % (2 * len),
            p < b * (2 * len),
            len > 0,
    ;
    assert((k + 1) * (2 * len) <= b * (2 * len)) by (nonlinear_arith)
        requires
            k < b,
            len > 0,
    ;
    assert((k + 1) * (2 * len) == (2 * len) * k + 2 * len) by (nonlinear_arith);
}

/// One forward layer: `nb` blocks of `2 * len` places.
fn forward_layer(w: &mut Poly, table: &[i32; 256], len: usize, nb: usize, Ghost(bound): Ghost<int>)
    requires
        0 < len <= 128,
        nb <= 128,
        nb * (2 * len) == 256,
        ring::is_stride(len as int),
        is_zeta_table(table@),
        0 <= bound <= 2139103230,
        poly::within(old(w)@, -bound, bound),
    ensures
        ring::pcong(final(w)@, ring::layer(old(w)@, len as int)),
        poly::within(final(w)@, -(bound + 8380416), bound + 8380416),
        bound <= 67000000 ==> poly::within(final(w)@, -(bound + 4321281), bound + 4321281),
        split_layer(
            old(w)@,
            final(w)@,
            len as int,
            if bound <= 67000000 {
                4321281
            } else {
                8380416
            },
        ),
{
    let ghost g = w@;
    let ghost step: int = if bound <= 67000000 {
        4321281
    } else {
        8380416
    };
    let mut b: usize = 0;
    let mut start: usize = 0;
    while b < nb
        invariant
            b <= nb <= 128,
            0 < len <= 128,
            nb * (2 * len) == 256,
            start == b * (2 * len),
            start <= 256,
            ring::is_stride(len as int),
            is_zeta_table(table@),
            0 <= bound <= 2139103230,
            poly::within(g, -bound, bound),
            step == (if bound <= 67000000 { 4321281int } else { 8380416int }),
            poly::within(w@, -(bound + step), bound + step),
            forall|p: int|
                0 <= p < start ==> modq::cong(
                    #[trigger] w@[p],
                    ring::layer_at(g, len as int, p),
                ),
            forall|p: int| start <= p < 256 ==> #[trigger] w@[p] == g[p],
            forall|p: int|
                0 <= p < start && p % (2 * len) < len ==> #[trigger] split_pair(
                    g,
                    w@,
                    len as int,
                    step,
                    p,
                ),
        decreases nb - b,
    {
        proof {
            lemma_block(len as int, nb as int, b as int, start as int);
        }
        let m: usize = nb + b;
        let zeta: i64 = table[m] as i64;
        let mut j: usize = start;
        while j < start + len
            invariant
                b < nb <= 128,
                0 < len <= 128,
                nb * (2 * len) == 256,
                start == b * (2 * len),
                start + 2 * len <= 256,
                start <= j <= start + len,
                m == nb + b,
                zeta == table@[m as int],
                is_zeta_table(table@),
                0 <= bound <= 2139103230,
                poly::within(g, -bound, bound),
                step == (if bound <= 67000000 { 4321281int } else { 8380416int }),
                poly::within(w@, -(bound + step), bound + step),
                forall|p: int|
                    (0 <= p < j || start + len <= p < j + len) ==> modq::cong(
                        #[trigger] w@[p],
                        ring::layer_at(g, len as int, p),
                    ),
                forall|p: int|
                    (j <= p < start + len || j + len <= p < 256) ==> #[trigger] w@[p] == g[p],
                forall|p: int|
                    0 <= p < j && p % (2 * len) < len ==> #[trigger] split_pair(
                        g,
                        w@,
                        len as int,
                        step,
                        p,
                    ),
            decreases start + len - j,
        {
            let ghost before = w@;
            let hi: i64 = w.get(j + len) as i64;
            let lo: i32 = w.get(j);
            proof {
                lemma_block(len as int, nb as int, b as int, j as int);
                assert(-bound <= hi <= bound && -bound <= lo <= bound);
                assert(0 <= zeta < 8380417);
                lemma_product_range(zeta as int, hi as int, bound);
            }
            let t: i32 = mont_reduce(zeta * hi);
            proof {
                lemma_twiddle_product(
                    t as int,
                    zeta as int,
                    ring::twiddle(m as int),
                    hi as int,
                );
                assert(-step <= t <= step);
                modq::lemma_cong_add(
                    lo as int,
                    lo as int,
                    t as int,
                    ring::twiddle(m as int) * hi,
                );
                modq::lemma_cong_sub(
                    lo as int,
                    lo as int,
                    t as int,
                    ring::twiddle(m as int) * hi,
                );
            }
            w.set(j + len, lo - t);
            w.set(j, lo + t);
            proof {
                assert(w@ == before.update(j + len, lo - t).update(j as int, lo + t));
                assert(modq::cong(w@[j as int], ring::layer_at(g, len as int, j as int)));
                assert(modq::cong(
                    w@[j + len],
                    ring::layer_at(g, len as int, j + len),
                ));
                if hi == 0 {
                    assert(zeta * hi == 0);
                }
                assert forall|p: int| 0 <= p < j + 1 && p % (2 * len) < len implies #[trigger]
                split_pair(g, w@, len as int, step, p) by {
                    if p < start {
                        lemma_before_block(len as int, b as int, p);
                    }
                    if p < j {
                        assert(split_pair(g, before, len as int, step, p));
                    }
                }
            }
            j = j + 1;
        }
        proof {
            assert((b + 1) * (2 * len) == b * (2 * len) + 2 * len) by (nonlinear_arith);
            assert forall|p: int|
                0 <= p < start + 2 * len && p % (2 * len) < len implies #[trigger] split_pair(
                g,
                w@,
                len as int,
                step,
                p,
            ) by {
                if p >= start + len {
                    lemma_fundamental_div_mod_converse(
                        p,
                        2 * len as int,
                        b as int,
                        p - b * (2 * len),
                    );
                }
            }
        }
        start = start + 2 * len;
        b = b + 1;
    }
}

/// The product of a table entry and a coefficient stays in the Montgomery
/// range.
proof fn lemma_product_range(z: int, h: int, bound: int)
    requires
        -8380417 < z < 8380417,
        -bound <= h <= bound,
        0 <= bound <= 2147483648,
    ensures
        -17996808470921216 <= z * h <= 17996808470921216,
        bound <= 67000000 ==> -561487939000000 <= z * h <= 561487939000000,
{
    assert(-(8380417 * bound) <= z * h <= 8380417 * bound) by (nonlinear_arith)
        requires
            -8380417 < z < 8380417,
            -bound <= h <= bound,
    ;
}

/// The sum of the `n` coefficients from `p` on, by halves.
pub open spec fn block_sum(w: Seq<int>, p: int, n: int) -> int
    decreases n,
{
    if n <= 1 {
        w[p]
    } else {
        block_sum(w, p, n / 2) + block_sum(w, p + n / 2, n / 2)
    }
}

/// Sum and difference of the two sums of `n` coefficients from `p` on fit 32
/// bits.
pub open spec fn pair_fits(w: Seq<int>, p: int, n: int) -> bool {
    let lo = block_sum(w, p, n);
    let hi = block_sum(w, p + n, n);
    i32::MIN <= lo + hi <= i32::MAX && i32::MIN <= lo - hi <= i32::MAX
}

/// The sums that the inverse transform forms fit 32 bits.
pub open spec fn sums_fit(w: Seq<int>) -> bool {
    forall|p: int, n: int|
        0 <= p < 256 && ring::is_stride(n) && p % (2 * n) == 0 ==> #[trigger] pair_fits(w, p, n)
}

/// The stride of the layer that gives the `i`-th stage of the forward transform
/// from behind.
spec fn stride_at(i: int) -> int {
    if i == 0 {
        1
    } else if i == 1 {
        2
    } else if i == 2 {
        4
    } else if i == 3 {
        8
    } else if i == 4 {
        16
    } else if i == 5 {
        32
    } else if i == 6 {
        64
    } else if i == 7 {
        128
    } else {
        256
    }
}

/// The stages of a forward transform of coefficients up to one q in magnitude.
spec fn staged(h: Seq<Seq<int>>, k: int) -> bool {
    &&& h.len() == k + 1
    &&& forall|m: int|
        0 <= m <= k ==> poly::within(
            #[trigger] h[m],
            -(8380416 + 4321281 * m),
            8380416 + 4321281 * m,
        )
    &&& forall|m: int|
        0 <= m < k ==> #[trigger] split_layer(h[m], h[m + 1], stride_at(7 - m), 4321281)
}

/// The blocks of a layer fill the 256 places.
proof fn lemma_blocks(len: int)
    requires
        ring::is_stride(len),
    ensures
        blocks(len) * (2 * len) == 256,
{
}

/// A multiple of `2 * len` leaves room for a block, and both halves of the block
/// start at multiples of `len`.
proof fn lemma_aligned(p: int, len: int)
    requires
        ring::is_stride(len),
        0 <= p < 256,
        p % (2 * len) == 0,
    ensures
        p % len == 0,
        (p + len) % len == 0,
        p + 2 * len <= 256,
{
    lemma_blocks(len);
    let c = blocks(len);
    let k = p / (2 * len);
    lemma_fundamental_div_mod(p, 2 * len);
    assert(p == (2 * k) * len && p + len == (2 * k + 1) * len) by (nonlinear_arith)
        requires
            p == (2 * len) * k,
    ;
    lemma_fundamental_div_mod_converse(p, len, 2 * k, 0);
    lemma_fundamental_div_mod_converse(p + len, len, 2 * k + 1, 0);
    assert(p + 2 * len <= 256) by (nonlinear_arith)
        requires
            p == (2 * len) * k,
            c * (2 * len) == 256,
            p < 256,
            len > 0,
    ;
}

/// The lower place of the butterfly that a place belongs to.
spec fn lower(p: int, len: int) -> int {
    if p % (2 * len) < len {
        p
    } else {
        p - len
    }
}

proof fn lemma_lower(p: int, len: int)
    requires
        ring::is_stride(len),
        0 <= p < 256,
    ensures
        0 <= lower(p, len),
        lower(p, len) + len < 256,
        lower(p, len) % (2 * len) < len,
        (lower(p, len) + len) % (2 * len) != 0,
        (lower(p, len) % (2 * len) == 0) == (p % len == 0),
{
    lemma_blocks(len);
    let c = blocks(len);
    let k = p / (2 * len);
    let r = p % (2 * len);
    lemma_fundamental_div_mod(p, 2 * len);
    lemma_mod_bound(p, 2 * len);
    let s = if r < len {
        r
    } else {
        r - len
    };
    let j = lower(p, len);
    assert(j == k * (2 * len) + s) by (nonlinear_arith)
        requires
            p == (2 * len) * k + r,
            j == (if r < len { p } else { p - len }),
            s == (if r < len { r } else { r - len }),
    ;
    assert(0 <= k * (2 * len) && k * (2 * len) + 2 * len <= 256) by (nonlinear_arith)
        requires
            p == (2 * len) * k + r,
            0 <= r < 2 * len,
            0 <= p < 256,
            c * (2 * len) == 256,
            len > 0,
    ;
    lemma_fundamental_div_mod_converse(j, 2 * len, k, s);
    lemma_fundamental_div_mod_converse(j + len, 2 * len, k, s + len);
    assert(k * (2 * len) == (2 * k) * len && k * (2 * len) + len == (2 * k + 1) * len)
        by (nonlinear_arith);
    if r < len {
        lemma_fundamental_div_mod_converse(p, len, 2 * k, s);
    } else {
        lemma_fundamental_div_mod_converse(p, len, 2 * k + 1, s);
    }
}

/// The sum of the outputs of a block is a multiple of a stage before.
proof fn lemma_stage_sum(h: Seq<Seq<int>>, i: int, p: int)
    requires
        staged(h, 8),
        0 <= i <= 8,
        0 <= p < 256,
        p % stride_at(i) == 0,
    ensures
        block_sum(h[8], p, stride_at(i)) == stride_at(i) * h[8 - i][p],
    decreases i,
{
    if i > 0 {
        let n = stride_at(i);
        lemma_aligned(p, n / 2);
        lemma_lower(p, n / 2);
        lemma_stage_sum(h, i - 1, p);
        lemma_stage_sum(h, i - 1, p + n / 2);
        let m = 8 - i;
        assert(split_layer(h[m], h[m + 1], stride_at(7 - m), 4321281));
        assert(stride_at(7 - m) == n / 2);
        assert(split_pair(h[m], h[m + 1], n / 2, 4321281, p));
        let x = h[8 - i + 1][p];
        let y = h[8 - i + 1][p + n / 2];
        assert((n / 2) * x + (n / 2) * y == (n / 2) * (x + y)) by (nonlinear_arith);
        assert((n / 2) * (2 * h[m][p]) == n * h[m][p]) by (nonlinear_arith)
            requires
                n == 2 * (n / 2),
        ;
    }
}

/// The inverse transform can form the sums of what the forward transform gives.
proof fn lemma_stages_fit(h: Seq<Seq<int>>)
    requires
        staged(h, 8),
    ensures
        sums_fit(h[8]),
{
    assert forall|p: int, n: int|
        0 <= p < 256 && ring::is_stride(n) && p % (2 * n) == 0 implies #[trigger] pair_fits(
        h[8],
        p,
        n,
    ) by {
        let i: int = if n == 1 {
            0
        } else if n == 2 {
            1
        } else if n == 4 {
            2
        } else if n == 8 {
            3
        } else if n == 16 {
            4
        } else if n == 32 {
            5
        } else if n == 64 {
            6
        } else {
            7
        };
        assert(stride_at(i) == n);
        lemma_aligned(p, n);
        lemma_stage_sum(h, i, p);
        lemma_stage_sum(h, i, p + n);
        let m = 7 - i;
        assert(split_layer(h[m], h[m + 1], stride_at(7 - m), 4321281));
        assert(split_pair(h[m], h[m + 1], n, 4321281, p));
        let x = h[8 - i][p];
        let y = h[8 - i][p + n];
        assert(n * x + n * y == n * (x + y) && n * x - n * y == n * (x - y)) by (nonlinear_arith);
        assert(poly::within(h[m], -(8380416 + 4321281 * m), 8380416 + 4321281 * m));
        let z = h[m][p];
        assert(-(8380416 + 4321281 * m) <= z <= 8380416 + 4321281 * m);
    }
}

/// The sums of coefficients below q in magnitude fit.
proof fn lemma_small_sums(w: Seq<int>, p: int, n: int)
    requires
        poly::within(w, -8380416, 8380416),
        ring::is_stride(n) || n == 256,
        0 <= p < 256,
        p % n == 0,
    ensures
        -8380416 * n <= block_sum(w, p, n) <= 8380416 * n,
    decreases n,
{
    if n > 1 {
        lemma_aligned(p, n / 2);
        lemma_small_sums(w, p, n / 2);
        lemma_small_sums(w, p + n / 2, n / 2);
    }
}

/// The sums of coefficients below q in magnitude fit.
proof fn lemma_small_fit(w: Seq<int>)
    requires
        poly::within(w, -8380416, 8380416),
    ensures
        sums_fit(w),
{
    assert forall|p: int, n: int|
        0 <= p < 256 && ring::is_stride(n) && p % (2 * n) == 0 implies #[trigger] pair_fits(
        w,
        p,
        n,
    ) by {
        lemma_aligned(p, n);
        lemma_small_sums(w, p, n);
        lemma_small_sums(w, p + n, n);
    }
}

/// Only the constant coefficient is there.
pub open spec fn is_constant(w: Seq<int>) -> bool {
    forall|p: int| 0 < p < 256 ==> #[trigger] w[p] == 0
}

/// The constant stands at every multiple of `len`, and nothing elsewhere.
spec fn spread(w: Seq<int>, c: int, len: int) -> bool {
    forall|p: int|
        0 <= p < 256 ==> #[trigger] w[p] == (if p % len == 0 {
            c
        } else {
            0
        })
}

proof fn lemma_spread(g: Seq<int>, w: Seq<int>, c: int, len: int, step: int)
    requires
        ring::is_stride(len),
        spread(g, c, 2 * len),
        split_layer(g, w, len, step),
    ensures
        spread(w, c, len),
{
    assert forall|p: int| 0 <= p < 256 implies #[trigger] w[p] == (if p % len == 0 {
        c
    } else {
        0
    }) by {
        let j = lower(p, len);
        lemma_lower(p, len);
        assert(split_pair(g, w, len, step, j));
        assert(g[j + len] == 0);
    }
}

/// Forward NTT in place (Alg 41). Inputs up to one q in magnitude come out
/// below 42950665, and the inverse takes what comes out of inputs below q. A
/// constant polynomial comes out as that constant in every place.
pub fn ntt_inplace(w: &mut Poly)
    requires
        poly::within(old(w)@, -2080440311, 2080440311),
    ensures
        ring::pcong(final(w)@, ring::ntt(old(w)@)),
        poly::within(old(w)@, -8380417, 8380417) ==> poly::within(final(w)@, -42950665, 42950665),
        poly::within(old(w)@, -8380416, 8380416) ==> sums_fit(final(w)@),
        is_constant(old(w)@) ==> forall|p: int|
            0 <= p < 256 ==> #[trigger] final(w)@[p] == old(w)@[0],
{
    let table = gen_zeta_table_mont();
    let ghost x = w@;
    let ghost small = poly::within(x, -8380417, 8380417);
    let mut len: usize = 128;
    let mut nb: usize = 1;
    let ghost mut k: int = 0;
    let ghost mut bound: int = if small {
        8380417
    } else {
        2080440311
    };
    let ghost tight = poly::within(x, -8380416, 8380416);
    let ghost mut h: Seq<Seq<int>> = seq![x];
    while len >= 1
        invariant
            is_zeta_table(table@),
            len == 0 || ring::is_stride(len as int),
            len > 0 ==> nb == blocks(len as int),
            0 <= k <= 8,
            len > 0 ==> k < 8,
            len >= 64 ==> k == 1 - (len as int - 64) / 64,
            len == 32 ==> k == 2,
            len == 16 ==> k == 3,
            len == 8 ==> k == 4,
            len == 4 ==> k == 5,
            len == 2 ==> k == 6,
            len == 1 ==> k == 7,
            len == 0 ==> k == 8,
            bound == (if small { 8380417 + 4321281 * k } else { 2080440311 + 8380416 * k }),
            poly::within(w@, -bound, bound),
            ring::pcong(
                ring::ntt_layers(w@, len as int),
                ring::ntt_layers(x, 128),
            ),
            tight ==> small,
            tight == poly::within(x, -8380416, 8380416),
            tight ==> staged(h, k) && h[k] == w@,
            len > 0 ==> len == stride_at(7 - k),
            is_constant(x) ==> spread(
                w@,
                x[0],
                if len == 0 {
                    1
                } else {
                    2 * len
                },
            ),
        decreases len,
    {
        let ghost y = w@;
        forward_layer(w, &table, len, nb, Ghost(bound));
        proof {
            if is_constant(x) {
                lemma_spread(
                    y,
                    w@,
                    x[0],
                    len as int,
                    if bound <= 67000000 {
                        4321281
                    } else {
                        8380416
                    },
                );
            }
            if tight {
                lemma_staged_push(h, k, w@);
                h = h.push(w@);
            }
            ring::lemma_index(len as int, 0);
            ring::lemma_layers_cong(w@, ring::layer(y, len as int), len as int / 2);
            assert(ring::ntt_layers(y, len as int) == ring::ntt_layers(
                ring::layer(y, len as int),
                len as int / 2,
            ));
            ring::lemma_pcong_trans(
                ring::ntt_layers(w@, len as int / 2),
                ring::ntt_layers(y, len as int),
                ring::ntt_layers(x, 128),
            );
            k = k + 1;
            bound = if small {
                bound + 4321281
            } else {
                bound + 8380416
            };
        }
        nb = nb * 2;
        len = len / 2;
    }
    proof {
        ring::lemma_layers_ntt(x);
        ring::lemma_pcong_trans(w@, ring::ntt_layers(x, 128), ring::ntt(x));
        if tight {
            lemma_stages_fit(h);
        }
    }
}

/// One more stage. Its coefficients lie between those that add up and differ as
/// the butterflies say.
proof fn lemma_staged_push(h: Seq<Seq<int>>, k: int, w: Seq<int>)
    requires
        0 <= k < 8,
        staged(h, k),
        split_layer(h[k], w, stride_at(7 - k), 4321281),
    ensures
        staged(h.push(w), k + 1),
{
    let g = h[k];
    let len = stride_at(7 - k);
    let n = h.push(w);
    assert(poly::within(g, -(8380416 + 4321281 * k), 8380416 + 4321281 * k));
    let b = 8380416 + 4321281 * (k + 1);
    assert forall|p: int| 0 <= p < 256 implies -b <= #[trigger] w[p] <= b by {
        let j = lower(p, len);
        lemma_lower(p, len);
        assert(split_pair(g, w, len, 4321281, j));
        assert(-(8380416 + 4321281 * k) <= g[j] <= 8380416 + 4321281 * k);
    }
    assert(poly::within(w, -b, b));
    assert forall|m: int| 0 <= m <= k + 1 implies poly::within(
        #[trigger] n[m],
        -(8380416 + 4321281 * m),
        8380416 + 4321281 * m,
    ) by {
        if m <= k {
            assert(n[m] == h[m]);
        }
    }
    assert forall|m: int| 0 <= m < k + 1 implies #[trigger] split_layer(
        n[m],
        n[m + 1],
        stride_at(7 - m),
        4321281,
    ) by {
        assert(n[m] == h[m]);
        if m < k {
            assert(n[m + 1] == h[m + 1]);
            assert(split_layer(h[m], h[m + 1], stride_at(7 - m), 4321281));
        }
    }
}

/// Where the inverse transform stands before the layer with stride `len`: the
/// multiples of `len` hold the sums of their blocks, the rest is small.
spec fn summed_at(w: Seq<int>, a: Seq<int>, len: int, p: int) -> bool {
    if p % len == 0 {
        w[p] == block_sum(a, p, len)
    } else {
        -8380416 * len <= w[p] <= 8380416 * len
    }
}

spec fn summed(w: Seq<int>, a: Seq<int>, len: int) -> bool {
    forall|p: int| 0 <= p < 256 ==> #[trigger] summed_at(w, a, len, p)
}

/// One inverse layer: `nb` blocks of `2 * len` places.
fn inverse_layer(w: &mut Poly, table: &[i32; 256], len: usize, nb: usize, Ghost(a): Ghost<Seq<int>>)
    requires
        0 < len <= 128,
        nb <= 128,
        nb * (2 * len) == 256,
        ring::is_stride(len as int),
        is_zeta_table(table@),
        sums_fit(a),
        summed(old(w)@, a, len as int),
    ensures
        ring::pcong(final(w)@, ring::ilayer(old(w)@, len as int)),
        summed(final(w)@, a, 2 * len as int),
{
    let ghost g = w@;
    let mut b: usize = 0;
    let mut start: usize = 0;
    while b < nb
        invariant
            b <= nb <= 128,
            0 < len <= 128,
            nb * (2 * len) == 256,
            start == b * (2 * len),
            start <= 256,
            is_zeta_table(table@),
            ring::is_stride(len as int),
            sums_fit(a),
            summed(g, a, len as int),
            forall|p: int|
                0 <= p < start ==> modq::cong(
                    #[trigger] w@[p],
                    ring::ilayer_at(g, len as int, p),
                ),
            forall|p: int| start <= p < 256 ==> #[trigger] w@[p] == g[p],
            forall|p: int| 0 <= p < start ==> #[trigger] summed_at(w@, a, 2 * len as int, p),
        decreases nb - b,
    {
        proof {
            lemma_block(len as int, nb as int, b as int, start as int);
        }
        let m: usize = 2 * nb - 1 - b;
        let zeta: i64 = -(table[m] as i64);
        let mut j: usize = start;
        while j < start + len
            invariant
                b < nb <= 128,
                0 < len <= 128,
                nb * (2 * len) == 256,
                start == b * (2 * len),
                start + 2 * len <= 256,
                start <= j <= start + len,
                m == 2 * nb - 1 - b,
                zeta == -table@[m as int],
                is_zeta_table(table@),
                ring::is_stride(len as int),
                sums_fit(a),
                summed(g, a, len as int),
                forall|p: int|
                    (0 <= p < j || start + len <= p < j + len) ==> modq::cong(
                        #[trigger] w@[p],
                        ring::ilayer_at(g, len as int, p),
                    ),
                forall|p: int|
                    (0 <= p < j || start + len <= p < j + len) ==> #[trigger] summed_at(
                        w@,
                        a,
                        2 * len as int,
                        p,
                    ),
                forall|p: int|
                    (j <= p < start + len || j + len <= p < 256) ==> #[trigger] w@[p] == g[p],
            decreases start + len - j,
        {
            let ghost before = w@;
            let hi: i32 = w.get(j + len);
            let lo: i32 = w.get(j);
            proof {
                lemma_block(len as int, nb as int, b as int, j as int);
                assert(0 <= table@[m as int] < 8380417);
                lemma_place(len as int, nb as int, b as int, j as int);
                assert(summed_at(g, a, len as int, j as int));
                assert(summed_at(g, a, len as int, j + len));
                if j == start {
                    assert(pair_fits(a, j as int, len as int));
                }
                lemma_product_range(zeta as int, lo - hi, 2147483648);
            }
            let d: i32 = lo - hi;
            let t: i32 = mont_reduce(zeta * (d as i64));
            proof {
                let tw = ring::twiddle(m as int);
                modq::lemma_cong_sub(0, 0, table@[m as int] as int, tw * 4294967296);
                assert((-tw) * 4294967296 == 0 - tw * 4294967296) by (nonlinear_arith);
                lemma_twiddle_product(t as int, zeta as int, -tw, d as int);
            }
            w.set(j, lo + hi);
            w.set(j + len, t);
            proof {
                assert(w@ == before.update(j as int, lo + hi).update(j + len, t as int));
                assert(modq::cong(w@[j as int], ring::ilayer_at(g, len as int, j as int)));
                assert(modq::cong(
                    w@[j + len],
                    ring::ilayer_at(g, len as int, j + len),
                ));
                assert forall|p: int|
                    (0 <= p < j + 1 || start + len <= p < j + 1 + len) implies #[trigger] summed_at(
                    w@,
                    a,
                    2 * len as int,
                    p,
                ) by {
                    if p != j && p != j + len {
                        assert(summed_at(before, a, 2 * len as int, p));
                    }
                }
            }
            j = j + 1;
        }
        proof {
            assert((b + 1) * (2 * len) == b * (2 * len) + 2 * len) by (nonlinear_arith);
        }
        start = start + 2 * len;
        b = b + 1;
    }
}

/// The lower place of a butterfly is a multiple of the stride where it starts
/// its block, and of twice the stride there only; the upper one never is.
proof fn lemma_place(len: int, nb: int, b: int, j: int)
    requires
        ring::is_stride(len),
        nb * (2 * len) == 256,
        0 <= b < nb,
        b * (2 * len) <= j < b * (2 * len) + len,
    ensures
        (j % len == 0) == (j == b * (2 * len)),
        (j % (2 * len) == 0) == (j == b * (2 * len)),
        ((j + len) % len == 0) == (j == b * (2 * len)),
        (j + len) % (2 * len) != 0,
{
    let s = b * (2 * len);
    lemma_fundamental_div_mod_converse(j, 2 * len, b, j - s);
    lemma_fundamental_div_mod_converse(j + len, 2 * len, b, j + len - s);
    assert(s == (2 * b) * len && s + len == (2 * b + 1) * len) by (nonlinear_arith)
        requires
            s == b * (2 * len),
    ;
    lemma_fundamental_div_mod_converse(j, len, 2 * b, j - s);
    lemma_fundamental_div_mod_converse(j + len, len, 2 * b + 1, j - s);
}

/// Inverse NTT in place (Alg 42), reduced to [0, q). It takes any coefficients
/// below q in magnitude, and any whose sums fit, as those that the forward
/// transform gives.
pub fn inv_ntt_inplace(w: &mut Poly)
    requires
        poly::within(old(w)@, -8380416, 8380416) || sums_fit(old(w)@),
    ensures
        final(w)@ == ring::inv_ntt(old(w)@),
        poly::within(final(w)@, 0, 8380416),
{
    let table = gen_zeta_table_mont();
    let ghost a = w@;
    let mut len: usize = 1;
    let mut nb: usize = 128;
    proof {
        if poly::within(a, -8380416, 8380416) {
            lemma_small_fit(a);
        }
        assert(summed(w@, a, 1));
    }
    while len < 256
        invariant
            is_zeta_table(table@),
            len == 256 || ring::is_stride(len as int),
            len < 256 ==> nb == blocks(len as int),
            sums_fit(a),
            summed(w@, a, len as int),
            ring::pcong(ring::inv_layers(w@, len as int), ring::inv_layers(a, 1)),
        decreases 256 - len,
    {
        let ghost y = w@;
        inverse_layer(w, &table, len, nb, Ghost(a));
        proof {
            ring::lemma_index(len as int, 0);
            ring::lemma_inv_layers_cong(w@, ring::ilayer(y, len as int), 2 * len as int);
            assert(ring::inv_layers(y, len as int) == ring::inv_layers(
                ring::ilayer(y, len as int),
                2 * len as int,
            ));
            ring::lemma_pcong_trans(
                ring::inv_layers(w@, 2 * len as int),
                ring::inv_layers(y, len as int),
                ring::inv_layers(a, 1),
            );
        }
        nb = nb / 2;
        len = len * 2;
    }
    let ghost v = w@;
    proof {
        assert(ring::inv_layers(v, 256) == v);
    }
    let mut n: usize = 0;
    while n < 256
        invariant
            n <= 256,
            ring::pcong(v, ring::inv_layers(a, 1)),
            forall|p: int| n <= p < 256 ==> #[trigger] w@[p] == v[p],
            forall|p: int| 0 <= p < n ==> #[trigger] w@[p] == ring::inv_ntt(a)[p],
            forall|p: int| 0 <= p < n ==> 0 <= #[trigger] w@[p] <= 8380416,
        decreases 256 - n,
    {
        let c: i32 = w.get(n);
        assert(c == v[n as int]);
        let t: i32 = mont_reduce(16_382 * (c as i64));
        proof {
            assert(modq::cong(16382, 8347681int * 4294967296int)) by {
                reveal(modq::res);
            }
            lemma_twiddle_product(t as int, 16382, 8347681, c as int);
            let u = ring::inv_layers(a, 1)[n as int];
            modq::lemma_cong_mul(8347681, 8347681, c as int, u);
        }
        w.set(n, full_reduce32(t));
        n = n + 1;
    }
    assert(w@ =~= ring::inv_ntt(a));
}

}
