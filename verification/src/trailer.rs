//! The 36-byte trailer that ends a sprite record: six `f32`s followed by
//! the six `i16`s they were derived from, x-like values divided by 16 and
//! y-like values by 11. A trailer is recognised when every float is finite
//! and lies within 0.15 of its short divided by its scale, as `f32`
//! arithmetic computes that.
//!
//! The test is decided here in integers, exactly: every quantity is scaled
//! by 2^149, so that each finite `f32` becomes an integer; `s / 11` is
//! rounded to the nearest `f32` (no ties occur); and the rounding of the
//! difference before it is compared with the `f32` nearest to 0.15
//! (10066330 * 2^-26) is folded into the bound: the rounded difference is
//! below that value exactly when the exact one is below
//! 20132659 * 2^-27.
use vstd::prelude::*;
use vstd::arithmetic::power2::{pow2, lemma2_to64, lemma_pow2_adds, lemma_pow2_unfold, lemma_pow2_pos, lemma_pow2_strictly_increases};
use crate::bytes::{le16, le32, read_le16, read_le32};

verus! {

/// Biased exponent field of the `f32` with these bits.
pub open spec fn f32_exponent(bits: int) -> int {
    (bits / 8388608) % 256
}

/// The value of the finite `f32` with these bits, times 2^149.
pub open spec fn f32_scaled(bits: int) -> int {
    let e = f32_exponent(bits);
    let m = bits % 8388608;
    let mag = if e == 0 { m } else { (m + 8388608) * pow2((e - 1) as nat) };
    if bits >= 2147483648 { -mag } else { mag }
}

/// The least `k >= from` with `a * 2^k >= 11 * 2^23` (searching up to 30).
pub open spec fn norm_k(a: int, k: nat) -> nat
    decreases 30 - k,
{
    if k >= 30 || a * pow2(k) >= 92274688 { k } else { norm_k(a, k + 1) }
}

/// `s / 11` rounded to the nearest `f32`, times 2^149.
pub open spec fn div11_scaled(s: int) -> int {
    if s == 0 {
        0
    } else {
        let a = if s < 0 { -s } else { s };
        let k = norm_k(a, 0);
        let mq = (2 * a * pow2(k) + 11) / 22;
        let v = mq * pow2((149 - k) as nat);
        if s < 0 { -v } else { v }
    }
}

/// `s / 16` (odd = false) or `s / 11` (odd = true) as `f32`, times 2^149.
pub open spec fn quotient_scaled(s: int, odd: bool) -> int {
    if odd { div11_scaled(s) } else { s * pow2(145) }
}

pub open spec fn abs(x: int) -> int {
    if x < 0 { -x } else { x }
}

/// The float with these bits is finite and within the tolerance of the
/// short's quotient.
pub open spec fn pair_ok(bits: int, s: int, odd: bool) -> bool {
    f32_exponent(bits) != 255 && abs(f32_scaled(bits) - quotient_scaled(s, odd)) < 20132659 * pow2(122)
}

/// The two's-complement reading of a `u16`.
pub open spec fn sext16(u: int) -> int {
    if u >= 32768 { u - 65536 } else { u }
}

/// The `i`-th float of the trailer against the `i`-th short.
pub open spec fn trailer_pair(t: Seq<u8>, i: int) -> bool {
    pair_ok(le32(t, 4 * i), sext16(le16(t, 24 + 2 * i)), i % 2 == 1)
}

/// Whether `t` is a record trailer.
pub open spec fn spec_is_trailer(t: Seq<u8>) -> bool {
    t.len() == 36 && forall|i: int| 0 <= i < 6 ==> #[trigger] trailer_pair(t, i)
}

fn pow2_exec(n: u64) -> (r: u64)
    requires
        n <= 32,
    ensures
        r == pow2(n as nat),
        r <= 4294967296,
{
    let mut r: u64 = 1;
    let mut k: u64 = 0;
    proof { lemma2_to64(); }
    while k < n
        invariant
            k <= n <= 32,
            r == pow2(k as nat),
            r <= 4294967296,
        decreases n - k,
    {
        proof {
            lemma_pow2_unfold((k + 1) as nat);
            lemma2_to64();
            if k + 1 < 32 { lemma_pow2_strictly_increases((k + 1) as nat, 32); }
        }
        r = r * 2;
        k = k + 1;
    }
    r
}

proof fn lemma_norm_k_step(a: int, k: nat)
    requires
        k < 30,
        a * pow2(k) < 92274688,
    ensures
        norm_k(a, k) == norm_k(a, k + 1),
{
}

/// The quotient in units of 2^122.
fn quotient_units(s: i16, odd: bool) -> (q: i64)
    ensures
        q * pow2(122) == quotient_scaled(s as int, odd),
        -549755813888 < q < 549755813888,
{
    proof { lemma2_to64(); lemma_pow2_adds(23, 122); }
    if !odd {
        let q = (s as i64) * 8388608;
        proof {
            assert(q * pow2(122) == (s as int) * pow2(145)) by (nonlinear_arith)
                requires q == (s as int) * 8388608, pow2(145) == 8388608 * pow2(122);
        }
        return q;
    }
    if s == 0 {
        return 0;
    }
    let a: u64 = if s < 0 { (-(s as i64)) as u64 } else { s as u64 };
    let mut k: u64 = 0;
    let mut p: u64 = 1;
    let mut prod: u64 = a;
    while k < 27 && prod < 92274688
        invariant
            1 <= a <= 32768,
            k <= 27,
            p == pow2(k as nat),
            p <= 134217728,
            prod == a * p,
            prod <= 32768 * 134217728,
            norm_k(a as int, 0) == norm_k(a as int, k as nat),
        decreases 27 - k,
    {
        proof {
            lemma_norm_k_step(a as int, k as nat);
            lemma_pow2_unfold((k + 1) as nat);
            lemma2_to64();
            if k + 1 < 27 { lemma_pow2_strictly_increases((k + 1) as nat, 27); }
            assert(prod * 2 == a * (p * 2)) by (nonlinear_arith) requires prod == a * p;
            assert(a * (p * 2) <= 32768 * 134217728) by (nonlinear_arith) requires a <= 32768, p * 2 <= 134217728;
        }
        k = k + 1;
        p = p * 2;
        prod = prod * 2;
    }
    proof {
        lemma2_to64();
        if k == 27 {
            assert(p == 134217728);
            assert(a * p >= 134217728) by (nonlinear_arith) requires a >= 1, p == 134217728;
        }
        assert(norm_k(a as int, k as nat) == k);
    }
    let mq = (2 * prod + 11) / 22;
    let up = pow2_exec(27 - k);
    proof {
        lemma_pow2_adds(k as nat, (27 - k) as nat);
        assert(p * up == 134217728);
        assert(mq * 22 <= 2 * a * p + 11) by (nonlinear_arith) requires mq == (2 * prod + 11) / 22, prod == a * p;
        assert(mq * up * 22 <= 2 * a * 134217728 + 11 * 134217728) by (nonlinear_arith)
            requires mq * 22 <= 2 * a * p + 11, p * up == 134217728, up <= 134217728, up >= 1;
        assert(mq * up < 549755813888) by (nonlinear_arith)
            requires mq * up * 22 <= 2 * a * 134217728 + 11 * 134217728, a <= 32768;
        lemma_pow2_adds((27 - k) as nat, 122);
        assert((27 - k) + 122 == 149 - k);
    }
    let v = (mq * up) as i64;
    proof {
        assert(v * pow2(122) == mq * pow2((149 - k) as nat)) by (nonlinear_arith)
            requires v == mq * up, up * pow2(122) == pow2((149 - k) as nat);
    }
    proof {
        assert(2 * (prod as int) == 2 * (a as int) * pow2(k as nat)) by (nonlinear_arith) requires prod == a * p, p == pow2(k as nat);
        assert(mq == (2 * (a as int) * pow2(k as nat) + 11) / 22);
        let vv = mq * pow2((149 - k) as nat);
        assert(div11_scaled(s as int) == (if s < 0 { -vv } else { vv }));
        assert((-v) * pow2(122) == -(v * pow2(122))) by (nonlinear_arith);
    }
    if s < 0 { -v } else { v }
}

proof fn lemma_scaled_order(n: int, r: int, d: int, c: int)
    requires
        d > 0,
        0 <= r < d,
    ensures
        (n * d + r < c * d) == (n < c),
        (c * d < n * d + r) == (if r > 0 { c <= n } else { c < n }),
{
    if n < c {
        assert(n * d + r < c * d) by (nonlinear_arith) requires n < c, 0 <= r < d, d > 0;
    } else {
        assert(n * d + r >= c * d) by (nonlinear_arith) requires n >= c, 0 <= r, d > 0;
    }
    if r > 0 {
        if c <= n {
            assert(c * d < n * d + r) by (nonlinear_arith) requires c <= n, r > 0, d > 0;
        } else {
            assert(c * d >= n * d + r) by (nonlinear_arith) requires c > n, r < d, d > 0;
        }
    } else {
        if c < n {
            assert(c * d < n * d) by (nonlinear_arith) requires c < n, d > 0;
        } else {
            assert(c * d >= n * d) by (nonlinear_arith) requires c >= n, d > 0;
        }
    }
}

proof fn lemma_mul_order(x: int, y: int, p: int)
    requires
        p > 0,
    ensures
        (x * p < y * p) == (x < y),
{
    if x < y {
        assert(x * p < y * p) by (nonlinear_arith) requires x < y, p > 0;
    } else {
        assert(x * p >= y * p) by (nonlinear_arith) requires x >= y, p > 0;
    }
}

/// `pair_ok` on exec values.
pub fn pair_check(bits: u32, s: i16, odd: bool) -> (ok: bool)
    ensures
        ok == pair_ok(bits as int, s as int, odd),
{
    let e = (bits / 8388608) % 256;
    let m = bits % 8388608;
    let neg = bits >= 2147483648;
    if e == 255 {
        return false;
    }
    let qn = quotient_units(s, odd);
    let lo: i64 = qn - 20132659;
    let hi: i64 = qn + 20132659;
    let ghost big_p: int = pow2(122) as int;
    let ghost f = f32_scaled(bits as int);
    let ghost q = quotient_scaled(s as int, odd);
    proof {
        lemma_pow2_pos(122);
        assert(pair_ok(bits as int, s as int, odd) == (lo * big_p < f && f < hi * big_p)) by (nonlinear_arith)
            requires q == qn * big_p, lo == qn - 20132659, hi == qn + 20132659,
                pair_ok(bits as int, s as int, odd) == (abs(f - q) < 20132659 * big_p);
    }
    if e >= 140 {
        proof {
            lemma2_to64();
            let mag = abs(f);
            lemma_pow2_adds(23, 139);
            lemma_pow2_adds(40, 122);
            lemma_pow2_adds(8, 32);
            assert(pow2(40) == 1099511627776);
            if e - 1 > 139 { lemma_pow2_strictly_increases(139, (e - 1) as nat); }
            assert(mag >= 8388608 * pow2(139)) by (nonlinear_arith)
                requires mag == ((bits % 8388608) + 8388608) * pow2((e - 1) as nat), pow2((e - 1) as nat) >= pow2(139), bits % 8388608 >= 0, pow2(139) >= 0;
            assert(mag >= 1099511627776 * big_p);
            assert(!(lo * big_p < f && f < hi * big_p)) by (nonlinear_arith)
                requires mag >= 1099511627776 * big_p, mag == abs(f), lo > -549755813888 - 20132659, hi < 549755813888 + 20132659, big_p > 0;
        }
        return false;
    }
    let mant: u64 = if e == 0 { m as u64 } else { m as u64 + 8388608 };
    let sh: u64 = if e == 0 { 0 } else { (e - 1) as u64 };
    let ghost fm = if neg { -(mant as int) } else { mant as int };
    proof {
        lemma2_to64();
        if e == 0 {
            assert(f == fm);
            assert(pow2(sh as nat) == 1);
        } else {
            let pe = pow2((e - 1) as nat) as int;
            assert(f == (if neg { -((mant as int) * pe) } else { (mant as int) * pe }));
            assert(f == fm * pe) by (nonlinear_arith)
                requires f == (if neg { -((mant as int) * pe) } else { (mant as int) * pe }),
                    fm == (if neg { -(mant as int) } else { mant as int });
        }
    }
    if sh >= 122 {
        let w = pow2_exec(sh - 122);
        proof {
            lemma2_to64();
            if sh - 122 < 16 { lemma_pow2_strictly_increases((sh - 122) as nat, 16); }
            assert(mant * w <= 16777216 * 65536) by (nonlinear_arith) requires mant < 16777216, w <= 65536;
        }
        let g = (mant * w) as i64;
        let v = if neg { -g } else { g };
        proof {
            lemma_pow2_adds((sh - 122) as nat, 122);
            assert(f == v * big_p) by (nonlinear_arith)
                requires f == fm * pow2(sh as nat), pow2(sh as nat) == w * big_p, g == mant * w,
                    v == (if neg { -(g as int) } else { g as int }), fm == (if neg { -(mant as int) } else { mant as int });
            lemma_mul_order(lo as int, v as int, big_p);
            lemma_mul_order(v as int, hi as int, big_p);
        }
        lo < v && v < hi
    } else {
        let d = 122 - sh;
        let (n, r) = if d >= 25 {
            (0u64, mant)
        } else {
            let pw = pow2_exec(d);
            proof { lemma_pow2_pos(d as nat); }
            (mant / pw, mant % pw)
        };
        let ghost dd: int = pow2(d as nat) as int;
        proof {
            lemma_pow2_pos(d as nat);
            if d >= 25 {
                lemma_pow2_strictly_increases(24, d as nat);
                assert(mant == 0 * dd + mant);
            } else {
                assert(mant == n * dd + r) by (nonlinear_arith)
                    requires n == (mant as int) / dd, r == (mant as int) % dd, dd > 0;
            }
            assert(0 <= r < dd);
            lemma_pow2_adds(sh as nat, d as nat);
            lemma_pow2_pos(sh as nat);
            let ps: int = pow2(sh as nat) as int;
            assert(big_p == ps * dd);
            assert((lo * big_p < f) == (lo * dd < fm)) by {
                assert(lo * big_p == (lo * dd) * ps) by (nonlinear_arith) requires big_p == ps * dd;
                lemma_mul_order(lo * dd, fm, ps);
            }
            assert((f < hi * big_p) == (fm < hi * dd)) by {
                assert(hi * big_p == (hi * dd) * ps) by (nonlinear_arith) requires big_p == ps * dd;
                lemma_mul_order(fm, hi * dd, ps);
            }
            lemma_scaled_order(n as int, r as int, dd, lo as int);
            lemma_scaled_order(n as int, r as int, dd, hi as int);
            lemma_scaled_order(n as int, r as int, dd, -hi);
            lemma_scaled_order(n as int, r as int, dd, -lo);
            assert((-hi) * dd == -(hi * dd)) by (nonlinear_arith);
            assert((-lo) * dd == -(lo * dd)) by (nonlinear_arith);
        }
        let ni = n as i64;
        if !neg {
            (if r > 0 { lo <= ni } else { lo < ni }) && ni < hi
        } else {
            (if r > 0 { -hi <= ni } else { -hi < ni }) && ni < -lo
        }
    }
}

/// Whether `t` is a record trailer.
pub fn is_trailer(t: &[u8]) -> (ok: bool)
    requires
        t@.len() == 36,
    ensures
        ok == spec_is_trailer(t@),
{
    let mut i: usize = 0;
    while i < 6
        invariant
            i <= 6,
            t@.len() == 36,
            forall|j: int| 0 <= j < i ==> #[trigger] trailer_pair(t@, j),
        decreases 6 - i,
    {
        let bits = read_le32(t, 4 * i);
        let u = read_le16(t, 24 + 2 * i);
        let s: i16 = if u >= 32768 { (u as i32 - 65536) as i16 } else { u as i16 };
        if !pair_check(bits, s, i % 2 == 1) {
            assert(!trailer_pair(t@, i as int));
            return false;
        }
        i = i + 1;
    }
    true
}

} // verus!
