//! IEEE-754 bit patterns of the floating-point quantities that the model carries.
use vstd::arithmetic::div_mod::{lemma_div_denominator, lemma_fundamental_div_mod};
use vstd::arithmetic::power2::{lemma_pow2_adds, lemma_pow2_pos, lemma_pow2_unfold, pow2};
use vstd::prelude::*;

verus! {

/// Bits of an IEEE-754 binary32 value.
pub type F32Bits = u32;

/// Bits of an IEEE-754 binary64 value.
pub type F64Bits = u64;

/// Biased exponent field of a binary32 pattern.
pub open spec fn f32_exponent(b: u32) -> int {
    (b as int / 0x80_0000) % 0x100
}

/// Fraction field of a binary32 pattern.
pub open spec fn f32_fraction(b: u32) -> int {
    b as int % 0x80_0000
}

/// Sign bit of a binary32 pattern.
pub open spec fn f32_sign(b: u32) -> int {
    b as int / 0x8000_0000
}

/// A binary32 pattern denotes a finite number (not an infinity, not a NaN).
pub open spec fn f32_is_finite(b: u32) -> bool {
    f32_exponent(b) != 0xff
}

/// Biased exponent field of a binary64 pattern.
pub open spec fn f64_exponent(b: u64) -> int {
    (b as int / 0x10_0000_0000_0000) % 0x800
}

/// Fraction field of a binary64 pattern.
pub open spec fn f64_fraction(b: u64) -> int {
    b as int % 0x10_0000_0000_0000
}

/// Sign bit of a binary64 pattern.
pub open spec fn f64_sign(b: u64) -> int {
    b as int / 0x8000_0000_0000_0000
}

/// A binary64 pattern denotes a NaN.
pub open spec fn f64_is_nan(b: u64) -> bool {
    f64_exponent(b) == 0x7ff && f64_fraction(b) != 0
}

/// A binary64 pattern denotes a finite number.
pub open spec fn f64_is_finite(b: u64) -> bool {
    f64_exponent(b) != 0x7ff
}

/// A binary64 pattern denotes a number strictly below zero (`-0.0` is not).
pub open spec fn f64_is_negative(b: u64) -> bool {
    f64_sign(b) == 1 && !f64_is_nan(b) && b as int % 0x8000_0000_0000_0000 != 0
}

/// A binary64 pattern denotes a number strictly above zero (`+inf` is one).
pub open spec fn f64_is_positive(b: u64) -> bool {
    f64_sign(b) == 0 && !f64_is_nan(b) && b != 0
}

/// A binary32 pattern denotes exactly the integer `n`: zero is `+0.0`, any other
/// integer is a normal number `(1 + f / 2^23) * 2^(e - 127)` with the sign of `n`.
pub open spec fn f32_denotes_int(b: u32, n: int) -> bool {
    if n == 0 {
        b == 0
    } else {
        &&& 0 < f32_exponent(b) < 0xff
        &&& f32_sign(b) == (if n < 0 { 1int } else { 0int })
        &&& (if n < 0 { -n } else { n }) * pow2(150) == (0x80_0000 + f32_fraction(b)) * pow2(
            f32_exponent(b) as nat,
        )
    }
}

/// A binary64 pattern denotes exactly the integer `n` (zero as `+0.0`).
pub open spec fn f64_denotes_int(b: u64, n: int) -> bool {
    if n == 0 {
        b == 0
    } else {
        &&& 0 < f64_exponent(b) < 0x7ff
        &&& f64_sign(b) == (if n < 0 { 1int } else { 0int })
        &&& (if n < 0 { -n } else { n }) * pow2(1075) == (0x10_0000_0000_0000 + f64_fraction(b))
            * pow2(f64_exponent(b) as nat)
    }
}

/// The magnitude of a finite binary64 pattern in units of `2^-1074`, the
/// smallest subnormal: `f` for a subnormal, `(2^52 + f) * 2^(e - 1)` for a
/// normal number.
pub open spec fn f64_scaled_magnitude(b: u64) -> nat {
    let e = f64_exponent(b);
    let f = f64_fraction(b);
    if e == 0 {
        f as nat
    } else {
        ((0x10_0000_0000_0000 + f) * pow2((e - 1) as nat)) as nat
    }
}

/// The pattern of the binary64 value 1e8.
pub const F64_ONE_E8: u64 = 0x4197_D784_0000_0000;

/// A finite binary64 pattern whose magnitude is at most that of `limit`.
pub open spec fn f64_abs_at_most(b: u64, limit: u64) -> bool {
    f64_is_finite(b) && f64_scaled_magnitude(b) <= f64_scaled_magnitude(limit)
}

proof fn lemma_magnitude_bounds(e: nat, f: nat)
    requires
        1 <= e,
        f < 0x10_0000_0000_0000,
    ensures
        pow2(52) * pow2((e - 1) as nat) <= (0x10_0000_0000_0000 + f) * pow2((e - 1) as nat),
        (0x10_0000_0000_0000 + f) * pow2((e - 1) as nat) < pow2(52) * pow2(e),
{
    lemma_pow2_adds(32, 20);
    vstd::arithmetic::power2::lemma2_to64();
    lemma_pow2_unfold(e);
    lemma_pow2_pos((e - 1) as nat);
    let p = pow2((e - 1) as nat);
    assert(pow2(52) * p <= (0x10_0000_0000_0000 + f) * p) by (nonlinear_arith)
        requires
            pow2(52) == 0x10_0000_0000_0000,
            p > 0,
    ;
    assert((0x10_0000_0000_0000 + f) * p < pow2(52) * (2 * p)) by (nonlinear_arith)
        requires
            pow2(52) == 0x10_0000_0000_0000,
            f < 0x10_0000_0000_0000,
            p > 0,
    ;
}

/// For finite patterns, comparing magnitudes is comparing the patterns with
/// the sign bit cleared.
proof fn lemma_magnitude_order(a: u64, b: u64)
    requires
        f64_is_finite(a),
        f64_is_finite(b),
    ensures
        f64_scaled_magnitude(a) <= f64_scaled_magnitude(b) <==> a as int % 0x8000_0000_0000_0000 <= b as int
            % 0x8000_0000_0000_0000,
{
    let ea = f64_exponent(a);
    let eb = f64_exponent(b);
    let fa = f64_fraction(a);
    let fb = f64_fraction(b);
    assert(a as int % 0x8000_0000_0000_0000 == ea * 0x10_0000_0000_0000 + fa) by (nonlinear_arith)
        requires
            ea == (a as int / 0x10_0000_0000_0000) % 0x800,
            fa == a as int % 0x10_0000_0000_0000,
            0 <= a < 0x1_0000_0000_0000_0000,
    ;
    assert(b as int % 0x8000_0000_0000_0000 == eb * 0x10_0000_0000_0000 + fb) by (nonlinear_arith)
        requires
            eb == (b as int / 0x10_0000_0000_0000) % 0x800,
            fb == b as int % 0x10_0000_0000_0000,
            0 <= b < 0x1_0000_0000_0000_0000,
    ;
    lemma_pow2_adds(32, 20);
    vstd::arithmetic::power2::lemma2_to64();
    if ea == eb {
        if ea > 0 {
            lemma_pow2_pos((ea - 1) as nat);
            let p = pow2((ea - 1) as nat);
            assert((0x10_0000_0000_0000 + fa) * p <= (0x10_0000_0000_0000 + fb) * p <==> fa <= fb) by (nonlinear_arith)
                requires
                    p > 0,
            ;
        }
    } else if ea < eb {
        lemma_magnitude_bounds(eb as nat, fb as nat);
        if ea > 0 {
            lemma_magnitude_bounds(ea as nat, fa as nat);
            if ea < eb - 1 {
                vstd::arithmetic::power2::lemma_pow2_strictly_increases(ea as nat, (eb - 1) as nat);
            }
            lemma_pow2_pos(ea as nat);
            assert(pow2(52) * pow2(ea as nat) <= pow2(52) * pow2((eb - 1) as nat)) by (nonlinear_arith)
                requires
                    pow2(ea as nat) <= pow2((eb - 1) as nat),
                    pow2(52) > 0,
            ;
        } else {
            lemma_pow2_pos((eb - 1) as nat);
            assert(pow2(52) <= pow2(52) * pow2((eb - 1) as nat)) by (nonlinear_arith)
                requires
                    pow2((eb - 1) as nat) >= 1,
                    pow2(52) > 0,
            ;
        }
    } else {
        lemma_magnitude_bounds(ea as nat, fa as nat);
        if eb > 0 {
            lemma_magnitude_bounds(eb as nat, fb as nat);
            if eb < ea - 1 {
                vstd::arithmetic::power2::lemma_pow2_strictly_increases(eb as nat, (ea - 1) as nat);
            }
            lemma_pow2_pos(eb as nat);
            assert(pow2(52) * pow2(eb as nat) <= pow2(52) * pow2((ea - 1) as nat)) by (nonlinear_arith)
                requires
                    pow2(eb as nat) <= pow2((ea - 1) as nat),
                    pow2(52) > 0,
            ;
        } else {
            lemma_pow2_pos((ea - 1) as nat);
            assert(pow2(52) <= pow2(52) * pow2((ea - 1) as nat)) by (nonlinear_arith)
                requires
                    pow2((ea - 1) as nat) >= 1,
                    pow2(52) > 0,
            ;
        }
    }
}

/// Whether a binary64 pattern is finite with magnitude at most that of `limit`.
pub fn f64_bits_abs_at_most(b: u64, limit: u64) -> (r: bool)
    requires
        f64_is_finite(limit),
    ensures
        r == f64_abs_at_most(b, limit),
{
    if !f64_bits_is_finite(b) {
        return false;
    }
    proof {
        lemma_magnitude_order(b, limit);
    }
    b % 0x8000_0000_0000_0000 <= limit % 0x8000_0000_0000_0000
}

/// Whether a binary32 pattern denotes a finite number.
pub fn f32_bits_is_finite(b: u32) -> (r: bool)
    ensures
        r == f32_is_finite(b),
{
    (b / 0x80_0000) % 0x100 != 0xff
}

/// Whether a binary64 pattern denotes a finite number.
pub fn f64_bits_is_finite(b: u64) -> (r: bool)
    ensures
        r == f64_is_finite(b),
{
    (b / 0x10_0000_0000_0000) % 0x800 != 0x7ff
}

/// Whether a binary64 pattern denotes a NaN.
pub fn f64_bits_is_nan(b: u64) -> (r: bool)
    ensures
        r == f64_is_nan(b),
{
    (b / 0x10_0000_0000_0000) % 0x800 == 0x7ff && b % 0x10_0000_0000_0000 != 0
}

/// Whether a binary64 pattern denotes a number below zero.
pub fn f64_bits_is_negative(b: u64) -> (r: bool)
    ensures
        r == f64_is_negative(b),
{
    b / 0x8000_0000_0000_0000 == 1 && !f64_bits_is_nan(b) && b % 0x8000_0000_0000_0000 != 0
}

/// Whether a binary64 pattern denotes a number above zero.
pub fn f64_bits_is_positive(b: u64) -> (r: bool)
    ensures
        r == f64_is_positive(b),
{
    b / 0x8000_0000_0000_0000 == 0 && !f64_bits_is_nan(b) && b != 0
}

proof fn lemma_shift_exponent(a: int, k: nat, e: nat, total: nat)
    requires
        e + k == total,
    ensures
        (a * pow2(k)) * pow2(e) == a * pow2(total),
{
    lemma_pow2_adds(k, e);
    assert((a * pow2(k)) * pow2(e) == a * (pow2(k) * pow2(e))) by (nonlinear_arith);
}

/// The binary32 pattern of a small integer, which binary32 holds exactly.
pub fn f32_bits_of_int(n: i64) -> (b: u32)
    requires
        -0x100_0000 < n < 0x100_0000,
    ensures
        f32_denotes_int(b, n as int),
{
    if n == 0 {
        return 0;
    }
    let neg = n < 0;
    let a: u64 = if neg { (0 - n) as u64 } else { n as u64 };
    let mut m: u64 = a;
    let mut k: u64 = 0;
    proof {
        vstd::arithmetic::power2::lemma2_to64();
    }
    while m < 0x80_0000
        invariant
            1 <= a < 0x100_0000,
            m == a * pow2(k as nat),
            a <= m < 0x100_0000,
            pow2(k as nat) <= m,
            k <= 24,
        decreases 0x100_0000 - m,
    {
        proof {
            lemma_pow2_adds(k as nat, 1);
            vstd::arithmetic::power2::lemma2_to64();
            assert(a * pow2((k + 1) as nat) == (a * pow2(k as nat)) * 2) by (nonlinear_arith)
                requires
                    pow2((k + 1) as nat) == pow2(k as nat) * 2,
            ;
            if k >= 23 {
                if k > 23 {
                    vstd::arithmetic::power2::lemma_pow2_strictly_increases(23, k as nat);
                }
                assert(false);
            }
        }
        m = m * 2;
        k = k + 1;
    }
    proof {
        vstd::arithmetic::power2::lemma2_to64();
        if k > 23 {
            if k > 24 {
                vstd::arithmetic::power2::lemma_pow2_strictly_increases(24, k as nat);
            }
            assert(false);
        }
    }
    let e: u64 = 150 - k;
    let f: u64 = m - 0x80_0000;
    let sign: u64 = if neg { 0x8000_0000 } else { 0 };
    let r: u64 = sign + e * 0x80_0000 + f;
    proof {
        lemma_shift_exponent(a as int, k as nat, e as nat, 150);
        assert(r / 0x80_0000 == (if neg { 256int } else { 0int }) + e) by (nonlinear_arith)
            requires
                r == sign + e * 0x80_0000 + f,
                f < 0x80_0000,
                sign == (if neg { 0x8000_0000int } else { 0int }),
        ;
        assert(r % 0x80_0000 == f) by (nonlinear_arith)
            requires
                r == sign + e * 0x80_0000 + f,
                f < 0x80_0000,
                sign == (if neg { 0x8000_0000int } else { 0int }),
        ;
    }
    r as u32
}

/// The binary64 pattern of a non-zero integer below `2^53` in magnitude:
/// the sign, the exponent that puts the leading digit at bit 52, and the
/// digits after it; `+0.0` for zero.
pub open spec fn f64_int_bits(n: int) -> u64 {
    if n == 0 {
        0
    } else {
        let a: nat = (if n < 0 { -n } else { n }) as nat;
        let k: nat = (53 - bit_length(a)) as nat;
        ((if n < 0 { 0x8000_0000_0000_0000int } else { 0int }) + (1075 - k) * 0x10_0000_0000_0000 + (a
            * pow2(k) - 0x10_0000_0000_0000)) as u64
    }
}

/// The binary64 pattern of an integer that binary64 holds exactly.
pub fn f64_bits_of_int(n: i64) -> (b: u64)
    requires
        -0x20_0000_0000_0000 < n < 0x20_0000_0000_0000,
    ensures
        f64_denotes_int(b, n as int),
        b == f64_int_bits(n as int),
{
    if n == 0 {
        return 0;
    }
    let neg = n < 0;
    let a: u64 = if neg { (0 - n) as u64 } else { n as u64 };
    let mut m: u64 = a;
    let mut k: u64 = 0;
    proof {
        vstd::arithmetic::power2::lemma2_to64();
    }
    while m < 0x10_0000_0000_0000
        invariant
            1 <= a < 0x20_0000_0000_0000,
            m == a * pow2(k as nat),
            a <= m < 0x20_0000_0000_0000,
            pow2(k as nat) <= m,
            k <= 53,
        decreases 0x20_0000_0000_0000 - m,
    {
        proof {
            lemma_pow2_adds(k as nat, 1);
            vstd::arithmetic::power2::lemma2_to64();
            assert(a * pow2((k + 1) as nat) == (a * pow2(k as nat)) * 2) by (nonlinear_arith)
                requires
                    pow2((k + 1) as nat) == pow2(k as nat) * 2,
            ;
            if k >= 52 {
                lemma_pow2_adds(32, 20);
                if k > 52 {
                    vstd::arithmetic::power2::lemma_pow2_strictly_increases(52, k as nat);
                }
                assert(false);
            }
        }
        m = m * 2;
        k = k + 1;
    }
    proof {
        vstd::arithmetic::power2::lemma2_to64();
        if k > 52 {
            lemma_pow2_adds(32, 21);
            if k > 53 {
                vstd::arithmetic::power2::lemma_pow2_strictly_increases(53, k as nat);
            }
            assert(false);
        }
    }
    proof {
        let lo = (52 - k) as nat;
        lemma_pow2_adds(lo, k as nat);
        lemma_pow2_adds(lo + 1, k as nat);
        lemma_pow2_adds(32, 20);
        lemma_pow2_adds(32, 21);
        lemma_pow2_pos(k as nat);
        let p = pow2(k as nat);
        assert(pow2(lo) <= a < pow2(lo + 1)) by (nonlinear_arith)
            requires
                m == a * p,
                0x10_0000_0000_0000 <= m < 0x20_0000_0000_0000,
                pow2(lo) * p == 0x10_0000_0000_0000,
                pow2(lo + 1) * p == 0x20_0000_0000_0000,
                p > 0,
        ;
        lemma_bit_length(a as nat, lo + 1);
    }
    let e: u64 = 1075 - k;
    let f: u64 = m - 0x10_0000_0000_0000;
    let sign: u64 = if neg { 0x8000_0000_0000_0000 } else { 0 };
    let r: u64 = sign + e * 0x10_0000_0000_0000 + f;
    proof {
        lemma_shift_exponent(a as int, k as nat, e as nat, 1075);
        assert(r / 0x10_0000_0000_0000 == (if neg { 2048int } else { 0int }) + e) by (nonlinear_arith)
            requires
                r == sign + e * 0x10_0000_0000_0000 + f,
                f < 0x10_0000_0000_0000,
                sign == (if neg { 0x8000_0000_0000_0000int } else { 0int }),
        ;
        assert(r % 0x10_0000_0000_0000 == f) by (nonlinear_arith)
            requires
                r == sign + e * 0x10_0000_0000_0000 + f,
                f < 0x10_0000_0000_0000,
                sign == (if neg { 0x8000_0000_0000_0000int } else { 0int }),
        ;
    }
    r
}

/// Number of binary digits of `n` (0 for 0).
pub open spec fn bit_length(n: nat) -> nat
    decreases n,
{
    if n == 0 {
        0
    } else {
        1 + bit_length(n / 2)
    }
}

/// How many low binary digits of `n` binary32 cannot keep (its significand has 24).
pub open spec fn f32_grid_shift(n: nat) -> nat {
    if bit_length(n) > 24 {
        (bit_length(n) - 24) as nat
    } else {
        0
    }
}

/// The binary32 value nearest to the natural number `n`, ties to the even
/// significand: the conversion `n as f32`.
pub open spec fn f32_round_nat(n: nat) -> nat {
    let s = f32_grid_shift(n);
    let q = n / pow2(s);
    let r = n % pow2(s);
    let up = 2 * r > pow2(s) || (2 * r == pow2(s) && q % 2 == 1);
    (if up { q + 1 } else { q }) * pow2(s)
}

/// A number between `2^(k-1)` and `2^k` has `k` binary digits.
proof fn lemma_bit_length(m: nat, k: nat)
    requires
        k >= 1,
        pow2((k - 1) as nat) <= m < pow2(k),
    ensures
        bit_length(m) == k,
    decreases k,
{
    lemma_pow2_unfold(k);
    if k > 1 {
        lemma_pow2_unfold((k - 1) as nat);
        lemma_bit_length(m / 2, (k - 1) as nat);
    } else {
        vstd::arithmetic::power2::lemma2_to64();
        assert(m == 1);
        assert(bit_length(0) == 0);
    }
}

/// A number below `2^k` has at most `k` binary digits.
proof fn lemma_bit_length_below(m: nat, k: nat)
    requires
        m < pow2(k),
    ensures
        bit_length(m) <= k,
    decreases k,
{
    if m > 0 {
        if k == 0 {
            vstd::arithmetic::power2::lemma2_to64();
        } else {
            lemma_pow2_unfold(k);
            lemma_bit_length_below(m / 2, (k - 1) as nat);
        }
    }
}

/// The binary32 pattern of `n as f32` and the integer that it denotes.
pub fn f32_bits_of_nat_rounded(n: u128) -> (res: (u32, u128))
    requires
        n < 0x10_0000_0000_0000_0000_0000_0000,
    ensures
        res.1 == f32_round_nat(n as nat),
        res.1 <= 2 * n + 1,
        f32_denotes_int(res.0, res.1 as int),
{
    proof {
        vstd::arithmetic::power2::lemma2_to64();
    }
    let mut m: u128 = n;
    let mut s: u32 = 0;
    let mut p: u128 = 1;
    while m >= 0x100_0000
        invariant
            n < 0x10_0000_0000_0000_0000_0000_0000,
            p == pow2(s as nat),
            m == n as nat / pow2(s as nat),
            m >= 1 ==> bit_length(n as nat) == bit_length(m as nat) + s,
            s > 0 ==> m >= 0x80_0000,
            m as nat * pow2(s as nat) <= n,
            s <= 76,
        decreases m,
    {
        proof {
            lemma_pow2_unfold((s + 1) as nat);
            lemma_pow2_pos(s as nat);
            lemma_div_denominator(n as int, pow2(s as nat) as int, 2);
            assert((m / 2) as nat * pow2((s + 1) as nat) <= n) by (nonlinear_arith)
                requires
                    m as nat * pow2(s as nat) <= n,
                    pow2((s + 1) as nat) == 2 * pow2(s as nat),
            ;
            assert(p * 0x100_0000 <= n) by (nonlinear_arith)
                requires
                    m as nat * pow2(s as nat) <= n,
                    p == pow2(s as nat),
                    m >= 0x100_0000,
            ;
            if s >= 76 {
                vstd::arithmetic::power2::lemma2_to64();
                assert(pow2(64) == 0x1_0000_0000_0000_0000);
                assert(pow2(12) == 0x1000);
                lemma_pow2_adds(64, 12);
                assert(pow2(76) == 0x1000_0000_0000_0000_0000);
                if s > 76 {
                    vstd::arithmetic::power2::lemma_pow2_strictly_increases(76, s as nat);
                }
                assert(false);
            }
        }
        m = m / 2;
        s = s + 1;
        p = p * 2;
    }
    let ghost shift = f32_grid_shift(n as nat);
    proof {
        if n == 0 {
            assert(bit_length(0) == 0);
        } else {
            lemma_pow2_pos(s as nat);
            assert(m >= 1) by (nonlinear_arith)
                requires
                    m == n as nat / pow2(s as nat),
                    n >= 1,
                    s == 0 || m >= 0x80_0000,
                    s == 0 ==> pow2(s as nat) == 1,
            ;
            if s == 0 {
                lemma_bit_length_below(m as nat, 24);
            } else {
                lemma_bit_length(m as nat, 24);
            }
        }
        assert(shift == s);
    }
    let q: u128 = m;
    let r: u128 = n - q * p;
    proof {
        lemma_pow2_pos(s as nat);
        lemma_fundamental_div_mod(n as int, p as int);
        assert(r == n as nat % pow2(s as nat));
    }
    proof {
        assert(q * p <= n);
        lemma_pow2_pos(s as nat);
        assert((q + 1) * p <= 2 * n + 1) by (nonlinear_arith)
            requires
                q * p <= n,
                p >= 1,
                q >= 1 || p == 1,
        ;
    }
    let up = 2 * r > p || (2 * r == p && q % 2 == 1);
    let qq: u128 = if up { q + 1 } else { q };
    let value: u128 = qq * p;
    if s == 0 {
        proof {
            assert(r == 0);
            assert(qq == n);
        }
        let b = f32_bits_of_int(qq as i64);
        return (b, value);
    }
    let mant: u128 = if qq == 0x100_0000 { 0x80_0000 } else { qq };
    let e: u128 = if qq == 0x100_0000 { 151 + s as u128 } else { 150 + s as u128 };
    let bits: u128 = e * 0x80_0000 + (mant - 0x80_0000);
    proof {
        let t: nat = if qq == 0x100_0000 { (s + 1) as nat } else { s as nat };
        lemma_pow2_unfold((s + 1) as nat);
        if qq == 0x100_0000 {
            assert(value as nat == mant as nat * pow2(t)) by (nonlinear_arith)
                requires
                    value == qq * p,
                    qq == 0x100_0000,
                    mant == 0x80_0000,
                    p == pow2(s as nat),
                    t == s + 1,
                    pow2((s + 1) as nat) == 2 * pow2(s as nat),
            ;
        } else {
            assert(value as nat == mant as nat * pow2(t));
        }
        lemma_pow2_adds(t, 150);
        assert(e == 150 + t);
        assert((value as int) * pow2(150) == mant as nat * pow2(e as nat)) by (nonlinear_arith)
            requires
                value as nat == mant as nat * pow2(t),
                pow2(t) * pow2(150) == pow2(e as nat),
        ;
        assert(bits / 0x80_0000 == e) by (nonlinear_arith)
            requires
                bits == e * 0x80_0000 + (mant - 0x80_0000),
                0x80_0000 <= mant < 0x100_0000,
        ;
        assert(bits % 0x80_0000 == mant - 0x80_0000) by (nonlinear_arith)
            requires
                bits == e * 0x80_0000 + (mant - 0x80_0000),
                0x80_0000 <= mant < 0x100_0000,
        ;
        assert(bits < 0x8000_0000);
        assert(f32_exponent(bits as u32) == e);
        assert(f32_sign(bits as u32) == 0);
        assert(f32_fraction(bits as u32) == mant - 0x80_0000);
        assert(value > 0) by (nonlinear_arith)
            requires
                value == qq * p,
                qq >= 0x80_0000,
                p >= 1,
        ;
        assert((value as int) * pow2(150) == (0x80_0000 + f32_fraction(bits as u32)) * pow2(f32_exponent(bits as u32) as nat));
    }
    (bits as u32, value)
}


/// binary32 holds every natural number below `2^24` exactly.
pub proof fn lemma_f32_round_small(n: nat)
    requires
        n < 0x100_0000,
    ensures
        f32_round_nat(n) == n,
{
    vstd::arithmetic::power2::lemma2_to64();
    lemma_bit_length_below(n, 24);
    assert(f32_grid_shift(n) == 0);
    assert(pow2(0) == 1);
}

} // verus!
