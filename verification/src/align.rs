//! Alignment helpers and powers of two. Alignments are powers of two.

use vstd::arithmetic::div_mod::{lemma_fundamental_div_mod, lemma_mod_multiples_vanish};
use vstd::arithmetic::power2::{
    lemma2_to64, lemma_pow2_adds, lemma_pow2_pos, lemma_pow2_strictly_increases, lemma_pow2_unfold,
    pow2,
};
use vstd::bits::{lemma_u64_low_bits_mask_is_mod, lemma_u64_pow2_no_overflow, low_bits_mask};
use vstd::prelude::*;

verus! {

/// `x` is a power of two that fits in 64 bits.
pub open spec fn is_pow2(x: u64) -> bool {
    exists|n: nat| n < 64 && x == #[trigger] pow2(n)
}

/// The least `k` with `x <= 2^k`.
pub open spec fn ceil_log2(x: int) -> nat
    decreases x,
{
    if x <= 1 {
        0
    } else {
        1 + ceil_log2((x + 1) / 2)
    }
}

/// The least multiple of `align` that is not below `x`.
pub open spec fn up(x: int, align: int) -> int {
    ((x + align - 1) / align) * align
}

/// The greatest multiple of `align` that is not above `x`.
pub open spec fn down(x: int, align: int) -> int {
    (x / align) * align
}

/// `pow2(ceil_log2(x))` is the least power of two that is not below `x`.
pub proof fn lemma_ceil_log2(x: int)
    ensures
        x <= pow2(ceil_log2(x)),
        forall|k: nat| x <= #[trigger] pow2(k) ==> ceil_log2(x) <= k,
    decreases x,
{
    if x <= 1 {
        lemma_pow2_pos(0);
    } else {
        let h = (x + 1) / 2;
        lemma_ceil_log2(h);
        lemma_pow2_unfold(1 + ceil_log2(h));
        assert forall|k: nat| x <= #[trigger] pow2(k) implies ceil_log2(x) <= k by {
            lemma2_to64();
            if k > 0 {
                lemma_pow2_unfold(k);
                assert(h <= pow2((k - 1) as nat));
            }
        }
    }
}

/// `ceil_log2` is the only `k` for which `x` lies above `2^(k-1)` and not above `2^k`.
pub proof fn lemma_ceil_log2_unique(x: int, k: nat)
    requires
        x <= pow2(k),
        k == 0 || pow2((k - 1) as nat) < x,
    ensures
        ceil_log2(x) == k,
{
    lemma_ceil_log2(x);
    if k > 0 && ceil_log2(x) <= k - 1 {
        if ceil_log2(x) < k - 1 {
            lemma_pow2_strictly_increases(ceil_log2(x), (k - 1) as nat);
        }
    }
}

/// `ceil_log2` is monotone.
pub proof fn lemma_ceil_log2_monotone(x: int, y: int)
    requires
        x <= y,
    ensures
        ceil_log2(x) <= ceil_log2(y),
{
    lemma_ceil_log2(x);
    lemma_ceil_log2(y);
}

/// Rounding up gives the least multiple that is not below the argument.
pub proof fn lemma_up(x: int, align: int)
    requires
        align > 0,
    ensures
        up(x, align) % align == 0,
        x <= up(x, align) < x + align,
        x % align == 0 ==> up(x, align) == x,
{
    lemma_fundamental_div_mod(x + align - 1, align);
    let q = (x + align - 1) / align;
    let r = (x + align - 1) % align;
    assert(q * align == align * q) by (nonlinear_arith);
    lemma_mod_multiples_vanish(q, 0, align);
    if x % align == 0 {
        lemma_fundamental_div_mod(x, align);
        let p = x / align;
        assert((x + align - 1) / align == p) by (nonlinear_arith)
            requires
                x == align * p,
                align > 0,
        ;
        assert(p * align == align * p) by (nonlinear_arith);
    }
}

/// Rounding up gives the least multiple that is not below the argument, and
/// rounding down the greatest that is not above it.
pub proof fn law_rounding(x: int, align: int, multiple: int)
    requires
        align > 0,
        multiple % align == 0,
    ensures
        up(x, align) % align == 0,
        x <= up(x, align),
        x <= multiple ==> up(x, align) <= multiple,
        down(x, align) % align == 0,
        down(x, align) <= x,
        multiple <= x ==> multiple <= down(x, align),
{
    lemma_up(x, align);
    lemma_up(multiple, align);
    if x <= multiple {
        lemma_up_monotone(x, multiple, align);
    }
    let q = x / align;
    let m = multiple / align;
    lemma_fundamental_div_mod(x, align);
    lemma_fundamental_div_mod(multiple, align);
    lemma_mod_multiples_vanish(q, 0, align);
    assert(q * align == align * q) by (nonlinear_arith);
    if multiple <= x {
        assert(m <= q) by (nonlinear_arith)
            requires
                align > 0,
                align * m <= x,
                x < align * q + align,
        ;
        assert(align * m <= align * q) by (nonlinear_arith)
            requires
                align > 0,
                m <= q,
        ;
    }
}

/// `pow2(ceil_log2(x))` is a power of two that is not below `x`, and none of
/// those is less.
pub proof fn law_least_power_of_two(x: int, k: nat)
    ensures
        x <= pow2(ceil_log2(x)),
        x <= pow2(k) ==> pow2(ceil_log2(x)) <= pow2(k),
{
    lemma_ceil_log2(x);
    if x <= pow2(k) && ceil_log2(x) < k {
        lemma_pow2_strictly_increases(ceil_log2(x), k);
    }
}

/// Rounding up is monotone.
pub proof fn lemma_up_monotone(x: int, y: int, align: int)
    requires
        align > 0,
        x <= y,
    ensures
        up(x, align) <= up(y, align),
{
    let a = (x + align - 1) / align;
    let b = (y + align - 1) / align;
    assert(a <= b) by (nonlinear_arith)
        requires
            align > 0,
            x <= y,
            a == (x + align - 1) / align,
            b == (y + align - 1) / align,
    ;
    assert(a * align <= b * align) by (nonlinear_arith)
        requires
            a <= b,
            align > 0,
    ;
}

/// A multiple of a larger power of two is a multiple of a smaller one.
pub proof fn lemma_pow2_divides(a: nat, b: nat, x: int)
    requires
        a <= b,
        x % (pow2(b) as int) == 0,
    ensures
        x % (pow2(a) as int) == 0,
{
    lemma_pow2_pos(a);
    lemma_pow2_pos(b);
    lemma_pow2_adds(a, (b - a) as nat);
    lemma_fundamental_div_mod(x, pow2(b) as int);
    let q = x / (pow2(b) as int);
    let d = pow2((b - a) as nat) as int;
    assert(x == (d * q) * (pow2(a) as int)) by (nonlinear_arith)
        requires
            x == (pow2(b) as int) * q,
            pow2(b) as int == (pow2(a) as int) * d,
    ;
    lemma_mod_multiples_vanish(d * q, 0, pow2(a) as int);
    assert(pow2(a) as int * (d * q) == (d * q) * pow2(a) as int) by (nonlinear_arith);
}

/// Powers of two in order of size divide one another.
pub proof fn lemma_is_pow2_divides(a: u64, b: u64, x: int)
    requires
        is_pow2(a),
        is_pow2(b),
        a <= b,
        x % (b as int) == 0,
    ensures
        x % (a as int) == 0,
{
    let i = choose|n: nat| n < 64 && a == #[trigger] pow2(n);
    let j = choose|n: nat| n < 64 && b == #[trigger] pow2(n);
    if j < i {
        lemma_pow2_strictly_increases(j, i);
    }
    lemma_pow2_divides(i, j, x);
}

/// Bounds of a power of two that fits in 64 bits.
pub proof fn lemma_is_pow2_bounds(x: u64)
    requires
        is_pow2(x),
    ensures
        1 <= x <= 0x8000_0000_0000_0000,
{
    let n = choose|n: nat| n < 64 && x == #[trigger] pow2(n);
    lemma_pow2_bounds(n);
}

/// Bounds of `2^n` for an exponent below 64.
pub proof fn lemma_pow2_bounds(n: nat)
    requires
        n < 64,
    ensures
        1 <= pow2(n) <= 0x8000_0000_0000_0000,
{
    lemma_pow2_pos(n);
    lemma2_to64();
    lemma_pow2_unfold(64);
    if n < 63 {
        lemma_pow2_strictly_increases(n, 63);
    }
}

/// Masking with the complement of `align - 1` rounds down.
proof fn lemma_mask(x: u64, align: u64)
    requires
        is_pow2(align),
    ensures
        align >= 1,
        x & ((align - 1) as u64) == x % align,
        x & !((align - 1) as u64) == x - x % align,
        x - x % align == down(x as int, align as int),
{
    let n = choose|n: nat| n < 64 && align == #[trigger] pow2(n);
    lemma_pow2_pos(n);
    lemma_u64_low_bits_mask_is_mod(x, n);
    let m = (align - 1) as u64;
    assert(low_bits_mask(n) as u64 == m);
    assert((x & !m) + (x & m) == x) by (bit_vector);
    lemma_fundamental_div_mod(x as int, align as int);
    assert(align as int * (x as int / align as int) == (x as int / align as int) * align as int)
        by (nonlinear_arith);
}

/// The bit test for powers of two.
proof fn lemma_pow2_test(x: u64)
    requires
        x > 0,
    ensures
        x & ((x - 1) as u64) == 0 <==> is_pow2(x),
    decreases x,
{
    if x == 1 {
        lemma2_to64();
        assert(1u64 & 0u64 == 0u64) by (bit_vector);
        assert(x == pow2(0));
    } else {
        let h = x / 2;
        lemma_pow2_test(h);
        if x % 2 == 0 {
            assert(x & ((x - 1) as u64) == 0u64 <==> h & ((h - 1) as u64) == 0u64) by (bit_vector)
                requires
                    x > 1u64,
                    x % 2u64 == 0u64,
                    h == x / 2u64,
            ;
            if is_pow2(h) {
                let n = choose|n: nat| n < 64 && h == #[trigger] pow2(n);
                lemma_pow2_unfold(n + 1);
                if n == 63 {
                    lemma2_to64();
                }
                assert(x == pow2(n + 1));
            }
            if is_pow2(x) {
                let n = choose|n: nat| n < 64 && x == #[trigger] pow2(n);
                if n == 0 {
                    lemma2_to64();
                }
                lemma_pow2_unfold(n);
                assert(h == pow2((n - 1) as nat));
            }
        } else {
            assert(x & ((x - 1) as u64) != 0u64) by (bit_vector)
                requires
                    x > 1u64,
                    x % 2u64 == 1u64,
            ;
            if is_pow2(x) {
                let n = choose|n: nat| n < 64 && x == #[trigger] pow2(n);
                if n == 0 {
                    lemma2_to64();
                } else {
                    lemma_pow2_unfold(n);
                }
            }
        }
    }
}

/// Whether `x` is a power of two.
pub fn is_power_of_two(x: u64) -> (r: bool)
    ensures
        r == is_pow2(x),
{
    if x == 0 {
        proof {
            assert forall|n: nat| n < 64 implies x != #[trigger] pow2(n) by {
                lemma_pow2_pos(n);
            }
        }
        return false;
    }
    proof {
        lemma_pow2_test(x);
    }
    x & (x - 1) == 0
}

/// The exponent of the least power of two that is not below `x`, and that
/// power; `None` if it does not fit in 64 bits.
pub fn next_power_of_two(x: u64) -> (r: Option<(u64, u64)>)
    ensures
        r == (if ceil_log2(x as int) < 64 {
            Some((ceil_log2(x as int) as u64, pow2(ceil_log2(x as int)) as u64))
        } else {
            None
        }),
        r matches Some((k, p)) ==> k < 64 && p == pow2(k as nat) && k == ceil_log2(x as int)
            && x <= p,
{
    let mut k: u64 = 0;
    let mut p: u64 = 1;
    proof {
        lemma2_to64();
    }
    while p < x
        invariant
            k < 64,
            p == pow2(k as nat),
            k == 0 || pow2((k - 1) as nat) < x,
        decreases 64 - k,
    {
        proof {
            lemma_pow2_unfold((k + 1) as nat);
            lemma_ceil_log2(x as int);
            lemma2_to64();
        }
        if k == 63 {
            proof {
                if ceil_log2(x as int) < 63 {
                    lemma_pow2_strictly_increases(ceil_log2(x as int), 63);
                }
            }
            return None;
        }
        proof {
            lemma_u64_pow2_no_overflow((k + 1) as nat);
        }
        p = p * 2;
        k = k + 1;
    }
    proof {
        lemma_ceil_log2_unique(x as int, k as nat);
    }
    Some((k, p))
}

/// Round `x` up to the next multiple of `align`.
pub fn round_up(x: u64, align: u64) -> (r: u64)
    requires
        is_pow2(align),
        x + align - 1 <= u64::MAX,
    ensures
        r == up(x as int, align as int),
        r % align == 0,
        x <= r < x + align,
{
    proof {
        lemma_mask((x + align - 1) as u64, align);
        lemma_up(x as int, align as int);
    }
    (x + (align - 1)) & !(align - 1)
}

/// Round `x` down to the previous multiple of `align`.
pub fn round_down(x: u64, align: u64) -> (r: u64)
    requires
        is_pow2(align),
    ensures
        r == down(x as int, align as int),
        r % align == 0,
        r <= x < r + align,
{
    proof {
        lemma_mask(x, align);
        lemma_mod_multiples_vanish(x as int / align as int, 0, align as int);
        assert(align as int * (x as int / align as int) == (x as int / align as int)
            * align as int) by (nonlinear_arith);
    }
    x & !(align - 1)
}

/// Whether `x` is a multiple of `align`.
pub fn is_aligned(x: u64, align: u64) -> (r: bool)
    requires
        is_pow2(align),
    ensures
        r == (x % align == 0),
{
    proof {
        lemma_mask(x, align);
    }
    x & (align - 1) == 0
}

/// `ceil(x / y)`.
pub fn div_ceil(x: u64, y: u64) -> (r: u64)
    requires
        y > 0,
    ensures
        r == (x + y - 1) / (y as int),
{
    let q: u64 = x / y;
    let m: u64 = x % y;
    proof {
        lemma_fundamental_div_mod(x as int, y as int);
        assert((x + y - 1) / (y as int) == q + (if m > 0 { 1int } else { 0int }))
            by (nonlinear_arith)
            requires
                y > 0,
                x == y * q + m,
                0 <= m < y,
        ;
        assert(m > 0 ==> q < u64::MAX) by (nonlinear_arith)
            requires
                y > 0,
                x == y * q + m,
                0 <= m < y,
                x <= u64::MAX,
        ;
    }
    if m > 0 {
        q + 1
    } else {
        q
    }
}

/// The larger of two values.
pub fn max(a: u64, b: u64) -> (r: u64)
    ensures
        r == (if a >= b { a } else { b }),
{
    if a >= b {
        a
    } else {
        b
    }
}

/// `value` rounded up to a multiple of `align`, or `None` where the sum with
/// `align - 1` does not fit.
pub fn align_up(value: u64, align: u64) -> (r: Option<u64>)
    requires
        is_pow2(align),
    ensures
        r == (if value + align - 1 <= u64::MAX {
            Some(up(value as int, align as int) as u64)
        } else {
            None
        }),
        r matches Some(v) ==> v == up(value as int, align as int),
{
    proof {
        lemma_mask(0, align);
    }
    match value.checked_add(align - 1) {
        Some(_) => Some(round_up(value, align)),
        None => None,
    }
}

} // verus!
