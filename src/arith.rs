//! Ceiling division, base-two logarithms, masks and bit splits.
use vstd::prelude::*;

verus! {

use vstd::arithmetic::power2::{pow2, lemma2_to64, lemma2_to64_rest, lemma_pow2_pos, lemma_pow2_unfold, lemma_pow2_strictly_increases};
use vstd::bits::{lemma_u64_shl_is_mul, lemma_u64_shr_is_div, lemma_usize_shl_is_mul, lemma_usize_shr_is_div, lemma_usize_low_bits_mask_is_mod, low_bits_mask};
use vstd::layout::unsigned_int_max_values;
use vstd::std_specs::bits::{axiom_u64_trailing_zeros, axiom_u64_leading_zeros, u64_trailing_zeros, u64_leading_zeros};

/// Computes `ceil(a / b)`: the least `r` with `r * b >= a`.
pub fn ceil_div_usize(a: usize, b: usize) -> (r: usize)
    requires
        b > 0,
        a + b <= usize::MAX,
    ensures
        a <= r * b < a + b,
{
    let r = (a + b - 1) / b;
    proof {
        let q = (a + b - 1) as int;
        assert(r * b <= q < r * b + b) by (nonlinear_arith)
            requires
                r == q / (b as int),
                b > 0,
        ;
    }
    r
}

/// `n` is `2^k` for some `k`.
pub open spec fn is_power_of_two(n: nat) -> bool {
    exists|k: nat| #[trigger] pow2(k) == n
}

/// `floor(log2(n))`, and `0` for `n <= 1`.
pub open spec fn log2(n: nat) -> nat
    decreases n,
{
    if n <= 1 {
        0
    } else {
        1 + log2(n / 2)
    }
}

/// The logarithm of a power of two is its exponent.
pub proof fn lemma_log2_pow2(k: nat)
    ensures
        log2(pow2(k)) == k,
    decreases k,
{
    if k > 0 {
        lemma_pow2_unfold(k);
        lemma_pow2_pos((k - 1) as nat);
        lemma_log2_pow2((k - 1) as nat);
    } else {
        lemma2_to64();
    }
}

/// Every power of two that fits in a `usize` has an exponent below the word size.
pub(crate) proof fn lemma_pow2_fits_usize(k: nat)
    requires
        pow2(k) <= usize::MAX,
    ensures
        k < usize::BITS,
{
    unsigned_int_max_values();
    if k >= usize::BITS {
        if k > usize::BITS {
            lemma_pow2_strictly_increases(usize::BITS as nat, k);
        }
    }
}

/// The word size is at most 64 bits.
pub(crate) proof fn lemma_usize_bits_le_64()
    ensures
        usize::BITS <= 64,
        usize::MAX <= u64::MAX,
{
    unsigned_int_max_values();
    lemma2_to64();
    lemma2_to64_rest();
    if usize::BITS > 64 {
        lemma_pow2_strictly_increases(64, usize::BITS as nat);
    }
}

/// A nonzero `x` is a power of two exactly when shifting out its trailing zeros leaves `1`,
/// and then the number of trailing zeros is its exponent.
pub(crate) proof fn lemma_trailing_zeros_power_of_two(x: u64)
    ensures
        is_power_of_two(x as nat) <==> (x != 0 && x >> (u64_trailing_zeros(x) as u64) == 1),
        is_power_of_two(x as nat) ==> pow2(u64_trailing_zeros(x) as nat) == x && u64_trailing_zeros(x) < 64,
{
    axiom_u64_trailing_zeros(x);
    let tu = u64_trailing_zeros(x) as u64;
    lemma2_to64();
    lemma2_to64_rest();
    if is_power_of_two(x as nat) {
        let k = choose|k: nat| #[trigger] pow2(k) == x;
        if k >= 64 {
            if k > 64 {
                lemma_pow2_strictly_increases(64, k);
            }
        }
        let ku = k as u64;
        lemma_pow2_pos(k);
        lemma_u64_shl_is_mul(1, ku);
        assert(pow2(k) == 1 * pow2(k));
        assert(x == 1u64 << ku);
        assert(tu == ku && x >> tu == 1) by (bit_vector)
            requires
                x == 1u64 << ku,
                ku < 64,
                tu < 64,
                (x >> tu) & 1u64 == 1u64,
        ;
    }
    if x != 0 && x >> tu == 1 {
        assert(x == 1u64 << tu) by (bit_vector)
            requires
                x >> tu == 1,
                tu < 64,
                x << vstd::prelude::sub(64, tu) == 0,
        ;
        lemma_u64_shl_is_mul(1, tu);
        assert(pow2(tu as nat) == 1 * pow2(tu as nat));
        assert(pow2(tu as nat) == x as nat);
    }
}

/// Computes `log2(n)` of a power of two `n`.
pub fn log2_strict_usize(n: usize) -> (r: usize)
    requires
        is_power_of_two(n as nat),
    ensures
        pow2(r as nat) == n,
        r == log2(n as nat),
{
    let t = (n as u64).trailing_zeros();
    proof {
        lemma_usize_bits_le_64();
        lemma_trailing_zeros_power_of_two(n as u64);
        lemma_log2_pow2(t as nat);
    }
    t as usize
}

/// For `r = 64 - leading_zeros(n - 1)` (with `n - 1` saturating at zero), `r` is the least
/// exponent with `2^r >= n`.
proof fn lemma_leading_zeros_log2_ceil(n: u64)
    ensures
        u64_leading_zeros(if n == 0 { 0u64 } else { (n - 1) as u64 }) <= 64,
        ({
            let r = (64 - u64_leading_zeros(if n == 0 { 0u64 } else { (n - 1) as u64 })) as nat;
            pow2(r) >= n && (r > 0 ==> pow2((r - 1) as nat) < n)
        }),
{
    let m: u64 = if n == 0 { 0u64 } else { (n - 1) as u64 };
    axiom_u64_leading_zeros(m);
    let lz = u64_leading_zeros(m) as u64;
    let r = (64 - lz) as u64;
    lemma2_to64();
    lemma2_to64_rest();
    if r < 64 {
        assert(m >> r == 0);
        lemma_u64_shr_is_div(m, r);
        lemma_pow2_pos(r as nat);
        assert(m < pow2(r as nat)) by (nonlinear_arith)
            requires
                m as nat / pow2(r as nat) == 0,
                pow2(r as nat) > 0,
        ;
    }
    if r > 0 {
        let s = (r - 1) as u64;
        assert(s == vstd::prelude::sub(63u64, lz));
        assert((m >> s) & 1u64 != 0u64);
        assert(m >> s >= 1) by (bit_vector)
            requires
                (m >> s) & 1u64 != 0u64,
        ;
        lemma_u64_shr_is_div(m, s);
        lemma_pow2_pos(s as nat);
        assert(m >= pow2(s as nat)) by (nonlinear_arith)
            requires
                m as nat / pow2(s as nat) >= 1,
                pow2(s as nat) > 0,
        ;
    }
}

/// Computes `ceil(log2(n))`: the least `r` with `2^r >= n` (so `0` for `n <= 1`).
pub fn log2_ceil_usize(n: usize) -> (r: usize)
    ensures
        pow2(r as nat) >= n,
        r > 0 ==> pow2((r - 1) as nat) < n,
{
    proof {
        lemma_usize_bits_le_64();
        lemma_leading_zeros_log2_ceil(n as u64);
    }
    (64 - (n as u64).saturating_sub(1).leading_zeros()) as usize
}

/// Computes `ceil(log2(n))`: the least `r` with `2^r >= n` (so `0` for `n <= 1`).
pub fn log2_ceil_u64(n: u64) -> (r: u64)
    ensures
        pow2(r as nat) >= n,
        r > 0 ==> pow2((r - 1) as nat) < n,
{
    proof {
        lemma_leading_zeros_log2_ceil(n);
    }
    (64 - n.saturating_sub(1).leading_zeros()) as u64
}

/// Every `usize` lies below `2^BITS`, and `2^n` fits for `n` below the word size.
proof fn lemma_usize_pow2_bounds(n: nat)
    ensures
        usize::MAX == pow2(usize::BITS as nat) - 1,
        n < usize::BITS ==> pow2(n) <= usize::MAX,
{
    unsigned_int_max_values();
    if n < usize::BITS {
        lemma_pow2_strictly_increases(n, usize::BITS as nat);
    }
}

/// Returns the value whose low `n_bits` bits are set and all others clear: `2^n_bits - 1`,
/// which is every bit when `n_bits` is the word size.
pub fn bitmask(n_bits: usize) -> (r: usize)
    requires
        n_bits <= usize::BITS,
    ensures
        r == pow2(n_bits as nat) - 1,
        n_bits == usize::BITS ==> r == usize::MAX,
{
    proof {
        lemma_usize_pow2_bounds(n_bits as nat);
    }
    if n_bits >= usize::BITS as usize {
        usize::MAX
    } else {
        proof {
            lemma_usize_shl_is_mul(1, n_bits);
            assert(pow2(n_bits as nat) == 1 * pow2(n_bits as nat));
            lemma_pow2_pos(n_bits as nat);
        }
        (1usize << n_bits) - 1
    }
}

/// Splits `x` at bit `n` into its high part `x >> n` and its low `n` bits `x & bitmask(n)`.
pub fn split_bits(x: usize, n: usize) -> (r: (usize, usize))
    requires
        n <= usize::BITS,
    ensures
        r.0 == x as nat / pow2(n as nat),
        r.1 == x as nat % pow2(n as nat),
        r.1 == x & ((pow2(n as nat) - 1) as usize),
        n < usize::BITS ==> r.0 == x >> n,
{
    let mask = bitmask(n);
    proof {
        lemma_usize_pow2_bounds(n as nat);
        lemma_pow2_pos(n as nat);
    }
    if n >= usize::BITS as usize {
        proof {
            assert(mask == usize::MAX);
            let h = (n - 1) as usize;
            let top = 1usize << h;
            lemma_usize_pow2_bounds(h as nat);
            lemma_usize_shl_is_mul(1, h);
            assert(pow2(h as nat) == 1 * pow2(h as nat));
            lemma_pow2_unfold(n as nat);
            assert(mask == top - 1 + top);
            let b = usize::BITS as usize;
            assert(x & mask == x) by (bit_vector)
                requires
                    b == usize::BITS,
                    h + 1 == b,
                    top == 1usize << h,
                    mask == top - 1 + top,
            ;
            vstd::arithmetic::div_mod::lemma_small_mod(x as nat, pow2(n as nat));
            vstd::arithmetic::div_mod::lemma_basic_div(x as int, pow2(n as nat) as int);
        }
        (0, x & mask)
    } else {
        proof {
            lemma_usize_shr_is_div(x, n);
            lemma_usize_low_bits_mask_is_mod(x, n as nat);
            assert(low_bits_mask(n as nat) == mask);
        }
        (x >> n, x & mask)
    }
}

/// Splitting `x` at bit `n` loses nothing: the high part shifted back up, combined with
/// the low part, is `x`.
pub proof fn lemma_split_bits_recombine(x: usize, n: usize)
    requires
        n < usize::BITS,
    ensures
        (((x as nat / pow2(n as nat)) as usize) << n) | ((x as nat % pow2(n as nat)) as usize) == x,
        (x as nat / pow2(n as nat)) * pow2(n as nat) + x as nat % pow2(n as nat) == x,
{
    lemma_usize_pow2_bounds(n as nat);
    lemma_pow2_pos(n as nat);
    lemma_usize_shr_is_div(x, n);
    lemma_usize_low_bits_mask_is_mod(x, n as nat);
    lemma_usize_shl_is_mul(1, n);
    assert(pow2(n as nat) == 1 * pow2(n as nat));
    let mask = ((1usize << n) - 1) as usize;
    assert(low_bits_mask(n as nat) == mask);
    let b = usize::BITS as usize;
    assert(((x >> n) << n) | (x & mask) == x) by (bit_vector)
        requires
            n < b,
            b == usize::BITS,
            mask == ((1usize << n) - 1) as usize,
    ;
    vstd::arithmetic::div_mod::lemma_fundamental_div_mod(x as int, pow2(n as nat) as int);
}

} // verus!
