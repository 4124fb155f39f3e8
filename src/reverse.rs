//! Bit reversal of indices, and the bit-reversal permutation of a buffer.
use vstd::prelude::*;

verus! {

use vstd::arithmetic::power2::{pow2, lemma_pow2_pos, lemma_pow2_unfold};
use vstd::arithmetic::div_mod::{lemma_div_denominator, lemma_mod_breakdown};
use vstd::layout::unsigned_int_max_values;
use crate::arith::{is_power_of_two, log2, log2_strict_usize, lemma_pow2_fits_usize};

/// Bit `i` of `x`.
pub open spec fn bit(x: nat, i: nat) -> bool {
    (x / pow2(i)) % 2 == 1
}

/// The low `len` bits of `x`, least significant first.
pub open spec fn bits_of(x: nat, len: nat) -> Seq<bool> {
    Seq::new(len, |i: int| bit(x, i as nat))
}

/// The number whose bits, least significant first, are `s`.
pub open spec fn from_bits(s: Seq<bool>) -> nat
    decreases s.len(),
{
    if s.len() == 0 {
        0
    } else {
        (if s[0] { 1nat } else { 0nat }) + 2 * from_bits(s.drop_first())
    }
}

/// The low `len` bits of `x` in reverse order: bit `i` of the result is bit `len - 1 - i` of `x`.
pub open spec fn bit_reverse(x: nat, len: nat) -> nat {
    from_bits(bits_of(x, len).reverse())
}

proof fn lemma_from_bits_cons(b: bool, s: Seq<bool>)
    ensures
        from_bits(seq![b] + s) == (if b { 1nat } else { 0nat }) + 2 * from_bits(s),
{
    assert((seq![b] + s).drop_first() =~= s);
}

/// A sequence of `len` bits stands for a number below `2^len`.
proof fn lemma_from_bits_bound(s: Seq<bool>)
    ensures
        from_bits(s) < pow2(s.len()),
    decreases s.len(),
{
    if s.len() == 0 {
        lemma_pow2_pos(0);
        vstd::arithmetic::power2::lemma2_to64();
    } else {
        lemma_from_bits_bound(s.drop_first());
        lemma_pow2_unfold(s.len());
    }
}

/// Reading back the bits of `from_bits(s)` gives `s`.
proof fn lemma_bits_of_from_bits(s: Seq<bool>)
    ensures
        bits_of(from_bits(s), s.len()) == s,
    decreases s.len(),
{
    if s.len() > 0 {
        let t = s.drop_first();
        let f = from_bits(t);
        let x = from_bits(s);
        let b: nat = if s[0] { 1 } else { 0 };
        lemma_bits_of_from_bits(t);
        assert(x / 2 == f && x % 2 == b) by (nonlinear_arith)
            requires
                x == b + 2 * f,
                b <= 1,
        ;
        assert forall|i: int| 0 <= i < s.len() implies #[trigger] bit(x, i as nat) == s[i] by {
            vstd::arithmetic::power2::lemma2_to64();
            if i == 0 {
                assert(x / pow2(0) == x);
            } else {
                lemma_pow2_unfold(i as nat);
                lemma_pow2_pos((i - 1) as nat);
                lemma_div_denominator(x as int, 2, pow2((i - 1) as nat) as int);
                assert(x / pow2(i as nat) == f / pow2((i - 1) as nat));
                assert(bits_of(f, t.len())[i - 1] == t[i - 1]);
                assert(bit(f, (i - 1) as nat) == t[i - 1]);
            }
        }
        assert(bits_of(x, s.len()) =~= s);
    }
}

/// `from_bits` of the low `len` bits of `x` is `x mod 2^len`.
proof fn lemma_from_bits_of(x: nat, len: nat)
    ensures
        from_bits(bits_of(x, len)) == x % pow2(len),
    decreases len,
{
    vstd::arithmetic::power2::lemma2_to64();
    if len == 0 {
        assert(from_bits(bits_of(x, 0)) == 0);
    } else {
        let s = bits_of(x, len);
        assert forall|i: int| 0 <= i < len - 1 implies #[trigger] s.drop_first()[i] == bits_of(x / 2, (len - 1) as nat)[i] by {
            lemma_pow2_unfold((i + 1) as nat);
            lemma_pow2_pos(i as nat);
            lemma_div_denominator(x as int, 2, pow2(i as nat) as int);
        }
        assert(s.drop_first() =~= bits_of(x / 2, (len - 1) as nat));
        lemma_from_bits_of(x / 2, (len - 1) as nat);
        lemma_pow2_unfold(len);
        lemma_pow2_pos((len - 1) as nat);
        lemma_mod_breakdown(x as int, 2, pow2((len - 1) as nat) as int);
        assert(x / pow2(0) == x);
        assert(s[0] == (x % 2 == 1));
        assert(from_bits(s) == (if s[0] { 1nat } else { 0nat }) + 2 * from_bits(s.drop_first()));
    }
}

/// Bit reversal of the low `len` bits is its own inverse.
pub proof fn lemma_bit_reverse_involution(x: nat, len: nat)
    ensures
        bit_reverse(bit_reverse(x, len), len) == x % pow2(len),
        bit_reverse(x, len) < pow2(len),
{
    let t = bits_of(x, len).reverse();
    lemma_from_bits_bound(t);
    lemma_bits_of_from_bits(t);
    assert(t.reverse() =~= bits_of(x, len));
    lemma_from_bits_of(x, len);
}

/// For `x` below `2^len`, reversing its `len` bits twice gives `x` back.
pub proof fn lemma_bit_reverse_twice(x: nat, len: nat)
    requires
        x < pow2(len),
    ensures
        bit_reverse(bit_reverse(x, len), len) == x,
{
    lemma_bit_reverse_involution(x, len);
    vstd::arithmetic::div_mod::lemma_small_mod(x, pow2(len));
}

/// Reverses the order of the low `bit_len` bits of `x`; the bits above are dropped.
pub fn reverse_bits_len(x: usize, bit_len: usize) -> (r: usize)
    requires
        bit_len <= usize::BITS,
    ensures
        r == bit_reverse(x as nat, bit_len as nat),
        r < pow2(bit_len as nat),
        bits_of(r as nat, bit_len as nat) == bits_of(x as nat, bit_len as nat).reverse(),
{
    let mut r: usize = 0;
    let mut y: usize = x;
    let mut i: usize = 0;
    proof {
        vstd::arithmetic::power2::lemma2_to64();
        assert(bits_of(x as nat, 0).reverse() =~= Seq::<bool>::empty());
    }
    while i < bit_len
        invariant
            i <= bit_len <= usize::BITS,
            r == bit_reverse(x as nat, i as nat),
            r < pow2(i as nat),
            y == x as nat / pow2(i as nat),
        decreases bit_len - i,
    {
        proof {
            let b = bit(x as nat, i as nat);
            assert(bits_of(x as nat, (i + 1) as nat).reverse() =~= seq![b] + bits_of(x as nat, i as nat).reverse());
            lemma_from_bits_cons(b, bits_of(x as nat, i as nat).reverse());
            lemma_pow2_unfold((i + 1) as nat);
            lemma_pow2_pos(i as nat);
            unsigned_int_max_values();
            if i + 1 < usize::BITS {
                vstd::arithmetic::power2::lemma_pow2_strictly_increases((i + 1) as nat, usize::BITS as nat);
            }
            lemma_div_denominator(x as int, pow2(i as nat) as int, 2);
        }
        r = 2 * r + y % 2;
        y = y / 2;
        i = i + 1;
    }
    proof {
        lemma_bits_of_from_bits(bits_of(x as nat, bit_len as nat).reverse());
    }
    r
}

/// Reverses the low `log2(n)` bits of `x`, for a power of two `n`.
pub fn reverse_bits(x: usize, n: usize) -> (r: usize)
    requires
        is_power_of_two(n as nat),
    ensures
        r == bit_reverse(x as nat, log2(n as nat)),
{
    let k = log2_strict_usize(n);
    proof {
        lemma_pow2_fits_usize(k as nat);
    }
    reverse_bits_len(x, k)
}

/// The bit-reversal permutation of `s`: position `i` holds `s[bit_reverse(i, log2(|s|))]`.
pub open spec fn bit_reversed<F>(s: Seq<F>) -> Seq<F> {
    Seq::new(s.len(), |i: int| s[bit_reverse(i as nat, log2(s.len())) as int])
}

/// Below `2^k`, reversing `k` bits maps indices to indices and undoes itself.
proof fn lemma_bit_reverse_indices(k: nat)
    ensures
        forall|p: nat| p < pow2(k) ==> #[trigger] bit_reverse(p, k) < pow2(k) && bit_reverse(bit_reverse(p, k), k) == p,
{
    assert forall|p: nat| p < pow2(k) implies #[trigger] bit_reverse(p, k) < pow2(k) && bit_reverse(bit_reverse(p, k), k) == p by {
        lemma_bit_reverse_involution(p, k);
        lemma_bit_reverse_twice(p, k);
    }
}

/// Applying the bit-reversal permutation twice restores the original order.
pub proof fn lemma_bit_reversed_twice<F>(s: Seq<F>)
    requires
        s.len() == 0 || is_power_of_two(s.len()),
    ensures
        bit_reversed(bit_reversed(s)) == s,
{
    if s.len() > 0 {
        let k = log2(s.len());
        let kk = choose|kk: nat| #[trigger] pow2(kk) == s.len();
        crate::arith::lemma_log2_pow2(kk);
        lemma_bit_reverse_indices(k);
    }
    assert(bit_reversed(bit_reversed(s)) =~= s);
}

/// Relies on `<[T]>::swap`: exchanges the elements at `i` and `j`; it panics only on an index out of bounds.
#[verifier::external_body]
fn swap_in_slice<T>(s: &mut [T], i: usize, j: usize)
    requires
        i < old(s)@.len(),
        j < old(s)@.len(),
    ensures
        final(s)@ == old(s)@.update(i as int, old(s)@[j as int]).update(j as int, old(s)@[i as int]),
{
    s.swap(i, j)
}

/// Permutes `vals` in place so that the element at index `i` moves to index
/// `bit_reverse(i, log2(n))`, where the length `n` is zero or a power of two.
pub fn reverse_slice_index_bits<F>(vals: &mut [F])
    requires
        old(vals)@.len() == 0 || is_power_of_two(old(vals)@.len()),
    ensures
        final(vals)@ == bit_reversed(old(vals)@),
        forall|i: int| 0 <= i < old(vals)@.len() ==> final(vals)@[bit_reverse(i as nat, log2(old(vals)@.len())) as int] == old(vals)@[i],
{
    let n = vals.len();
    if n == 0 {
        proof {
            assert(vals@ =~= bit_reversed(vals@));
        }
        return;
    }
    let log_n = log2_strict_usize(n);
    let ghost orig = vals@;
    let ghost k = log_n as nat;
    proof {
        lemma_pow2_fits_usize(k);
        lemma_bit_reverse_indices(k);
    }
    let mut i: usize = 0;
    while i < n
        invariant
            n == orig.len() == vals@.len(),
            pow2(k) == n,
            k == log_n == log2(n as nat),
            log_n <= usize::BITS,
            i <= n,
            forall|p: nat| p < pow2(k) ==> #[trigger] bit_reverse(p, k) < pow2(k) && bit_reverse(bit_reverse(p, k), k) == p,
            forall|p: int| 0 <= p < n ==> #[trigger] vals@[p] == (if p < i || bit_reverse(p as nat, k) < i {
                orig[bit_reverse(p as nat, k) as int]
            } else {
                orig[p]
            }),
        decreases n - i,
    {
        let j = reverse_bits_len(i, log_n);
        proof {
            assert(bit_reverse(i as nat, k) < pow2(k));
            assert(bit_reverse(j as nat, k) == i);
        }
        if i < j {
            swap_in_slice(vals, i, j);
        }
        i = i + 1;
    }
    proof {
        assert(vals@ =~= bit_reversed(orig));
        assert forall|p: int| 0 <= p < n implies vals@[bit_reverse(p as nat, k) as int] == orig[p] by {
            assert(bit_reverse(p as nat, k) < pow2(k));
            assert(bit_reverse(bit_reverse(p as nat, k), k) == p);
        }
    }
}

} // verus!
