//! Helpers on vectors and slices: pushing with a reference back, length logarithms, transposition.
use vstd::prelude::*;

verus! {

use vstd::arithmetic::power2::pow2;
use crate::arith::{is_power_of_two, log2, log2_strict_usize, lemma_log2_pow2, lemma_trailing_zeros_power_of_two, lemma_usize_bits_le_64};

/// Every row of `v` holds `len` elements.
pub open spec fn rows_have_len<T>(v: Seq<Vec<T>>, len: nat) -> bool {
    forall|i: int| 0 <= i < v.len() ==> #[trigger] v[i]@.len() == len
}

/// `t` is the transpose of the `rows`, each of which holds `len` elements: `t[c][r] == rows[r][c]`.
pub open spec fn is_transpose<T>(t: Seq<Vec<T>>, rows: Seq<Vec<T>>, len: nat) -> bool {
    &&& t.len() == len
    &&& rows_have_len(t, rows.len())
    &&& forall|c: int, r: int| 0 <= c < len && 0 <= r < rows.len() ==> #[trigger] t[c]@[r] == rows[r]@[c]
}

/// Transposes a non-empty list of rows of equal length into the list of its columns.
pub fn transpose_vec<T>(v: Vec<Vec<T>>) -> (t: Vec<Vec<T>>)
    requires
        v@.len() > 0,
        rows_have_len(v@, v@[0]@.len()),
    ensures
        is_transpose(t@, v@, v@[0]@.len()),
{
    let n_rows = v.len();
    let len = v[0].len();
    let ghost orig = v@;
    // Elements are moved, not cloned: popping every row yields the columns last to first,
    // and a final pass puts them back in order.
    let mut rows = v;
    let mut cols_rev: Vec<Vec<T>> = Vec::new();
    let mut k: usize = len;
    while k > 0
        invariant
            rows@.len() == n_rows == orig.len(),
            len == orig[0]@.len(),
            rows_have_len(orig, len as nat),
            k <= len,
            forall|r: int| 0 <= r < n_rows ==> #[trigger] rows@[r]@ == orig[r]@.subrange(0, k as int),
            cols_rev@.len() == len - k,
            rows_have_len(cols_rev@, n_rows as nat),
            forall|c: int, r: int| 0 <= c < len - k && 0 <= r < n_rows ==> #[trigger] cols_rev@[c]@[r] == orig[r]@[len - 1 - c],
        decreases k,
    {
        k = k - 1;
        let mut col: Vec<T> = Vec::new();
        let mut r: usize = 0;
        while r < n_rows
            invariant
                rows@.len() == n_rows == orig.len(),
                rows_have_len(orig, len as nat),
                k < len,
                r <= n_rows,
                forall|q: int| 0 <= q < r ==> #[trigger] rows@[q]@ == orig[q]@.subrange(0, k as int),
                forall|q: int| r <= q < n_rows ==> #[trigger] rows@[q]@ == orig[q]@.subrange(0, k + 1),
                col@.len() == r,
                forall|q: int| 0 <= q < r ==> #[trigger] col@[q] == orig[q]@[k as int],
            decreases n_rows - r,
        {
            assert(rows@[r as int]@ == orig[r as int]@.subrange(0, k + 1));
            let x = rows[r].pop().unwrap();
            col.push(x);
            proof {
                assert(rows@[r as int]@ =~= orig[r as int]@.subrange(0, k as int));
            }
            r = r + 1;
        }
        cols_rev.push(col);
    }
    let ghost rev = cols_rev@;
    let mut t: Vec<Vec<T>> = Vec::new();
    while cols_rev.len() > 0
        invariant
            rev.len() == len,
            cols_rev@ == rev.subrange(0, len - t@.len()),
            t@.len() <= len,
            forall|c: int| 0 <= c < t@.len() ==> #[trigger] t@[c] == rev[len - 1 - c],
        decreases cols_rev@.len(),
    {
        let col = cols_rev.pop().unwrap();
        t.push(col);
        proof {
            assert(cols_rev@ =~= rev.subrange(0, len - t@.len()));
        }
    }
    proof {
        assert forall|c: int, r: int| 0 <= c < len && 0 <= r < n_rows implies #[trigger] t@[c]@[r] == orig[r]@[c] by {
            assert(t@[c] == rev[len - 1 - c]);
        }
        assert forall|c: int| 0 <= c < t@.len() implies #[trigger] t@[c]@.len() == n_rows by {
            assert(t@[c] == rev[len - 1 - c]);
        }
    }
    t
}

/// Returns `[0, 1, ..., N - 1]`.
pub fn indices_arr<const N: usize>() -> (a: [usize; N])
    ensures
        forall|i: int| 0 <= i < N ==> #[trigger] a@[i] == i,
{
    let mut a: [usize; N] = [0usize; N];
    let mut i: usize = 0;
    while i < N
        invariant
            i <= N,
            a@.len() == N,
            forall|j: int| 0 <= j < i ==> #[trigger] a@[j] == j,
        decreases N - i,
    {
        a[i] = i;
        i = i + 1;
    }
    a
}

/// Pushing onto a vector and getting back a reference to the new last element.
pub trait VecExt<T>: View<V = Seq<T>> {
    /// Pushes `elem` and returns a reference to it.
    fn pushed_ref(&mut self, elem: T) -> (r: &T)
        ensures
            final(self)@ == old(self)@.push(elem),
            *r == elem,
    ;

    /// Pushes `elem` and returns a mutable reference to it; what is written through the
    /// reference ends up as the last element.
    fn pushed_mut(&mut self, elem: T) -> (r: &mut T)
        ensures
            *r == elem,
            final(self)@ == old(self)@.push(*final(r)),
    ;
}

impl<T> VecExt<T> for Vec<T> {
    fn pushed_ref(&mut self, elem: T) -> (r: &T) {
        self.push(elem);
        let n = self.len();
        &self[n - 1]
    }

    fn pushed_mut(&mut self, elem: T) -> (r: &mut T) {
        self.push(elem);
        let n = self.len();
        &mut self[n - 1]
    }
}

/// Base-two logarithm of the length of a sequence.
pub trait SliceExt {
    /// The number of elements.
    spec fn length(&self) -> nat;

    /// `log2` of the length, or `None` when the length is not a power of two.
    fn log_len(&self) -> (r: Option<usize>)
        ensures
            r is Some <==> is_power_of_two(self.length()),
            r matches Some(k) ==> pow2(k as nat) == self.length() && k == log2(self.length()),
    ;

    /// `log2` of the length, which must be a power of two.
    fn log_strict_len(&self) -> (r: usize)
        requires
            is_power_of_two(self.length()),
        ensures
            pow2(r as nat) == self.length(),
            r == log2(self.length()),
    ;
}

impl<T> SliceExt for [T] {
    open spec fn length(&self) -> nat {
        self@.len()
    }

    fn log_len(&self) -> (r: Option<usize>) {
        let n = self.len();
        proof {
            lemma_usize_bits_le_64();
            lemma_trailing_zeros_power_of_two(n as u64);
        }
        if n == 0 {
            return None;
        }
        let x = n as u64;
        let t = x.trailing_zeros();
        proof {
            if is_power_of_two(n as nat) {
                lemma_log2_pow2(t as nat);
            }
        }
        if x >> t == 1 {
            Some(t as usize)
        } else {
            None
        }
    }

    fn log_strict_len(&self) -> (r: usize) {
        log2_strict_usize(self.len())
    }
}

impl<T> SliceExt for Vec<T> {
    open spec fn length(&self) -> nat {
        self@.len()
    }

    fn log_len(&self) -> (r: Option<usize>) {
        self.as_slice().log_len()
    }

    fn log_strict_len(&self) -> (r: usize) {
        log2_strict_usize(self.len())
    }
}

} // verus!
