use p3_util::arith::{
    bitmask, ceil_div_usize, log2_ceil_u64, log2_ceil_usize, log2_strict_usize, split_bits,
};

#[test]
fn ceil_div_rounds_up() {
    assert_eq!(ceil_div_usize(7, 2), 4);
    assert_eq!(ceil_div_usize(8, 2), 4);
    assert_eq!(ceil_div_usize(0, 5), 0);
    assert_eq!(ceil_div_usize(1, 5), 1);
    assert_eq!(ceil_div_usize(10, 1), 10);
}

#[test]
fn log2_ceil_usize_values() {
    assert_eq!(log2_ceil_usize(0), 0);
    assert_eq!(log2_ceil_usize(1), 0);
    assert_eq!(log2_ceil_usize(2), 1);
    assert_eq!(log2_ceil_usize(5), 3);
    assert_eq!(log2_ceil_usize(8), 3);
    assert_eq!(log2_ceil_usize(9), 4);
    assert_eq!(log2_ceil_usize(usize::MAX), usize::BITS as usize);
}

#[test]
fn log2_ceil_u64_values() {
    assert_eq!(log2_ceil_u64(0), 0);
    assert_eq!(log2_ceil_u64(1), 0);
    assert_eq!(log2_ceil_u64(5), 3);
    assert_eq!(log2_ceil_u64(8), 3);
    assert_eq!(log2_ceil_u64(1 << 40), 40);
    assert_eq!(log2_ceil_u64((1 << 40) + 1), 41);
    assert_eq!(log2_ceil_u64(u64::MAX), 64);
}

#[test]
fn log2_ceil_is_least_covering_exponent() {
    for n in 2usize..300 {
        let r = log2_ceil_usize(n);
        assert!(1usize << r >= n);
        assert!(1usize << (r - 1) < n);
    }
}

#[test]
fn log2_strict_values() {
    assert_eq!(log2_strict_usize(1), 0);
    assert_eq!(log2_strict_usize(2), 1);
    assert_eq!(log2_strict_usize(8), 3);
    assert_eq!(log2_strict_usize(1 << 20), 20);
    let top = 1usize << (usize::BITS - 1);
    assert_eq!(log2_strict_usize(top), usize::BITS as usize - 1);
}

#[test]
fn log2_strict_inverts_powers() {
    for k in 0..usize::BITS as usize {
        assert_eq!(log2_strict_usize(1usize << k), k);
    }
}

#[test]
fn bitmask_values() {
    assert_eq!(bitmask(0), 0);
    assert_eq!(bitmask(1), 1);
    assert_eq!(bitmask(3), 0b111);
    assert_eq!(bitmask(10), 1023);
    assert_eq!(bitmask(usize::BITS as usize - 1), usize::MAX >> 1);
    assert_eq!(bitmask(usize::BITS as usize), usize::MAX);
}

#[test]
fn split_bits_values() {
    assert_eq!(split_bits(0b110101, 3), (0b110, 0b101));
    assert_eq!(split_bits(0b110101, 0), (0b110101, 0));
    assert_eq!(split_bits(12345, usize::BITS as usize), (0, 12345));
    assert_eq!(split_bits(usize::MAX, usize::BITS as usize), (0, usize::MAX));
    assert_eq!(split_bits(usize::MAX, 4), (usize::MAX >> 4, 0b1111));
}

#[test]
fn split_bits_matches_shift_and_mask() {
    let xs = [0usize, 1, 2, 0xdead_beef, usize::MAX, 1 << 17];
    for &x in xs.iter() {
        for n in 0..usize::BITS as usize {
            let (hi, lo) = split_bits(x, n);
            assert_eq!(hi, x >> n);
            assert_eq!(lo, x & bitmask(n));
            assert_eq!((hi << n) | lo, x);
        }
    }
}
