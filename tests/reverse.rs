use p3_util::reverse::{reverse_bits, reverse_bits_len, reverse_slice_index_bits};

#[test]
fn reverse_bits_len_values() {
    assert_eq!(reverse_bits_len(0b001, 3), 0b100);
    assert_eq!(reverse_bits_len(0b110, 3), 0b011);
    assert_eq!(reverse_bits_len(0b1011, 4), 0b1101);
    assert_eq!(reverse_bits_len(1, 1), 1);
    assert_eq!(reverse_bits_len(1, usize::BITS as usize), 1usize << (usize::BITS - 1));
}

#[test]
fn reverse_bits_len_zero_length() {
    assert_eq!(reverse_bits_len(0, 0), 0);
    assert_eq!(reverse_bits_len(12345, 0), 0);
    assert_eq!(reverse_bits_len(usize::MAX, 0), 0);
}

#[test]
fn reverse_bits_len_drops_high_bits() {
    assert_eq!(reverse_bits_len(0b1011, 3), 0b110);
    assert_eq!(reverse_bits_len(0xff00, 8), 0);
}

#[test]
fn reverse_bits_len_twice_is_identity() {
    for len in 0..12usize {
        for x in 0..(1usize << len) {
            assert_eq!(reverse_bits_len(reverse_bits_len(x, len), len), x);
        }
    }
    let x = 0x0123_4567usize;
    assert_eq!(reverse_bits_len(reverse_bits_len(x, 32), 32), x);
}

#[test]
fn reverse_bits_of_power_of_two() {
    assert_eq!(reverse_bits(1, 8), 4);
    assert_eq!(reverse_bits(3, 8), 6);
    assert_eq!(reverse_bits(5, 1), 0);
    assert_eq!(reverse_bits(1, 1 << 10), 1 << 9);
}

#[test]
fn reverse_slice_four() {
    let mut v = vec!['a', 'b', 'c', 'd'];
    reverse_slice_index_bits(&mut v);
    assert_eq!(v, vec!['a', 'c', 'b', 'd']);
}

#[test]
fn reverse_slice_eight() {
    let mut v: Vec<usize> = (0..8).collect();
    reverse_slice_index_bits(&mut v);
    assert_eq!(v, vec![0, 4, 2, 6, 1, 5, 3, 7]);
}

#[test]
fn reverse_slice_short_is_noop() {
    let mut empty: Vec<u32> = Vec::new();
    reverse_slice_index_bits(&mut empty);
    assert!(empty.is_empty());
    let mut one = vec![String::from("x")];
    reverse_slice_index_bits(&mut one);
    assert_eq!(one, vec![String::from("x")]);
    let mut two = vec![1, 2];
    reverse_slice_index_bits(&mut two);
    assert_eq!(two, vec![1, 2]);
}

#[test]
fn reverse_slice_moves_index_to_its_reversal() {
    let n = 64usize;
    let orig: Vec<usize> = (0..n).map(|i| i * 10 + 3).collect();
    let mut v = orig.clone();
    reverse_slice_index_bits(&mut v);
    for i in 0..n {
        assert_eq!(v[reverse_bits_len(i, 6)], orig[i]);
    }
}

#[test]
fn reverse_slice_twice_restores() {
    for k in 0..8u32 {
        let n = 1usize << k;
        let orig: Vec<String> = (0..n).map(|i| format!("e{}", i)).collect();
        let mut v = orig.clone();
        reverse_slice_index_bits(&mut v);
        reverse_slice_index_bits(&mut v);
        assert_eq!(v, orig);
    }
}
