use resonant_dsp::bitrev::{bit_reverse_permutation, reverse_bits_index};

#[test]
fn reverse_index_of_three_bits() {
    let expected = [0usize, 4, 2, 6, 1, 5, 3, 7];
    for (i, &e) in expected.iter().enumerate() {
        assert_eq!(reverse_bits_index(i, 3), e);
    }
}

#[test]
fn reverse_index_matches_std_reverse_bits() {
    for b in 1u32..10 {
        for i in 0usize..(1 << b) {
            let std_rev = i.reverse_bits() >> (usize::BITS - b);
            assert_eq!(reverse_bits_index(i, b), std_rev);
        }
    }
}

#[test]
fn permutation_of_eight() {
    let mut buf = [0u32, 1, 2, 3, 4, 5, 6, 7];
    bit_reverse_permutation(&mut buf, 3);
    assert_eq!(buf, [0, 4, 2, 6, 1, 5, 3, 7]);
}

#[test]
fn permutation_twice_is_identity() {
    let start: Vec<u64> = (0..64).map(|i| i * 10 + 3).collect();
    let mut buf = start.clone();
    bit_reverse_permutation(&mut buf, 6);
    assert_ne!(buf, start);
    bit_reverse_permutation(&mut buf, 6);
    assert_eq!(buf, start);
}

#[test]
fn permutation_of_one_and_two() {
    let mut one = [42i32];
    bit_reverse_permutation(&mut one, 0);
    assert_eq!(one, [42]);
    let mut two = [1i32, 2];
    bit_reverse_permutation(&mut two, 1);
    assert_eq!(two, [1, 2]);
}
