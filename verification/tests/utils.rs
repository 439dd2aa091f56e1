use bitboard_chess::utils::count_bits;

#[test]
fn count_bits_max_64() {
    assert!(count_bits(u64::MAX) == 64);
}

#[test]
fn count_bits_zero_zero() {
    assert!(count_bits(0) == 0);
}

#[test]
fn count_bits_1_1() {
    assert!(count_bits(1) == 1);
}

#[test]
fn count_bits_2_1() {
    assert!(count_bits(2) == 1);
}

#[test]
fn count_bits_e_3() {
    assert!(count_bits(0xe) == 3);
}

#[test]
fn count_bits_max_min_1_63() {
    assert!(count_bits(u64::MAX - 1) == 63);
}

#[test]
fn count_bits_max_min_es_48() {
    assert!(count_bits(0xeeeeeeeeeeeeeeee) == 48);
}

#[test]
fn count_bits_33() {
    assert!(
        count_bits(0b0101011101101001100000011011000100110111111010111011000110100001) == 33
    );
}

#[test]
fn count_bits_agrees_with_the_hardware_count() {
    let words = [
        0u64,
        1,
        0x8000_0000_0000_0000,
        0xfedcba9876543210,
        0x0123456789abcdef,
        0xaaaa_aaaa_aaaa_aaaa,
        u64::MAX,
    ];
    for w in words {
        assert_eq!(count_bits(w) as u32, w.count_ones());
    }
}
