use bitboard_chess::rnd::{
    generate_init_state, rol64, splitmix64, xoshiro256p, RndGen, Xoshiro256p,
};

#[test]
fn splitmix_should_match_reference() {
    let mut x = 12345;
    let reference = [
        0x22118258a9d111a0,
        0x346edce5f713f8ed,
        0x1e9a57bc80e6721d,
        0x2d160e7e5c3f42ca,
        0x81c2e6dc980d78eb,
        0x5647e55ad933f62e,
        0x1f6622b40cb38e42,
        0x6e7411b06820371c,
        0x7ad34039583ab917,
        0xde15eab5ce53fecf,
    ];
    for r in reference {
        assert!(splitmix64(&mut x) == r);
    }
}

#[test]
fn should_match_reference() {
    let mut rnd = Xoshiro256p::initialize(12345);
    let reference = [
        0x4f2790d70610546a,
        0xd2ae33f21d5120ec,
        0xa28f6ee203d01e40,
        0x213ef47a5a3a7584,
        0x6fca7fc6dca44620,
        0x551ccf8e381c05d8,
        0x923ea5d5a99f0222,
        0x6b01089f2b43f45b,
        0x3ba539cf67a16a4f,
        0x576042cbf1a61fab,
    ];
    for r in reference {
        let x = rnd.next();
        assert!(r == x);
    }
}

#[test]
fn splitmix_advances_its_counter_by_the_gamma() {
    let mut x: u64 = 12345;
    splitmix64(&mut x);
    assert_eq!(x, 12345u64.wrapping_add(0x9E3779B97F4A7C15));
    let mut y: u64 = u64::MAX;
    splitmix64(&mut y);
    assert_eq!(y, 0x9E3779B97F4A7C14);
}

#[test]
fn seed_gives_the_first_four_splitmix_numbers() {
    let state = generate_init_state(12345);
    assert_eq!(
        state,
        [
            0x22118258a9d111a0,
            0x346edce5f713f8ed,
            0x1e9a57bc80e6721d,
            0x2d160e7e5c3f42ca
        ]
    );
    assert_eq!(Xoshiro256p::initialize(12345).s, state);
}

#[test]
fn rotation_keeps_every_bit() {
    assert_eq!(rol64(1, 45), 1u64 << 45);
    assert_eq!(rol64(0x8000_0000_0000_0000, 1), 1);
    assert_eq!(rol64(0xfedcba9876543210, 4), 0xedcba9876543210f);
    assert_eq!(rol64(0xfedcba9876543210, 63), 0xfedcba9876543210u64.rotate_left(63));
}

#[test]
fn one_step_of_the_generator() {
    let mut state = [1u64, 2, 3, 4];
    let out = xoshiro256p(&mut state);
    assert_eq!(out, 5);
    let s2 = 3u64 ^ 1;
    let s3 = 4u64 ^ 2;
    let s1 = 2u64 ^ s2;
    let s0 = 1u64 ^ s3;
    assert_eq!(state, [s0, s1, s2 ^ (2u64 << 17), s3.rotate_left(45)]);
}

#[test]
fn output_wraps_round() {
    let mut state = [u64::MAX, 0, 0, 2];
    assert_eq!(xoshiro256p(&mut state), 1);
}

#[test]
fn same_seed_same_stream() {
    let mut a = Xoshiro256p::initialize(7);
    let mut b = Xoshiro256p::initialize(7);
    for _ in 0..100 {
        assert_eq!(a.next(), b.next());
    }
}
