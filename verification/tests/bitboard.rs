use bitboard_chess::api::Square;
use bitboard_chess::bitboard::{top_left, Bitboard};
use bitboard_chess::enums::{File, Rank};

#[test]
fn subset_tests() {
    let b1: Bitboard = Bitboard {
        v: 0xfedcba9876543210,
    };
    let b2: Bitboard = !b1;
    assert!(!b1.is_subset(b2));
    let b3 = b1 & b2;
    assert!(b3.is_subset(b2));
    assert!(!Bitboard::new(1).is_subset(Bitboard::new(0)));
    assert!(Bitboard::new(0).is_subset(Bitboard::new(1)));
}

#[test]
fn disjoint_tests() {
    assert!(Bitboard::new(1).is_disjoint(Bitboard::new(0)));
    assert!(Bitboard::new(0).is_disjoint(Bitboard::new(1)));
    let b1: Bitboard = Bitboard {
        v: 0xfedcba9876543210,
    };
    let b2: Bitboard = !b1;
    assert!(b1.is_disjoint(b2));
    assert!(b2.is_disjoint(b1));
}

#[test]
fn get_rank_tests() {
    let b: Bitboard = Bitboard {
        v: 0xfedcba9876543210,
    };
    assert!(b.get_rank(Rank::R1) == 0x10);
    assert!(b.get_rank(Rank::R2) == 0x32);
    assert!(b.get_rank(Rank::R3) == 0x54);
    assert!(b.get_rank(Rank::R4) == 0x76);
    assert!(b.get_rank(Rank::R5) == 0x98);
    assert!(b.get_rank(Rank::R6) == 0xba);
    assert!(b.get_rank(Rank::R7) == 0xdc);
    assert!(b.get_rank(Rank::R8) == 0xfe);
}

#[test]
fn pretty_string_should_show_first_bit() {
    let b = Bitboard { v: 1 };

    let expected = "00000000\n\
         00000000\n\
         00000000\n\
         00000000\n\
         00000000\n\
         00000000\n\
         00000000\n\
         10000000\n";

    let actual = b.pretty_string();
    assert!(
        expected == actual,
        "expected:\n`{}`\n got:\n`{}`\n",
        expected,
        actual
    );
}

#[test]
fn pretty_string_should_show_last_bit() {
    let b = Bitboard { v: 2_u64.pow(63) };

    let expected = "00000001\n\
         00000000\n\
         00000000\n\
         00000000\n\
         00000000\n\
         00000000\n\
         00000000\n\
         00000000\n";

    let actual = b.pretty_string();
    assert!(
        expected == actual,
        "expected:\n`{}`\n got:\n`{}`\n",
        expected,
        actual
    );
}

#[test]
fn pretty_string_should_print_allbits() {
    let b = Bitboard {
        v: 0xfedcba9876543210,
    };
    let expected = "01111111\n\
         00111011\n\
         01011101\n\
         00011001\n\
         01101110\n\
         00101010\n\
         01001100\n\
         00001000\n";

    let actual = b.pretty_string();
    assert!(
        expected == actual,
        "expected:\n`{}`\n got:\n`{}`\n",
        expected,
        actual
    );
}

#[test]
fn single_square_sets_hold_one_square() {
    for v in 0u8..64 {
        let b = Bitboard::get_coord(Square::new(v));
        assert_eq!(b.v, 1u64 << v);
        assert_eq!(b.count_bits(), 1);
        assert!(b.contains(Square::new(v)));
    }
}

#[test]
fn disjoint_and_subset_agree_with_intersection() {
    let words = [
        0u64,
        1,
        0x8000_0000_0000_0000,
        0xfedcba9876543210,
        0x0123456789abcdef,
        0xff00,
        u64::MAX,
    ];
    for a in words {
        for b in words {
            let x = Bitboard::new(a);
            let y = Bitboard::new(b);
            assert_eq!(x.is_disjoint(y), (x & y) == Bitboard::empty());
            assert_eq!(x.is_subset(y), (x & y) == x);
        }
    }
}

#[test]
fn set_algebra_on_words() {
    let a = Bitboard::new(0b1100);
    let b = Bitboard::new(0b1010);
    assert_eq!((a & b).v, 0b1000);
    assert_eq!((a | b).v, 0b1110);
    assert_eq!((a ^ b).v, 0b0110);
    assert_eq!((!a).v, !0b1100u64);
    assert_eq!((a & 0b1010u64).v, 0b1000);
    assert_eq!((a | 0b1010u64).v, 0b1110);
    assert_eq!((a ^ 0b1010u64).v, 0b0110);
    assert_eq!(Bitboard::empty().v, 0);
    assert_eq!(Bitboard::full().v, u64::MAX);
    assert!(Bitboard::empty().is_empty());
    assert!(!a.is_empty());
}

#[test]
fn assigning_operators_change_the_set() {
    let mut a = Bitboard::new(0b1100);
    a &= Bitboard::new(0b1010);
    assert_eq!(a.v, 0b1000);
    a |= Bitboard::new(0b0001);
    assert_eq!(a.v, 0b1001);
    a ^= Bitboard::new(0b1111);
    assert_eq!(a.v, 0b0110);
    a &= 0b0100u64;
    assert_eq!(a.v, 0b0100);
    a |= 0b0001u64;
    assert_eq!(a.v, 0b0101);
    a ^= 0b0001u64;
    assert_eq!(a.v, 0b0100);
    a <<= 3;
    assert_eq!(a.v, 0b100000);
    a >>= 5;
    assert_eq!(a.v, 1);
}

#[test]
fn shifts_drop_what_leaves_the_board() {
    let top = Bitboard::new(0x8000_0000_0000_0000);
    assert_eq!((top << 1).v, 0);
    assert_eq!((top >> 63).v, 1);
    assert_eq!((Bitboard::new(1) >> 1).v, 0);
    assert_eq!((Bitboard::new(0xff) << 56).v, 0xff00_0000_0000_0000);
}

#[test]
fn rank_and_file_masks() {
    assert_eq!(Bitboard::rank(Rank::R1).v, 0xff);
    assert_eq!(Bitboard::rank(Rank::R8).v, 0xff00_0000_0000_0000);
    assert_eq!(Bitboard::rank(Rank::R4).v, 0xff00_0000);
    assert_eq!(Bitboard::file(File::A).v, 0x0101_0101_0101_0101);
    assert_eq!(Bitboard::file(File::H).v, 0x8080_8080_8080_8080);
    assert_eq!(Bitboard::file(File::C).v, 0x0404_0404_0404_0404);
}

#[test]
fn one_step_shifts_do_not_wrap() {
    let h1 = Bitboard::get_coord(Square::from_rank_file(Rank::R1, File::H));
    assert_eq!(h1.shift_h().v, 0);
    let a1 = Bitboard::get_coord(Square::from_rank_file(Rank::R1, File::A));
    assert_eq!(a1.shift_h().v, 2);
    assert_eq!(a1.shift_v().v, 0x100);
    let a8 = Bitboard::get_coord(Square::from_rank_file(Rank::R8, File::A));
    assert_eq!(a8.shift_v().v, 0);
    assert_eq!(Bitboard::full().shift_h().v, !0x0101_0101_0101_0101u64);
}

#[test]
fn squares_are_rank_times_eight_plus_file() {
    assert_eq!(Square::from_rank_file(Rank::R1, File::A).v, 0);
    assert_eq!(Square::from_rank_file(Rank::R1, File::H).v, 7);
    assert_eq!(Square::from_rank_file(Rank::R8, File::A).v, 56);
    assert_eq!(Square::from_rank_file(Rank::R8, File::H).v, 63);
    assert_eq!(Square::from_rank_file(Rank::R4, File::E).v, 28);
    let e4 = Square::new(28);
    assert_eq!(e4.rank(), Rank::R4);
    assert_eq!(e4.file(), File::E);
}

#[test]
fn word_in_base_two() {
    assert_eq!(Bitboard::new(0).binary_string(), "0");
    assert_eq!(Bitboard::new(1).binary_string(), "1");
    assert_eq!(Bitboard::new(0b1011).binary_string(), "1011");
    assert_eq!(
        Bitboard::new(0xfedcba9876543210).binary_string(),
        format!("{:b}", 0xfedcba9876543210u64)
    );
    assert_eq!(Bitboard::full().binary_string(), "1".repeat(64));
}

#[test]
fn squares_put_in_and_taken_out() {
    let a = Bitboard::new(0b1010);
    assert_eq!(a.with_square(Square::new(0)).v, 0b1011);
    assert_eq!(a.with_square(Square::new(1)).v, 0b1010);
    assert_eq!(a.without_square(Square::new(1)).v, 0b1000);
    assert_eq!(a.without_square(Square::new(0)).v, 0b1010);
    assert_eq!(a.first_square(), Some(Square::new(1)));
    assert_eq!(Bitboard::empty().first_square(), None);
    assert_eq!(
        Bitboard::new(0x8000_0000_0000_0000).first_square(),
        Some(Square::new(63))
    );
}

#[test]
fn squares_from_the_top_left() {
    assert_eq!(top_left(0), Square::new(56));
    assert_eq!(top_left(7), Square::new(63));
    assert_eq!(top_left(8), Square::new(48));
    assert_eq!(top_left(56), Square::new(0));
    assert_eq!(top_left(63), Square::new(7));
    let mut seen = 0u64;
    for n in 0u8..64 {
        seen |= 1u64 << top_left(n).v;
    }
    assert_eq!(seen, u64::MAX);
}
