use bitboard_chess::api::{PieceState, Square};
use bitboard_chess::bitboard::Bitboard;
use bitboard_chess::board::{BbPieceState, PieceStateValidatorErr};
use bitboard_chess::enums::{Piece, Side};

#[test]
fn bitboard_bbps_sould_fail_on_empty() {
    let ps = BbPieceState::empty();
    assert!(!ps.is_legal())
}

#[test]
fn bitboard_bbps_sould_fail_duplicate() {
    let ps = BbPieceState {
        wp: Bitboard::new(0),
        wb: Bitboard::new(0),
        wn: Bitboard::new(2),
        wr: Bitboard::new(0),
        wq: Bitboard::new(0),
        wk: Bitboard::new(2),
        bp: Bitboard::new(0),
        bb: Bitboard::new(0),
        bn: Bitboard::new(2),
        br: Bitboard::new(0),
        bq: Bitboard::new(0),
        bk: Bitboard::new(32),
    };
    assert!(!ps.is_legal());
}

#[test]
fn bitboard_bbps_pretty_print_start() {
    let start = BbPieceState::start();
    let expected = "rnbqkbnr\n\
                             pppppppp\n\
                             ........\n\
                             ........\n\
                             ........\n\
                             ........\n\
                             PPPPPPPP\n\
                             RNBQKBNR\n";
    assert!(start.pretty_print() == expected)
}

#[test]
fn board_bbps_sould_fail_on_empty() {
    let ps = BbPieceState::default();
    assert!(ps.check_valid() == Err(PieceStateValidatorErr::MissingKing))
}

#[test]
fn board_bbps_sould_fail_duplicate() {
    let ps = BbPieceState {
        wp: Bitboard::new(0),
        wb: Bitboard::new(0),
        wn: Bitboard::new(2),
        wr: Bitboard::new(0),
        wq: Bitboard::new(0),
        wk: Bitboard::new(2),
        bp: Bitboard::new(0),
        bb: Bitboard::new(0),
        bn: Bitboard::new(2),
        br: Bitboard::new(0),
        bq: Bitboard::new(0),
        bk: Bitboard::new(32),
    };
    println!("{:?}", ps.check_valid());
    assert!(ps.check_valid() == Err(PieceStateValidatorErr::PiecesOnSamePosition))
}

#[test]
fn board_bbps_pretty_print_start() {
    let start = BbPieceState::start();
    let expected = "rnbqkbnr\n\
                             pppppppp\n\
                             ........\n\
                             ........\n\
                             ........\n\
                             ........\n\
                             PPPPPPPP\n\
                             RNBQKBNR\n";
    println!("{}", start.pretty_print());
    assert!(start.pretty_print() == expected)
}

#[test]
fn start_position_is_legal() {
    let start = BbPieceState::start();
    assert!(start.is_legal());
    assert_eq!(start.check_valid(), Ok(()));
    assert_eq!(start.wp.v, 0xff00);
    assert_eq!(start.wk.v, 0x10);
    assert_eq!(start.bk.v, 0x1000_0000_0000_0000);
    assert_eq!(start.occupancy().v, 0xffff_0000_0000_ffff);
}

#[test]
fn empty_position_misses_its_kings() {
    let ps = BbPieceState::empty();
    assert_eq!(ps, BbPieceState::default());
    assert_eq!(ps.check_valid(), Err(PieceStateValidatorErr::MissingKing));
    assert_eq!(ps.occupancy().v, 0);
}

#[test]
fn two_kings_of_one_side_are_one_too_many() {
    let mut ps = BbPieceState::empty();
    ps.wk = Bitboard::new(0b11);
    assert_eq!(ps.check_valid(), Err(PieceStateValidatorErr::MissingKing));
    ps.wk = Bitboard::new(0b1);
    ps.bk = Bitboard::new(0b1);
    assert_eq!(ps.check_valid(), Err(PieceStateValidatorErr::MissingKing));
    ps.bk = Bitboard::new(0b10);
    assert_eq!(ps.check_valid(), Ok(()));
}

#[test]
fn king_check_comes_before_the_overlap_check() {
    let mut ps = BbPieceState::empty();
    ps.wp = Bitboard::new(0x100);
    ps.bp = Bitboard::new(0x100);
    assert_eq!(ps.check_valid(), Err(PieceStateValidatorErr::MissingKing));
    ps.wk = Bitboard::new(1);
    ps.bk = Bitboard::new(2);
    assert_eq!(
        ps.check_valid(),
        Err(PieceStateValidatorErr::PiecesOnSamePosition)
    );
    assert!(!ps.is_legal());
}

#[test]
fn overlap_is_found_between_any_two_sets() {
    let kings = {
        let mut ps = BbPieceState::empty();
        ps.wk = Bitboard::new(1);
        ps.bk = Bitboard::new(2);
        ps
    };
    let mut a = kings;
    a.wn = Bitboard::new(0x400);
    a.wr = Bitboard::new(0x400);
    assert_eq!(
        a.check_valid(),
        Err(PieceStateValidatorErr::PiecesOnSamePosition)
    );
    let mut b = kings;
    b.bq = Bitboard::new(2);
    assert_eq!(
        b.check_valid(),
        Err(PieceStateValidatorErr::PiecesOnSamePosition)
    );
    let mut c = kings;
    c.wn = Bitboard::new(0x400);
    c.wr = Bitboard::new(0x800);
    assert_eq!(c.check_valid(), Ok(()));
}

#[test]
fn two_knights_on_one_square_fail_the_check() {
    let mut ps = BbPieceState::empty();
    ps.wn = Bitboard::new(1 << 2);
    ps.bn = Bitboard::new(1 << 2);
    ps.wk = Bitboard::new(1 << 4);
    ps.bk = Bitboard::new(1 << 60);
    assert_eq!(
        ps.check_valid(),
        Err(PieceStateValidatorErr::PiecesOnSamePosition)
    );
    assert!(!ps.is_legal());
}

#[test]
fn piece_lookup_and_changes() {
    let mut ps = BbPieceState::start();
    assert_eq!(ps.piece_on(Square::new(0)), Some((Side::White, Piece::R)));
    assert_eq!(ps.piece_on(Square::new(4)), Some((Side::White, Piece::K)));
    assert_eq!(ps.piece_on(Square::new(59)), Some((Side::Black, Piece::Q)));
    assert_eq!(ps.piece_on(Square::new(52)), Some((Side::Black, Piece::P)));
    assert_eq!(ps.piece_on(Square::new(30)), None);
    assert_eq!(ps.get(Side::White, Piece::N).v, 0x42);
    ps.put(Side::White, Piece::Q, Square::new(30));
    assert_eq!(ps.piece_on(Square::new(30)), Some((Side::White, Piece::Q)));
    assert_eq!(ps.wq.v, 0x8 | (1 << 30));
    ps.take(Side::White, Piece::Q, Square::new(3));
    assert_eq!(ps.wq.v, 1 << 30);
    ps.clear_side(Side::Black, Square::new(59));
    assert_eq!(ps.bq.v, 0);
    ps.clear_side(Side::Black, Square::new(30));
    assert_eq!(ps.wq.v, 1 << 30);
    ps.set(Side::Black, Piece::B, Bitboard::new(0));
    assert_eq!(ps.bb.v, 0);
    let list = ps.board_list();
    assert_eq!(list[0], ps.wp);
    assert_eq!(list[1], ps.wb);
    assert_eq!(list[11], ps.bk);
}
