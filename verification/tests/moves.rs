use bitboard_chess::api::{Board, Move, MoveType, PieceState, PromotionType, Square};
use bitboard_chess::attacks::{attacked_squares, is_in_check};
use bitboard_chess::board::{BbBoardState, BbPieceState, PieceStateValidatorErr};
use bitboard_chess::enums::{File, Rank, Side};
use bitboard_chess::fen::parse_fen;
use bitboard_chess::fen_encode::encode_fen;
use bitboard_chess::moves::{apply_move, apply_to_state, check_move, test_move, try_move, MoveError};

fn sq(name: &str) -> Square {
    let bytes = name.as_bytes();
    Square::new((bytes[1] - b'1') * 8 + (bytes[0] - b'a'))
}

fn mv(from: &str, to: &str, kind: MoveType) -> Move {
    Move::new(sq(from), sq(to), kind)
}

fn position(fen: &str) -> BbBoardState {
    parse_fen(fen.to_string()).unwrap()
}

const START: &str = "rnbqkbnr/pppppppp/8/8/8/8/PPPPPPPP/RNBQKBNR w KQkq - 0 1";

#[test]
fn pawn_advances_two_squares_from_the_start() {
    let start = position(START);
    let m = mv("e2", "e4", MoveType::Quiet);
    assert!(test_move(&start, m));
    let next = apply_to_state(&start, m);
    assert_eq!(
        encode_fen(&next),
        "rnbqkbnr/pppppppp/8/8/4P3/8/PPPP1PPP/RNBQKBNR b KQkq e3 0 1"
    );
    assert!(next.pieces.is_legal());
    let reply = mv("c7", "c5", MoveType::Quiet);
    assert!(test_move(&next, reply));
    let after = apply_to_state(&next, reply);
    assert_eq!(
        encode_fen(&after),
        "rnbqkbnr/pp1ppppp/8/2p5/4P3/8/PPPP1PPP/RNBQKBNR w KQkq c6 0 2"
    );
}

#[test]
fn knight_move_counts_on_the_clock() {
    let start = position(START);
    let m = mv("g1", "f3", MoveType::Quiet);
    assert!(test_move(&start, m));
    let next = apply_to_state(&start, m);
    assert_eq!(
        encode_fen(&next),
        "rnbqkbnr/pppppppp/8/8/8/5N2/PPPPPPPP/RNBQKB1R b KQkq - 1 1"
    );
}

#[test]
fn moves_that_do_not_fit_are_rejected() {
    let start = position(START);
    assert!(!test_move(&start, mv("e3", "e4", MoveType::Quiet)));
    assert!(!test_move(&start, mv("e7", "e5", MoveType::Quiet)));
    assert!(!test_move(&start, mv("a1", "a3", MoveType::Quiet)));
    assert!(!test_move(&start, mv("a1", "a2", MoveType::Quiet)));
    assert!(!test_move(&start, mv("a1", "a2", MoveType::Capture)));
    assert!(!test_move(&start, mv("e2", "e5", MoveType::Quiet)));
    assert!(!test_move(&start, mv("e2", "d3", MoveType::Quiet)));
    assert!(!test_move(&start, mv("e2", "d3", MoveType::Capture)));
    assert!(!test_move(&start, mv("e2", "e4", MoveType::Capture)));
    assert!(!test_move(&start, mv("g1", "g3", MoveType::Quiet)));
    assert!(!test_move(&start, mv("c1", "e3", MoveType::Quiet)));
    assert!(!test_move(&start, mv("e1", "g1", MoveType::CastleKing)));
    assert!(!test_move(&start, mv("e1", "c1", MoveType::CastleQueen)));
    assert!(!test_move(
        &start,
        mv("e2", "e3", MoveType::Promote(PromotionType::Queen))
    ));
    assert!(test_move(&start, mv("e2", "e3", MoveType::Quiet)));
    assert!(test_move(&start, mv("b1", "a3", MoveType::Quiet)));
}

#[test]
fn pawn_does_not_jump_over_a_piece() {
    let st = position("4k3/8/8/8/8/4n3/4P3/4K3 w - - 0 1");
    assert!(!test_move(&st, mv("e2", "e4", MoveType::Quiet)));
    assert!(!test_move(&st, mv("e2", "e3", MoveType::Quiet)));
}

#[test]
fn capture_takes_the_piece_of_the_other_side() {
    let st = position("4k3/8/8/3p4/4P3/8/8/4K3 w - - 5 10");
    let m = mv("e4", "d5", MoveType::Capture);
    assert!(test_move(&st, m));
    assert!(!test_move(&st, mv("e4", "d5", MoveType::Quiet)));
    assert!(!test_move(&st, mv("e4", "f5", MoveType::Capture)));
    let next = apply_to_state(&st, m);
    assert_eq!(encode_fen(&next), "4k3/8/8/3P4/8/8/8/4K3 b - - 0 10");
}

#[test]
fn own_piece_is_not_captured() {
    let st = position("4k3/8/8/8/8/8/4P3/4K3 w - - 0 1");
    assert!(!test_move(&st, mv("e1", "e2", MoveType::Capture)));
    assert!(!test_move(&st, mv("e1", "e2", MoveType::Quiet)));
}

#[test]
fn pawn_is_taken_in_passing() {
    let st = position("4k3/8/8/3pP3/8/8/8/4K3 w - d6 0 3");
    let m = mv("e5", "d6", MoveType::Capture);
    assert!(test_move(&st, m));
    let next = apply_to_state(&st, m);
    assert_eq!(encode_fen(&next), "4k3/8/3P4/8/8/8/8/4K3 b - - 0 3");
    let without = position("4k3/8/8/3pP3/8/8/8/4K3 w - - 0 3");
    assert!(!test_move(&without, m));
    let other_file = position("4k3/8/8/3pP3/8/8/8/4K3 w - f6 0 3");
    assert!(!test_move(&other_file, m));
    let black = position("4k3/8/8/8/3pP3/8/8/4K3 b - e3 0 3");
    let reply = mv("d4", "e3", MoveType::Capture);
    assert!(test_move(&black, reply));
    assert_eq!(
        encode_fen(&apply_to_state(&black, reply)),
        "4k3/8/8/8/8/4p3/8/4K3 w - - 0 4"
    );
}

#[test]
fn king_does_not_walk_into_an_attack() {
    let st = position("4k3/8/8/8/8/8/r7/4K3 w - - 0 1");
    assert!(!test_move(&st, mv("e1", "e2", MoveType::Quiet)));
    assert!(!test_move(&st, mv("e1", "d2", MoveType::Quiet)));
    assert!(test_move(&st, mv("e1", "d1", MoveType::Quiet)));
    assert!(test_move(&st, mv("e1", "f1", MoveType::Quiet)));
}

#[test]
fn pinned_piece_does_not_leave_the_line() {
    let st = position("4k3/8/8/8/8/4r3/4N3/4K3 w - - 0 1");
    assert!(!test_move(&st, mv("e2", "c3", MoveType::Quiet)));
    assert!(!test_move(&st, mv("e2", "g1", MoveType::Quiet)));
    let free = position("4k3/8/8/8/8/3r4/4N3/4K3 w - - 0 1");
    assert!(test_move(&free, mv("e2", "c3", MoveType::Quiet)));
}

#[test]
fn check_has_to_be_answered() {
    let st = position("4k3/8/8/8/8/8/3PP3/r3K3 w - - 0 1");
    assert!(is_in_check(&st.pieces, Side::White));
    assert!(!is_in_check(&st.pieces, Side::Black));
    assert!(!test_move(&st, mv("e2", "e3", MoveType::Quiet)));
    assert!(test_move(&st, mv("e1", "f2", MoveType::Quiet)));
    assert!(!test_move(&st, mv("e1", "d1", MoveType::Quiet)));
}

#[test]
fn castling_on_the_kings_side() {
    let st = position("r3k2r/3p1p2/8/8/8/8/3P1P2/R3K2R w KQkq - 0 1");
    let m = mv("e1", "g1", MoveType::CastleKing);
    assert!(test_move(&st, m));
    let next = apply_to_state(&st, m);
    assert_eq!(
        encode_fen(&next),
        "r3k2r/3p1p2/8/8/8/8/3P1P2/R4RK1 b kq - 1 1"
    );
    let reply = mv("e8", "g8", MoveType::CastleKing);
    assert!(test_move(&next, reply));
    assert_eq!(
        encode_fen(&apply_to_state(&next, reply)),
        "r4rk1/3p1p2/8/8/8/8/3P1P2/R4RK1 w - - 2 2"
    );
    let open = position("r3k2r/8/8/8/8/8/8/R4RK1 b kq - 1 1");
    assert!(!test_move(&open, reply));
}

#[test]
fn castling_on_the_queens_side() {
    let st = position("r3k2r/3p1p2/8/8/8/8/3P1P2/R3K2R w KQkq - 0 1");
    let m = mv("e1", "c1", MoveType::CastleQueen);
    assert!(test_move(&st, m));
    let next = apply_to_state(&st, m);
    assert_eq!(
        encode_fen(&next),
        "r3k2r/3p1p2/8/8/8/8/3P1P2/2KR3R b kq - 1 1"
    );
    let reply = mv("e8", "c8", MoveType::CastleQueen);
    assert!(test_move(&next, reply));
    assert_eq!(
        encode_fen(&apply_to_state(&next, reply)),
        "2kr3r/3p1p2/8/8/8/8/3P1P2/2KR3R w - - 2 2"
    );
    let open = position("r3k2r/8/8/8/8/8/8/2KR3R b kq - 1 1");
    assert!(!test_move(&open, reply));
}

#[test]
fn castling_needs_the_right_and_a_free_and_safe_way() {
    let no_right = position("r3k2r/8/8/8/8/8/8/R3K2R w Qkq - 0 1");
    assert!(!test_move(&no_right, mv("e1", "g1", MoveType::CastleKing)));
    assert!(test_move(&no_right, mv("e1", "c1", MoveType::CastleQueen)));
    let blocked = position("r3k2r/8/8/8/8/8/8/RN2K1NR w KQkq - 0 1");
    assert!(!test_move(&blocked, mv("e1", "g1", MoveType::CastleKing)));
    assert!(!test_move(&blocked, mv("e1", "c1", MoveType::CastleQueen)));
    let in_check = position("r3k2r/8/8/8/8/8/4r3/R3K2R w KQkq - 0 1");
    assert!(!test_move(&in_check, mv("e1", "g1", MoveType::CastleKing)));
    assert!(!test_move(&in_check, mv("e1", "c1", MoveType::CastleQueen)));
    let through = position("r3k2r/8/8/8/8/8/5r2/R3K2R w KQkq - 0 1");
    assert!(!test_move(&through, mv("e1", "g1", MoveType::CastleKing)));
    assert!(test_move(&through, mv("e1", "c1", MoveType::CastleQueen)));
    let into = position("r3k2r/8/8/8/8/8/6r1/R3K2R w KQkq - 0 1");
    assert!(!test_move(&into, mv("e1", "g1", MoveType::CastleKing)));
    let rook_attacked = position("r3k2r/8/8/8/8/8/1r6/R3K2R w KQkq - 0 1");
    assert!(test_move(&rook_attacked, mv("e1", "c1", MoveType::CastleQueen)));
    let wrong_square = position("r3k2r/8/8/8/8/8/8/R3K2R w KQkq - 0 1");
    assert!(!test_move(&wrong_square, mv("e1", "f1", MoveType::CastleKing)));
    assert!(!test_move(&wrong_square, mv("e1", "g1", MoveType::CastleQueen)));
}

#[test]
fn rights_to_castle_are_lost_with_king_and_rook() {
    let st = position("r3k2r/8/8/8/8/8/8/R3K2R w KQkq - 0 1");
    let king = apply_to_state(&st, mv("e1", "e2", MoveType::Quiet));
    assert_eq!(encode_fen(&king), "r3k2r/8/8/8/8/8/4K3/R6R b kq - 1 1");
    let rook = apply_to_state(&st, mv("h1", "h2", MoveType::Quiet));
    assert_eq!(encode_fen(&rook), "r3k2r/8/8/8/8/8/7R/R3K3 b Qkq - 1 1");
    let taken = apply_to_state(&st, mv("a1", "a8", MoveType::Capture));
    assert_eq!(encode_fen(&taken), "R3k2r/8/8/8/8/8/8/4K2R b Kk - 0 1");
}

#[test]
fn pawn_promotes_on_the_last_rank() {
    let st = position("3n4/4P3/8/8/8/8/8/K6k w - - 0 1");
    let queen = mv("e7", "e8", MoveType::Promote(PromotionType::Queen));
    assert!(test_move(&st, queen));
    assert!(!test_move(&st, mv("e7", "e8", MoveType::Quiet)));
    assert_eq!(
        encode_fen(&apply_to_state(&st, queen)),
        "3nQ3/8/8/8/8/8/8/K6k b - - 0 1"
    );
    let knight = mv("e7", "d8", MoveType::PromoteCapture(PromotionType::Knight));
    assert!(test_move(&st, knight));
    assert!(!test_move(&st, mv("e7", "d8", MoveType::Capture)));
    assert!(!test_move(
        &st,
        mv("e7", "f8", MoveType::PromoteCapture(PromotionType::Knight))
    ));
    assert_eq!(
        encode_fen(&apply_to_state(&st, knight)),
        "3N4/8/8/8/8/8/8/K6k b - - 0 1"
    );
    let rook = mv("e7", "e8", MoveType::Promote(PromotionType::Rook));
    assert_eq!(
        encode_fen(&apply_to_state(&st, rook)),
        "3nR3/8/8/8/8/8/8/K6k b - - 0 1"
    );
    let bishop = mv("e7", "e8", MoveType::Promote(PromotionType::Bishop));
    assert_eq!(
        encode_fen(&apply_to_state(&st, bishop)),
        "3nB3/8/8/8/8/8/8/K6k b - - 0 1"
    );
    let black = position("K6k/8/8/8/8/8/4p3/8 b - - 0 1");
    let down = mv("e2", "e1", MoveType::Promote(PromotionType::Queen));
    assert!(test_move(&black, down));
    assert_eq!(
        encode_fen(&apply_to_state(&black, down)),
        "K6k/8/8/8/8/8/8/4q3 w - - 0 2"
    );
}

#[test]
fn move_from_an_empty_square_changes_no_piece() {
    let st = position(START);
    let next = apply_move(&st.pieces, mv("e4", "e5", MoveType::Quiet));
    assert_eq!(next, st.pieces);
}

#[test]
fn quiet_move_onto_a_piece_is_found_by_the_check_of_the_pieces() {
    let st = position(START);
    let next = apply_move(&st.pieces, mv("a1", "a2", MoveType::Quiet));
    assert_eq!(
        next.check_valid(),
        Err(PieceStateValidatorErr::PiecesOnSamePosition)
    );
}

#[test]
fn counters_stay_at_their_highest_value() {
    let st = position("4k3/8/8/8/8/8/8/4K3 b - - 255 65535");
    let next = apply_to_state(&st, mv("e8", "e7", MoveType::Quiet));
    assert_eq!(next.reversable_moves, 255);
    assert_eq!(next.full_moves, 65535);
    assert_eq!(next.to_move, Side::White);
}

#[test]
fn attacked_squares_of_the_start_position() {
    let start = BbPieceState::start();
    let white = attacked_squares(&start, Side::White);
    assert_eq!(white.v, 0x0000_0000_00ff_ff7e);
    let black = attacked_squares(&start, Side::Black);
    assert_eq!(black.v, 0x7eff_ff00_0000_0000);
}

#[test]
fn board_trait_of_a_position() {
    let st = <BbBoardState as Board>::from_fen(START.to_string());
    assert!(Board::is_legal(&st));
    assert!(Board::test_move(&st, mv("d2", "d4", MoveType::Quiet)));
    let next = Board::make_move(&st, mv("d2", "d4", MoveType::Quiet));
    assert_eq!(
        Board::pretty_print(&next),
        "rnbqkbnr\npppppppp\n........\n........\n...P....\n........\nPPP.PPPP\nRNBQKBNR\n"
    );
    assert_eq!(next.en_passant, Some(File::D));
    let none = <BbBoardState as Board>::empty();
    assert!(!Board::is_legal(&none));
    assert_eq!(encode_fen(&none), "8/8/8/8/8/8/8/8 w - - 0 1");
    assert_eq!(
        Square::from_rank_file(Rank::R4, File::D),
        sq("d4")
    );
}

#[test]
fn king_is_never_taken() {
    let kings = position("8/8/8/8/8/8/4k3/4K3 w - - 0 1");
    assert!(kings.pieces.is_legal());
    let take = mv("e1", "e2", MoveType::Capture);
    assert!(!test_move(&kings, take));
    assert_eq!(check_move(&kings, take), Err(MoveError::BadGeometry));
    assert_eq!(try_move(&kings, take), Err(MoveError::BadGeometry));
    assert!(!test_move(&kings, mv("e1", "e2", MoveType::Quiet)));
    let rook = position("4k3/8/8/8/8/8/8/4R2K w - - 0 1");
    assert!(!test_move(&rook, mv("e1", "e8", MoveType::Capture)));
    assert!(test_move(&rook, mv("e1", "e7", MoveType::Quiet)));
    let pawn = position("3k4/4P3/8/8/8/8/8/7K w - - 0 1");
    assert!(!test_move(
        &pawn,
        mv("e7", "d8", MoveType::PromoteCapture(PromotionType::Queen))
    ));
    assert!(test_move(
        &pawn,
        mv("e7", "e8", MoveType::Promote(PromotionType::Queen))
    ));
}

#[test]
fn position_after_a_move_that_is_made_stays_legal() {
    let st = position("r3k2r/p1ppqpb1/bn2pnp1/3PN3/1p2P3/2N2Q1p/PPPBBPPP/R3K2R w KQkq - 0 1");
    assert!(st.pieces.is_legal());
    for from in 0u8..64 {
        for to in 0u8..64 {
            let m = Move::new(Square::new(from), Square::new(to), MoveType::Capture);
            if let Ok(after) = try_move(&st, m) {
                assert!(after.pieces.is_legal());
            }
            let q = Move::new(Square::new(from), Square::new(to), MoveType::Quiet);
            if let Ok(after) = try_move(&st, q) {
                assert!(after.pieces.is_legal());
            }
        }
    }
}
