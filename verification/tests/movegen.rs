use bitboard_chess::api::{Move, MoveType, Square};
use bitboard_chess::board::BbBoardState;
use bitboard_chess::fen::parse_fen;
use bitboard_chess::movegen::{kind_list, legal_moves};
use bitboard_chess::moves::{apply_to_state, test_move, try_move, check_move, MoveError};

fn position(fen: &str) -> BbBoardState {
    parse_fen(fen.to_string()).unwrap()
}

fn count(st: &BbBoardState, depth: u32) -> u64 {
    if depth == 0 {
        return 1;
    }
    let mut n = 0;
    for m in legal_moves(st) {
        n += count(&apply_to_state(st, m), depth - 1);
    }
    n
}

const START: &str = "rnbqkbnr/pppppppp/8/8/8/8/PPPPPPPP/RNBQKBNR w KQkq - 0 1";

#[test]
fn twenty_moves_at_the_start() {
    let st = position(START);
    let moves = legal_moves(&st);
    assert_eq!(moves.len(), 20);
    for m in &moves {
        assert!(test_move(&st, *m));
        assert_eq!(m.move_type, MoveType::Quiet);
    }
    assert_eq!(
        moves[0],
        Move::new(Square::new(1), Square::new(16), MoveType::Quiet)
    );
}

#[test]
fn moves_are_counted_two_and_three_deep() {
    let st = position(START);
    assert_eq!(count(&st, 2), 400);
    assert_eq!(count(&st, 3), 8902);
}

#[test]
fn moves_of_a_middle_game() {
    let st = position("r3k2r/p1ppqpb1/bn2pnp1/3PN3/1p2P3/2N2Q1p/PPPBBPPP/R3K2R w KQkq - 0 1");
    assert_eq!(legal_moves(&st).len(), 48);
    assert_eq!(count(&st, 2), 2039);
}

#[test]
fn moves_with_promotions_and_checks() {
    let st = position("8/2p5/3p4/KP5r/1R3p1k/8/4P1P1/8 w - - 0 1");
    assert_eq!(legal_moves(&st).len(), 14);
    assert_eq!(count(&st, 2), 191);
    assert_eq!(count(&st, 3), 2812);
    let promo = position("n1n5/PPPk4/8/8/8/8/4Kppp/5N1N b - - 0 1");
    assert_eq!(legal_moves(&promo).len(), 24);
    assert_eq!(count(&promo, 2), 496);
}

#[test]
fn no_move_when_mated_or_stalemated() {
    let mate = position("rnb1kbnr/pppp1ppp/8/4p3/6Pq/5P2/PPPPP2P/RNBQKBNR w KQkq - 1 3");
    assert_eq!(legal_moves(&mate).len(), 0);
    let stale = position("7k/5Q2/6K1/8/8/8/8/8 b - - 0 1");
    assert_eq!(legal_moves(&stale).len(), 0);
}

#[test]
fn listed_moves_are_the_allowed_moves() {
    let st = position("r3k2r/p1ppqpb1/bn2pnp1/3PN3/1p2P3/2N2Q1p/PPPBBPPP/R3K2R w KQkq - 0 1");
    let moves = legal_moves(&st);
    let kinds = kind_list();
    let mut n = 0;
    for from in 0u8..64 {
        for to in 0u8..64 {
            for kind in kinds {
                let m = Move::new(Square::new(from), Square::new(to), kind);
                let listed = moves.contains(&m);
                assert_eq!(listed, test_move(&st, m));
                if listed {
                    n += 1;
                }
            }
        }
    }
    assert_eq!(n, moves.len());
}

#[test]
fn verdicts_name_the_first_objection() {
    let st = position("4k3/8/8/8/8/4r3/4N3/4K3 w - - 0 1");
    let quiet = |from: u8, to: u8| Move::new(Square::new(from), Square::new(to), MoveType::Quiet);
    assert_eq!(check_move(&st, quiet(30, 31)), Err(MoveError::NoPiece));
    assert_eq!(check_move(&st, quiet(20, 21)), Err(MoveError::NoPiece));
    assert_eq!(check_move(&st, quiet(12, 13)), Err(MoveError::BadGeometry));
    assert_eq!(check_move(&st, quiet(12, 18)), Err(MoveError::IntoCheck));
    assert_eq!(check_move(&st, quiet(4, 3)), Ok(()));
    assert_eq!(try_move(&st, quiet(12, 18)), Err(MoveError::IntoCheck));
    assert_eq!(try_move(&st, quiet(4, 3)), Ok(apply_to_state(&st, quiet(4, 3))));
    assert_eq!(try_move(&st, quiet(30, 31)), Err(MoveError::NoPiece));
}
