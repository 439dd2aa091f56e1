use bitboard_chess::api::PieceState;
use bitboard_chess::board::BbPieceState;
use bitboard_chess::enums::{File, Side};
use bitboard_chess::fen::{parse_fen, FenError};

#[test]
fn fen_parse_start() {
    let fen = "rnbqkbnr/pppppppp/8/8/8/8/PPPPPPPP/RNBQKBNR w KQkq - 0 1";
    let start = parse_fen(fen.to_string()).unwrap();
    assert!(start.w_kingside_castling == true);
    assert!(start.w_queenside_castling == true);
    assert!(start.b_kingside_castling == true);
    assert!(start.b_queenside_castling == true);
    assert!(start.en_passant == None);
    assert!(start.reversable_moves == 0);
    assert!(start.to_move == Side::White);
    assert!(start.pieces == BbPieceState::start());
    assert!(start.pieces.is_legal());
}

#[test]
fn fen_parse_game_1() {
    let fen = "rnbqkbnr/pp2pppp/3p4/2p5/3PP3/5N2/PPP2PPP/RNBQKB1R b KQkq - 0 3";
    let game = parse_fen(fen.to_string()).unwrap();
    assert!(game.w_kingside_castling == true);
    assert!(game.w_queenside_castling == true);
    assert!(game.b_kingside_castling == true);
    assert!(game.b_queenside_castling == true);
    assert!(game.en_passant == None);
    assert!(game.reversable_moves == 0);
    assert!(game.to_move == Side::Black);
    let expected = "rnbqkbnr\n\
             pp..pppp\n\
             ...p....\n\
             ..p.....\n\
             ...PP...\n\
             .....N..\n\
             PPP..PPP\n\
             RNBQKB.R\n"
        .to_string();
    assert!(game.pieces.pretty_print() == expected);
    assert!(game.pieces.is_legal());
}

#[test]
fn fen_keeps_the_counters_and_the_en_passant_file() {
    let fen = "rnbqkbnr/pppp1ppp/8/4p3/4P3/8/PPPP1PPP/RNBQKBNR w Kq e6 12 345";
    let game = parse_fen(fen.to_string()).unwrap();
    assert_eq!(game.to_move, Side::White);
    assert!(game.w_kingside_castling);
    assert!(!game.w_queenside_castling);
    assert!(!game.b_kingside_castling);
    assert!(game.b_queenside_castling);
    assert_eq!(game.en_passant, Some(File::E));
    assert_eq!(game.reversable_moves, 12);
    assert_eq!(game.full_moves, 345);
}

#[test]
fn fen_without_castling_rights() {
    let fen = "4k3/8/8/8/8/8/8/4K3 b - h3 255 65535";
    let game = parse_fen(fen.to_string()).unwrap();
    assert_eq!(game.to_move, Side::Black);
    assert!(!game.w_kingside_castling);
    assert!(!game.w_queenside_castling);
    assert!(!game.b_kingside_castling);
    assert!(!game.b_queenside_castling);
    assert_eq!(game.en_passant, Some(File::H));
    assert_eq!(game.reversable_moves, 255);
    assert_eq!(game.full_moves, 65535);
    assert_eq!(game.pieces.wk.v, 0x10);
    assert_eq!(game.pieces.bk.v, 0x1000_0000_0000_0000);
    assert_eq!(game.pieces.occupancy().v, 0x1000_0000_0000_0010);
}

#[test]
fn fen_reads_digits_one_after_another() {
    let fen = "4k3/8/8/44/17/8/8/4K3 w - - 0 1";
    let game = parse_fen(fen.to_string()).unwrap();
    assert_eq!(game.pieces.occupancy().v, 0x1000_0000_0000_0010);
}

#[test]
fn fen_ignores_what_follows_the_move_number() {
    let fen = "4k3/8/8/8/8/8/8/4K3 w - - 0 1 and more";
    assert!(parse_fen(fen.to_string()).is_ok());
}

fn error_of(fen: &str) -> FenError {
    parse_fen(fen.to_string()).unwrap_err()
}

#[test]
fn fen_malformed_board() {
    assert_eq!(error_of(""), FenError::MalformedBoard);
    assert_eq!(error_of("rnbqkbnr"), FenError::MalformedBoard);
    assert_eq!(
        error_of("rnbqkbnr/pppppppp/9/8/8/8/PPPPPPPP/RNBQKBNR w KQkq - 0 1"),
        FenError::MalformedBoard
    );
    assert_eq!(
        error_of("rnbqkbnr/pppppppp/72/8/8/8/PPPPPPPP/RNBQKBNR w KQkq - 0 1"),
        FenError::MalformedBoard
    );
    assert_eq!(
        error_of("rnbqkbnrr/pppppppp/8/8/8/8/PPPPPPPP/RNBQKBNR w KQkq - 0 1"),
        FenError::MalformedBoard
    );
    assert_eq!(
        error_of("rnbqkbn/pppppppp/8/8/8/8/PPPPPPPP/RNBQKBNR w KQkq - 0 1"),
        FenError::MalformedBoard
    );
    assert_eq!(
        error_of("rnbqkbnr/ppppxppp/8/8/8/8/PPPPPPPP/RNBQKBNR w KQkq - 0 1"),
        FenError::MalformedBoard
    );
    assert_eq!(
        error_of("rnbqkbnr/pppppppp/08/8/8/8/PPPPPPPP/RNBQKBNR w KQkq - 0 1"),
        FenError::MalformedBoard
    );
    assert_eq!(
        error_of("rnbqkbnr pppppppp/8/8/8/8/PPPPPPPP/RNBQKBNR w KQkq - 0 1"),
        FenError::MalformedBoard
    );
    assert_eq!(
        error_of("rnbqkbnr/pppppppp/8/8/8/8/PPPPPPPP/RNBQKBN"),
        FenError::MalformedBoard
    );
    assert_eq!(
        error_of("rnbqkbnr/pppppppp/8/8/8/8/PPPPPPPP/RNBQKBNRw KQkq - 0 1"),
        FenError::MalformedBoard
    );
    assert_eq!(
        error_of("rnbqkbnr/pppppppp/8/8/8/8/PPPPPPPP/RNBQKBNR/8 w KQkq - 0 1"),
        FenError::MalformedBoard
    );
}

#[test]
fn fen_invalid_side_to_move() {
    assert_eq!(
        error_of("4k3/8/8/8/8/8/8/4K3 x - - 0 1"),
        FenError::InvalidSideToMove
    );
    assert_eq!(error_of("4k3/8/8/8/8/8/8/4K3 "), FenError::InvalidSideToMove);
    assert_eq!(
        error_of("4k3/8/8/8/8/8/8/4K3 W - - 0 1"),
        FenError::InvalidSideToMove
    );
    assert_eq!(
        error_of("rnbqkbnr/pppppppp/8/8/8/8/PPPPPPPP/RNBQKBNR"),
        FenError::InvalidSideToMove
    );
    assert_eq!(
        error_of("4k3/8/8/8/8/8/8/4K3 wKQ - 0 1"),
        FenError::InvalidSideToMove
    );
}

#[test]
fn fen_invalid_castling_field() {
    assert_eq!(
        error_of("4k3/8/8/8/8/8/8/4K3 w KX - 0 1"),
        FenError::InvalidCastlingField
    );
    assert_eq!(
        error_of("4k3/8/8/8/8/8/8/4K3 w  - 0 1"),
        FenError::InvalidCastlingField
    );
    assert_eq!(
        error_of("4k3/8/8/8/8/8/8/4K3 w"),
        FenError::InvalidCastlingField
    );
    assert_eq!(
        error_of("4k3/8/8/8/8/8/8/4K3 w KQkq- 0 1"),
        FenError::InvalidCastlingField
    );
    assert_eq!(
        error_of("4k3/8/8/8/8/8/8/4K3 w -K - 0 1"),
        FenError::InvalidCastlingField
    );
    assert_eq!(
        error_of("4k3/8/8/8/8/8/8/4K3 w "),
        FenError::InvalidCastlingField
    );
}

#[test]
fn fen_invalid_en_passant() {
    assert_eq!(
        error_of("4k3/8/8/8/8/8/8/4K3 w - i3 0 1"),
        FenError::InvalidEnPassant
    );
    assert_eq!(
        error_of("4k3/8/8/8/8/8/8/4K3 w - e9 0 1"),
        FenError::InvalidEnPassant
    );
    assert_eq!(
        error_of("4k3/8/8/8/8/8/8/4K3 w - e0 0 1"),
        FenError::InvalidEnPassant
    );
    assert_eq!(
        error_of("4k3/8/8/8/8/8/8/4K3 w - e"),
        FenError::InvalidEnPassant
    );
    assert_eq!(
        error_of("4k3/8/8/8/8/8/8/4K3 w - "),
        FenError::InvalidEnPassant
    );
    assert_eq!(
        error_of("4k3/8/8/8/8/8/8/4K3 w KQkq"),
        FenError::InvalidEnPassant
    );
    assert_eq!(
        error_of("4k3/8/8/8/8/8/8/4K3 w -"),
        FenError::InvalidEnPassant
    );
    assert_eq!(
        error_of("4k3/8/8/8/8/8/8/4K3 w - -x0 1"),
        FenError::InvalidEnPassant
    );
    assert_eq!(
        error_of("4k3/8/8/8/8/8/8/4K3 w - e33 0 1"),
        FenError::InvalidEnPassant
    );
}

#[test]
fn fen_that_ends_early_misses_the_field_that_should_follow() {
    let board = "rnbqkbnr/pppppppp/8/8/8/8/PPPPPPPP/RNBQKBNR";
    assert_eq!(error_of(board), FenError::InvalidSideToMove);
    assert_eq!(
        error_of(&format!("{} ", board)),
        FenError::InvalidSideToMove
    );
    assert_eq!(
        error_of(&format!("{} w", board)),
        FenError::InvalidCastlingField
    );
    assert_eq!(
        error_of(&format!("{} w ", board)),
        FenError::InvalidCastlingField
    );
    assert_eq!(
        error_of(&format!("{} w KQkq", board)),
        FenError::InvalidEnPassant
    );
    assert_eq!(
        error_of(&format!("{} w KQkq ", board)),
        FenError::InvalidEnPassant
    );
    assert_eq!(
        error_of(&format!("{} w KQkq -", board)),
        FenError::InvalidMoveCounter
    );
    assert_eq!(
        error_of(&format!("{} w KQkq e3", board)),
        FenError::InvalidMoveCounter
    );
    assert_eq!(
        error_of(&format!("{} w KQkq - ", board)),
        FenError::InvalidMoveCounter
    );
    assert_eq!(
        error_of(&format!("{} w KQkq - 0", board)),
        FenError::InvalidMoveCounter
    );
    assert!(parse_fen(format!("{} w KQkq - 0 1", board)).is_ok());
}

#[test]
fn fen_invalid_move_counter() {
    assert_eq!(
        error_of("4k3/8/8/8/8/8/8/4K3 w - -"),
        FenError::InvalidMoveCounter
    );
    assert_eq!(
        error_of("4k3/8/8/8/8/8/8/4K3 w - - x 1"),
        FenError::InvalidMoveCounter
    );
    assert_eq!(
        error_of("4k3/8/8/8/8/8/8/4K3 w - - "),
        FenError::InvalidMoveCounter
    );
    assert_eq!(
        error_of("4k3/8/8/8/8/8/8/4K3 w - - 0"),
        FenError::InvalidMoveCounter
    );
    assert_eq!(
        error_of("4k3/8/8/8/8/8/8/4K3 w - - 0 "),
        FenError::InvalidMoveCounter
    );
    assert_eq!(
        error_of("4k3/8/8/8/8/8/8/4K3 w - - 0 x"),
        FenError::InvalidMoveCounter
    );
    assert_eq!(
        error_of("4k3/8/8/8/8/8/8/4K3 w - - 256 1"),
        FenError::InvalidMoveCounter
    );
    assert_eq!(
        error_of("4k3/8/8/8/8/8/8/4K3 w - - 0 65536"),
        FenError::InvalidMoveCounter
    );
    assert_eq!(
        error_of("4k3/8/8/8/8/8/8/4K3 w - - 99999999999999999999 1"),
        FenError::InvalidMoveCounter
    );
    assert_eq!(
        error_of("4k3/8/8/8/8/8/8/4K3 w - - 0x 1"),
        FenError::InvalidMoveCounter
    );
}

#[test]
fn fen_counters_may_have_leading_zeros() {
    let game = parse_fen("4k3/8/8/8/8/8/8/4K3 w - - 007 0010".to_string()).unwrap();
    assert_eq!(game.reversable_moves, 7);
    assert_eq!(game.full_moves, 10);
}

#[test]
fn position_read_with_one_king_of_each_side_is_legal() {
    let texts = [
        "k7/8/8/8/8/8/8/7K w - - 0 1",
        "pppppppp/pppppppp/PPPPPPPP/QQQQQQQQ/rrrrrrrr/nnnnnnnn/BBBBBBBB/k6K b - - 0 1",
        "8/8/8/3kK3/8/8/8/8 w - - 0 1",
    ];
    for text in texts {
        assert!(parse_fen(text.to_string()).unwrap().pieces.is_legal());
    }
    let two = parse_fen("k7/8/8/8/8/8/8/6KK w - - 0 1".to_string()).unwrap();
    assert!(!two.pieces.is_legal());
    let none = parse_fen("k7/8/8/8/8/8/8/8 w - - 0 1".to_string()).unwrap();
    assert!(!none.pieces.is_legal());
}
