use crate::api::{Move, MoveType, Square};
use crate::attacks::{
    attack_squares, attacked_by, attacked_squares, gap, in_check, is_in_check,
    lemma_bishop_stays_on_its_lines, lemma_rook_stays_on_its_lines, pawn_push_squares,
    pawn_pushes, piece_attacks, rook_squares,
};
use crate::bitboard::{
    all_squares, lemma_set_has_word, lemma_squares_determine_word, lemma_squares_len, word_below,
    Bitboard,
};
use crate::board::{
    lemma_apart_iff_disjoint, lemma_boards_apart, lemma_occupied_has_piece,
    lemma_piece_at_unique, BbBoardState, BbPieceState,
};
use crate::enums::{lemma_file_round_trip, BoardSide, File, Piece, Side};
use vstd::prelude::*;

verus! {

/// The square of the piece that the move takes, if it takes one. A pawn that
/// captures onto an empty square takes in passing: the pawn that it takes
/// stands beside it, on the file of the square that it goes to.
pub open spec fn taken_square(ps: BbPieceState, m: Move, mover: Piece) -> Option<int> {
    match m.move_type {
        MoveType::Capture => if mover == Piece::P && ps.piece_at(m.to@) is None {
            Some(m.from@ / 8 * 8 + m.to@ % 8)
        } else {
            Some(m.to@)
        },
        MoveType::PromoteCapture(_) => Some(m.to@),
        _ => None,
    }
}

/// The square that the rook leaves when the move castles: the corner of the
/// rank that the king stands on.
pub open spec fn rook_leaves(m: Move) -> Option<int> {
    match m.move_type {
        MoveType::CastleKing => Some(m.from@ / 8 * 8 + 7),
        MoveType::CastleQueen => Some(m.from@ / 8 * 8),
        _ => None,
    }
}

/// The square that the rook goes to when the move castles: the square beside
/// the king's, which the king passes over.
pub open spec fn rook_lands(m: Move) -> Option<int> {
    match m.move_type {
        MoveType::CastleKing => Some(m.from@ / 8 * 8 + 5),
        MoveType::CastleQueen => Some(m.from@ / 8 * 8 + 3),
        _ => None,
    }
}

/// The kind of piece that arrives: the piece that moves, or the piece that a
/// pawn becomes.
pub open spec fn landing_piece(m: Move, mover: Piece) -> Piece {
    match m.move_type.promotes_to() {
        Some(piece) => piece,
        None => mover,
    }
}

/// The squares on which the pieces of one kind and side stand after the
/// move. The piece that moves is the piece on the square that the move
/// leaves; where no piece stands there, nothing changes. Else the piece
/// leaves its square, the piece that is taken leaves the board, a rook that
/// castles changes its square, and the piece that arrives is put on the
/// square that the move goes to.
pub open spec fn squares_after(ps: BbPieceState, m: Move, side: Side, piece: Piece) -> Set<int> {
    let base = ps.board(side, piece)@;
    match ps.piece_at(m.from@) {
        None => base,
        Some((who, mover)) => {
            let left = if side == who && piece == mover {
                base.remove(m.from@)
            } else {
                base
            };
            let taken = if side != who && taken_square(ps, m, mover) is Some {
                left.remove(taken_square(ps, m, mover)->0)
            } else {
                left
            };
            let castled = if side == who && piece == Piece::R && rook_leaves(m) is Some {
                taken.remove(rook_leaves(m)->0).insert(rook_lands(m)->0)
            } else {
                taken
            };
            if side == who && piece == landing_piece(m, mover) {
                castled.insert(m.to@)
            } else {
                castled
            }
        },
    }
}

/// The pieces `next` are the pieces `ps` after the move `m`.
pub open spec fn is_after(next: BbPieceState, ps: BbPieceState, m: Move) -> bool {
    forall|side: Side, piece: Piece| #[trigger]
        next.board(side, piece)@ == squares_after(ps, m, side, piece)
}

/// The pieces after the move `m`.
pub open spec fn pieces_after(ps: BbPieceState, m: Move) -> BbPieceState {
    choose|next: BbPieceState| is_after(next, ps, m)
}

/// Two sets of pieces that stand on the same squares are the same set.
pub proof fn lemma_same_boards(a: BbPieceState, b: BbPieceState)
    requires
        forall|side: Side, piece: Piece| #[trigger] a.board(side, piece)@ == b.board(side, piece)@,
    ensures
        a == b,
{
    assert forall|side: Side, piece: Piece| #[trigger] a.board(side, piece) == b.board(
        side,
        piece,
    ) by {
        assert(a.board(side, piece)@ == b.board(side, piece)@);
        lemma_squares_determine_word(a.board(side, piece).v, b.board(side, piece).v);
    }
    assert(a.board(Side::White, Piece::P) == b.board(Side::White, Piece::P));
    assert(a.board(Side::White, Piece::N) == b.board(Side::White, Piece::N));
    assert(a.board(Side::White, Piece::B) == b.board(Side::White, Piece::B));
    assert(a.board(Side::White, Piece::R) == b.board(Side::White, Piece::R));
    assert(a.board(Side::White, Piece::Q) == b.board(Side::White, Piece::Q));
    assert(a.board(Side::White, Piece::K) == b.board(Side::White, Piece::K));
    assert(a.board(Side::Black, Piece::P) == b.board(Side::Black, Piece::P));
    assert(a.board(Side::Black, Piece::N) == b.board(Side::Black, Piece::N));
    assert(a.board(Side::Black, Piece::B) == b.board(Side::Black, Piece::B));
    assert(a.board(Side::Black, Piece::R) == b.board(Side::Black, Piece::R));
    assert(a.board(Side::Black, Piece::Q) == b.board(Side::Black, Piece::Q));
    assert(a.board(Side::Black, Piece::K) == b.board(Side::Black, Piece::K));
}

/// The pieces whose sets are the words of the squares on which the pieces
/// stand after the move.
pub open spec fn built_after(ps: BbPieceState, m: Move) -> BbPieceState {
    BbPieceState {
        wp: Bitboard { v: word_below(squares_after(ps, m, Side::White, Piece::P), 64) },
        wr: Bitboard { v: word_below(squares_after(ps, m, Side::White, Piece::R), 64) },
        wn: Bitboard { v: word_below(squares_after(ps, m, Side::White, Piece::N), 64) },
        wb: Bitboard { v: word_below(squares_after(ps, m, Side::White, Piece::B), 64) },
        wq: Bitboard { v: word_below(squares_after(ps, m, Side::White, Piece::Q), 64) },
        wk: Bitboard { v: word_below(squares_after(ps, m, Side::White, Piece::K), 64) },
        bp: Bitboard { v: word_below(squares_after(ps, m, Side::Black, Piece::P), 64) },
        br: Bitboard { v: word_below(squares_after(ps, m, Side::Black, Piece::R), 64) },
        bn: Bitboard { v: word_below(squares_after(ps, m, Side::Black, Piece::N), 64) },
        bb: Bitboard { v: word_below(squares_after(ps, m, Side::Black, Piece::B), 64) },
        bq: Bitboard { v: word_below(squares_after(ps, m, Side::Black, Piece::Q), 64) },
        bk: Bitboard { v: word_below(squares_after(ps, m, Side::Black, Piece::K), 64) },
    }
}

/// There are pieces after every move between squares of the board:
/// `pieces_after` gives them.
pub proof fn lemma_pieces_after_exist(ps: BbPieceState, m: Move)
    requires
        m.wf(),
    ensures
        is_after(pieces_after(ps, m), ps, m),
{
    let built = built_after(ps, m);
    assert forall|side: Side, piece: Piece| #[trigger]
        built.board(side, piece)@ == squares_after(ps, m, side, piece) by {
        let set = squares_after(ps, m, side, piece);
        lemma_squares_len(ps.board(side, piece).v);
        assert(set.subset_of(all_squares()));
        lemma_set_has_word(set);
    }
    assert(is_after(built, ps, m));
}

/// There is one set of pieces after a move and no other.
pub proof fn lemma_pieces_after_unique(next: BbPieceState, ps: BbPieceState, m: Move)
    requires
        is_after(next, ps, m),
    ensures
        next == pieces_after(ps, m),
{
    let other = pieces_after(ps, m);
    assert(is_after(other, ps, m));
    assert forall|side: Side, piece: Piece| #[trigger]
        next.board(side, piece)@ == other.board(side, piece)@ by {
        assert(next.board(side, piece)@ == squares_after(ps, m, side, piece));
        assert(other.board(side, piece)@ == squares_after(ps, m, side, piece));
    }
    lemma_same_boards(next, other);
}

/// The pieces after the move `m`: the piece on the square that the move
/// leaves goes to the square that the move names; a capture takes the piece
/// of the other side from the square that the move goes to, or, where a pawn
/// takes in passing, the pawn beside it; castling moves the rook too; a
/// promotion puts the new piece in the pawn's place. Where no piece stands on
/// the square that the move leaves, the pieces stay as they are.
pub fn apply_move(ps: &BbPieceState, m: Move) -> (next: BbPieceState)
    requires
        m.wf(),
    ensures
        is_after(next, *ps, m),
        next == pieces_after(*ps, m),
{
    let (who, mover) = match ps.piece_on(m.from) {
        Some(found) => found,
        None => {
            proof {
                lemma_pieces_after_unique(*ps, *ps, m);
            }
            return *ps;
        },
    };
    let rank: u8 = m.from.v / 8;
    let mut next = *ps;
    next.take(who, mover, m.from);
    match m.move_type {
        MoveType::Capture => {
            let passing = mover == Piece::P && ps.piece_on(m.to).is_none();
            let taken = if passing {
                Square::new(rank * 8 + m.to.v % 8)
            } else {
                m.to
            };
            next.clear_side(who.opponent(), taken);
        },
        MoveType::PromoteCapture(_) => {
            next.clear_side(who.opponent(), m.to);
        },
        MoveType::CastleKing => {
            next.take(who, Piece::R, Square::new(rank * 8 + 7));
            next.put(who, Piece::R, Square::new(rank * 8 + 5));
        },
        MoveType::CastleQueen => {
            next.take(who, Piece::R, Square::new(rank * 8));
            next.put(who, Piece::R, Square::new(rank * 8 + 3));
        },
        _ => {},
    }
    let lands = match m.move_type.promotion() {
        Some(piece) => piece,
        None => mover,
    };
    next.put(who, lands, m.to);
    proof {
        assert forall|side: Side, piece: Piece| #[trigger]
            next.board(side, piece)@ == squares_after(*ps, m, side, piece) by {
            assert(side == who || side == who.flipped());
        }
        lemma_pieces_after_unique(next, *ps, m);
    }
    next
}

/// The way that the pawns of a side move: one rank up for White, one rank
/// down for Black.
pub open spec fn forward(side: Side) -> int {
    match side {
        Side::White => 1,
        Side::Black => -1,
    }
}

/// The number of the rank on which the pieces of a side start.
pub open spec fn back_rank(side: Side) -> int {
    match side {
        Side::White => 0,
        Side::Black => 7,
    }
}

/// The number of the rank on which the pawns of a side promote.
pub open spec fn last_rank(side: Side) -> int {
    back_rank(side.flipped())
}

/// A piece that the side may take stands on square `s`: a piece of the
/// other side that is not its king. A king is never taken.
pub open spec fn prey_on(ps: BbPieceState, side: Side, s: int) -> bool {
    match ps.piece_at(s) {
        Some((owner, kind)) => owner != side && kind != Piece::K,
        None => false,
    }
}

/// The move is one or two steps of a pawn straight ahead onto an empty
/// square, short of the last rank. Two steps are taken from the rank on which
/// the pawns start, over an empty square.
pub open spec fn is_pawn_push(ps: BbPieceState, m: Move, side: Side) -> bool {
    &&& pawn_push_squares(side == Side::White, m.from@, ps.occupied()).contains(m.to@)
    &&& m.to@ / 8 != last_rank(side)
}

/// The move takes a pawn in passing: a pawn goes to the empty square behind a
/// pawn of the other side that has just advanced two squares on the file
/// that the position names, and that stands beside it.
pub open spec fn is_en_passant(st: BbBoardState, m: Move, side: Side) -> bool {
    let from = m.from@;
    let to = m.to@;
    &&& st.pieces.piece_at(to) is None
    &&& st.en_passant == Some(File::of(to % 8))
    &&& from / 8 == last_rank(side) - 3 * forward(side)
    &&& st.pieces.piece_at(from / 8 * 8 + to % 8) == Some((side.flipped(), Piece::P))
}

/// The side still holds the right to castle on the given wing.
pub open spec fn holds_right(st: BbBoardState, side: Side, wing: BoardSide) -> bool {
    match side {
        Side::White => if wing == BoardSide::KingSide {
            st.w_kingside_castling
        } else {
            st.w_queenside_castling
        },
        Side::Black => if wing == BoardSide::KingSide {
            st.b_kingside_castling
        } else {
            st.b_queenside_castling
        },
    }
}

/// The side may castle on the given wing now: it holds the right, king and
/// rook stand on their first squares, the squares between them are empty,
/// and neither the king's square nor the square that it passes over is
/// attacked.
pub open spec fn may_castle(st: BbBoardState, m: Move, side: Side, wing: BoardSide) -> bool {
    let ps = st.pieces;
    let base = back_rank(side) * 8;
    let attacked = attacked_by(ps, side.flipped());
    &&& holds_right(st, side, wing)
    &&& m.from@ == base + 4
    &&& ps.piece_at(base + 4) == Some((side, Piece::K))
    &&& !attacked.contains(base + 4)
    &&& if wing == BoardSide::KingSide {
        &&& m.to@ == base + 6
        &&& ps.piece_at(base + 7) == Some((side, Piece::R))
        &&& ps.piece_at(base + 5) is None
        &&& ps.piece_at(base + 6) is None
        &&& !attacked.contains(base + 5)
    } else {
        &&& m.to@ == base + 2
        &&& ps.piece_at(base) == Some((side, Piece::R))
        &&& ps.piece_at(base + 1) is None
        &&& ps.piece_at(base + 2) is None
        &&& ps.piece_at(base + 3) is None
        &&& !attacked.contains(base + 3)
    }
}

/// The move agrees with the way that the piece on its first square moves, and
/// with its kind. A quiet move goes to an empty square; a capture takes a
/// piece of the other side that is not its king, or a pawn in passing; a
/// promotion is the move of a pawn to the last rank; castling is the move of
/// a king that `may_castle` allows.
pub open spec fn fits_piece(st: BbBoardState, m: Move, side: Side, piece: Piece) -> bool {
    let ps = st.pieces;
    let from = m.from@;
    let to = m.to@;
    let reached = attack_squares(side, piece, from, ps.occupied()).contains(to);
    match m.move_type {
        MoveType::Quiet => if piece == Piece::P {
            is_pawn_push(ps, m, side)
        } else {
            reached && ps.piece_at(to) is None
        },
        MoveType::Capture => reached && if piece == Piece::P {
            to / 8 != last_rank(side) && (prey_on(ps, side, to) || is_en_passant(st, m, side))
        } else {
            prey_on(ps, side, to)
        },
        MoveType::Promote(_) => {
            &&& piece == Piece::P
            &&& ps.piece_at(to) is None
            &&& to % 8 == from % 8
            &&& to / 8 == from / 8 + forward(side)
            &&& to / 8 == last_rank(side)
        },
        MoveType::PromoteCapture(_) => {
            &&& piece == Piece::P
            &&& reached
            &&& prey_on(ps, side, to)
            &&& to / 8 == last_rank(side)
        },
        MoveType::CastleKing => may_castle(st, m, side, BoardSide::KingSide),
        MoveType::CastleQueen => may_castle(st, m, side, BoardSide::QueenSide),
    }
}

/// The move may be made: a piece of the side to move stands on the square
/// that the move leaves, the move agrees with the way that the piece moves,
/// and after the move the side's king is not attacked.
pub open spec fn move_allowed(st: BbBoardState, m: Move) -> bool {
    match st.pieces.piece_at(m.from@) {
        None => false,
        Some((side, piece)) => {
            &&& side == st.to_move
            &&& fits_piece(st, m, side, piece)
            &&& !in_check(pieces_after(st.pieces, m), side)
        },
    }
}

/// The move leaves or reaches square `s`.
pub open spec fn touches(m: Move, s: int) -> bool {
    m.from@ == s || m.to@ == s
}

/// The counter after one more, which stays where it is at 255.
pub open spec fn next_clock(n: u8) -> u8 {
    if n < 255 {
        (n + 1) as u8
    } else {
        n
    }
}

/// The move number after one more, which stays where it is at 65535.
pub open spec fn next_number(n: u16) -> u16 {
    if n < 65535 {
        (n + 1) as u16
    } else {
        n
    }
}

/// The position after the move: the pieces after the move; the other side to
/// move; the file of a pawn that has advanced two squares; the half-move
/// clock at nought after a pawn move or a capture, and one higher after any
/// other move; a right to castle lost when the move leaves or reaches the
/// first square of the king or of the rook; the move number one higher after
/// a move of Black.
pub open spec fn state_after(st: BbBoardState, m: Move) -> BbBoardState {
    let pawn = match st.pieces.piece_at(m.from@) {
        Some((_, piece)) => piece == Piece::P,
        None => false,
    };
    BbBoardState {
        pieces: pieces_after(st.pieces, m),
        to_move: st.to_move.flipped(),
        en_passant: if pawn && gap(m.to@ / 8, m.from@ / 8) == 2 {
            Some(File::of(m.from@ % 8))
        } else {
            None
        },
        reversable_moves: if pawn || m.move_type.takes() {
            0
        } else {
            next_clock(st.reversable_moves)
        },
        w_kingside_castling: st.w_kingside_castling && !touches(m, 4) && !touches(m, 7),
        w_queenside_castling: st.w_queenside_castling && !touches(m, 4) && !touches(m, 0),
        b_kingside_castling: st.b_kingside_castling && !touches(m, 60) && !touches(m, 63),
        b_queenside_castling: st.b_queenside_castling && !touches(m, 60) && !touches(m, 56),
        full_moves: if st.to_move == Side::Black {
            next_number(st.full_moves)
        } else {
            st.full_moves
        },
    }
}

/// Whether the move leaves or reaches the square with number `s`.
fn moves_touch(m: Move, s: u8) -> (touched: bool)
    ensures
        touched == touches(m, s as int),
{
    m.from.v == s || m.to.v == s
}

/// The position after the move.
pub fn apply_to_state(st: &BbBoardState, m: Move) -> (next: BbBoardState)
    requires
        m.wf(),
    ensures
        next == state_after(*st, m),
        is_after(next.pieces, st.pieces, m),
{
    let pawn = match st.pieces.piece_on(m.from) {
        Some((_, piece)) => piece == Piece::P,
        None => false,
    };
    let from_rank: u8 = m.from.v / 8;
    let to_rank: u8 = m.to.v / 8;
    let two_ranks = if to_rank >= from_rank {
        to_rank - from_rank == 2
    } else {
        from_rank - to_rank == 2
    };
    let black = match st.to_move {
        Side::Black => true,
        Side::White => false,
    };
    BbBoardState {
        pieces: apply_move(&st.pieces, m),
        to_move: st.to_move.opponent(),
        en_passant: if pawn && two_ranks {
            Some(File::from_index(m.from.v % 8))
        } else {
            None
        },
        reversable_moves: if pawn || m.move_type.is_capture() {
            0
        } else if st.reversable_moves < 255 {
            st.reversable_moves + 1
        } else {
            255
        },
        w_kingside_castling: st.w_kingside_castling && !moves_touch(m, 4) && !moves_touch(m, 7),
        w_queenside_castling: st.w_queenside_castling && !moves_touch(m, 4) && !moves_touch(
            m,
            0,
        ),
        b_kingside_castling: st.b_kingside_castling && !moves_touch(m, 60) && !moves_touch(
            m,
            63,
        ),
        b_queenside_castling: st.b_queenside_castling && !moves_touch(m, 60) && !moves_touch(
            m,
            56,
        ),
        full_moves: if black {
            if st.full_moves < 65535 {
                st.full_moves + 1
            } else {
                65535
            }
        } else {
            st.full_moves
        },
    }
}

/// Whether a piece of the given kind and side stands on the square.
fn stands_on(ps: &BbPieceState, s: Square, side: Side, piece: Piece) -> (there: bool)
    requires
        s.wf(),
    ensures
        there == (ps.piece_at(s@) == Some((side, piece))),
{
    match ps.piece_on(s) {
        Some((owner, kind)) => owner == side && kind == piece,
        None => false,
    }
}

/// Whether a piece that the side may take stands on the square.
fn prey_stands_on(ps: &BbPieceState, side: Side, s: Square) -> (there: bool)
    requires
        s.wf(),
    ensures
        there == prey_on(*ps, side, s@),
{
    match ps.piece_on(s) {
        Some((owner, kind)) => owner != side && kind != Piece::K,
        None => false,
    }
}

/// Whether the move is an advance of a pawn short of the last rank.
fn pawn_push_fits(ps: &BbPieceState, m: Move, side: Side) -> (fits: bool)
    requires
        m.wf(),
    ensures
        fits == is_pawn_push(*ps, m, side),
{
    pawn_pushes(side, m.from, ps.occupancy()).contains(m.to) && !on_last_rank(m.to, side)
}

/// Whether the move takes a pawn in passing.
fn en_passant_fits(st: &BbBoardState, m: Move, side: Side) -> (fits: bool)
    requires
        m.wf(),
    ensures
        fits == is_en_passant(*st, m, side),
{
    let from_rank: u8 = m.from.v / 8;
    let to_file: u8 = m.to.v % 8;
    let named = match st.en_passant {
        Some(file) => file.index() == to_file,
        None => false,
    };
    proof {
        if st.en_passant is Some {
            lemma_file_round_trip(st.en_passant->0);
            lemma_file_round_trip(File::of(to_file as int));
        }
    }
    let rank_fits = if side == Side::White {
        from_rank == 4
    } else {
        from_rank == 3
    };
    st.pieces.piece_on(m.to).is_none() && named && rank_fits && stands_on(
        &st.pieces,
        Square::new(from_rank * 8 + to_file),
        side.opponent(),
        Piece::P,
    )
}

/// Whether the side still holds the right to castle on the wing.
fn holds_castling_right(st: &BbBoardState, side: Side, wing: BoardSide) -> (holds: bool)
    ensures
        holds == holds_right(*st, side, wing),
{
    match side {
        Side::White => if wing == BoardSide::KingSide {
            st.w_kingside_castling
        } else {
            st.w_queenside_castling
        },
        Side::Black => if wing == BoardSide::KingSide {
            st.b_kingside_castling
        } else {
            st.b_queenside_castling
        },
    }
}

/// Whether the side may castle on the wing now.
fn castle_fits(st: &BbBoardState, m: Move, side: Side, wing: BoardSide) -> (fits: bool)
    requires
        m.wf(),
    ensures
        fits == may_castle(*st, m, side, wing),
{
    let base: u8 = if side == Side::White {
        0
    } else {
        56
    };
    let ps = &st.pieces;
    let kingside = match wing {
        BoardSide::KingSide => true,
        BoardSide::QueenSide => false,
    };
    if !holds_castling_right(st, side, wing) || m.from.v != base + 4 || !stands_on(
        ps,
        Square::new(base + 4),
        side,
        Piece::K,
    ) {
        return false;
    }
    let attacked = attacked_squares(ps, side.opponent());
    if attacked.contains(Square::new(base + 4)) {
        return false;
    }
    if kingside {
        m.to.v == base + 6 && stands_on(ps, Square::new(base + 7), side, Piece::R) && ps.piece_on(
            Square::new(base + 5),
        ).is_none() && ps.piece_on(Square::new(base + 6)).is_none() && !attacked.contains(
            Square::new(base + 5),
        )
    } else {
        m.to.v == base + 2 && stands_on(ps, Square::new(base), side, Piece::R) && ps.piece_on(
            Square::new(base + 1),
        ).is_none() && ps.piece_on(Square::new(base + 2)).is_none() && ps.piece_on(
            Square::new(base + 3),
        ).is_none() && !attacked.contains(Square::new(base + 3))
    }
}

/// Whether the square lies on the rank on which the side's pawns promote.
fn on_last_rank(s: Square, side: Side) -> (last: bool)
    requires
        s.wf(),
    ensures
        last == (s@ / 8 == last_rank(side)),
{
    if side == Side::White {
        s.v / 8 == 7
    } else {
        s.v / 8 == 0
    }
}

/// Whether the move agrees with the way that the piece moves, and with its
/// kind.
fn move_fits(st: &BbBoardState, m: Move, side: Side, piece: Piece) -> (fits: bool)
    requires
        m.wf(),
        st.pieces.piece_at(m.from@) is Some,
    ensures
        fits == fits_piece(*st, m, side, piece),
{
    let ps = &st.pieces;
    let pawn = piece == Piece::P;
    match m.move_type {
        MoveType::Quiet => {
            if pawn {
                pawn_push_fits(ps, m, side)
            } else {
                piece_attacks(side, piece, m.from, ps.occupancy()).contains(m.to) && ps.piece_on(
                    m.to,
                ).is_none()
            }
        },
        MoveType::Capture => {
            if !piece_attacks(side, piece, m.from, ps.occupancy()).contains(m.to) {
                false
            } else if pawn {
                !on_last_rank(m.to, side) && (prey_stands_on(ps, side, m.to) || en_passant_fits(
                    st,
                    m,
                    side,
                ))
            } else {
                prey_stands_on(ps, side, m.to)
            }
        },
        MoveType::Promote(_) => {
            let ahead = if side == Side::White {
                m.to.v / 8 == m.from.v / 8 + 1
            } else {
                m.to.v / 8 + 1 == m.from.v / 8
            };
            pawn && ps.piece_on(m.to).is_none() && m.to.v % 8 == m.from.v % 8 && ahead
                && on_last_rank(m.to, side)
        },
        MoveType::PromoteCapture(_) => {
            pawn && piece_attacks(side, piece, m.from, ps.occupancy()).contains(m.to)
                && prey_stands_on(ps, side, m.to) && on_last_rank(m.to, side)
        },
        MoveType::CastleKing => castle_fits(st, m, side, BoardSide::KingSide),
        MoveType::CastleQueen => castle_fits(st, m, side, BoardSide::QueenSide),
    }
}

/// Whether the move may be made in the position: a piece of the side to move
/// stands on the square that the move leaves, the move agrees with the way
/// that the piece moves and with its kind, it takes no king, and it does not
/// leave the king of the side that moves attacked.
pub fn test_move(st: &BbBoardState, m: Move) -> (allowed: bool)
    requires
        m.wf(),
    ensures
        allowed == move_allowed(*st, m),
{
    check_move(st, m).is_ok()
}

/// Where a move fits the piece that makes it, the square that it goes to
/// holds no piece of the side that moves, and a piece of the other side only
/// where the move takes it there; and the square that a castling rook goes
/// to is empty and not the king's.
pub proof fn lemma_fitting_move_lands_free(
    st: BbBoardState,
    m: Move,
    side: Side,
    piece: Piece,
    x: Side,
    y: Piece,
)
    requires
        m.wf(),
        st.pieces.pairwise_disjoint(),
        st.pieces.piece_at(m.from@) == Some((side, piece)),
        fits_piece(st, m, side, piece),
    ensures
        st.pieces.board(x, y)@.contains(m.to@) ==> x != side && taken_square(
            st.pieces,
            m,
            piece,
        ) == Some(m.to@),
        rook_lands(m) is Some ==> !st.pieces.board(x, y)@.contains(rook_lands(m)->0)
            && rook_lands(m)->0 != m.to@ && rook_leaves(m)->0 != m.to@ && piece == Piece::K,
        m.to@ != m.from@,
{
    let ps = st.pieces;
    lemma_piece_at_unique(ps, m.to@, x, y);
    lemma_piece_at_unique(ps, m.from@, side, piece);
    lemma_occupied_has_piece(ps, m.to@);
    match m.move_type {
        MoveType::CastleKing => {
            lemma_piece_at_unique(ps, back_rank(side) * 8 + 5, x, y);
        },
        MoveType::CastleQueen => {
            lemma_piece_at_unique(ps, back_rank(side) * 8 + 3, x, y);
        },
        MoveType::Quiet => {
            if piece != Piece::P {
                lemma_attack_leaves_origin(side, piece, m.from@, ps.occupied(), m.to@);
            }
        },
        MoveType::Capture => {
            lemma_attack_leaves_origin(side, piece, m.from@, ps.occupied(), m.to@);
        },
        MoveType::PromoteCapture(_) => {
            lemma_attack_leaves_origin(side, piece, m.from@, ps.occupied(), m.to@);
        },
        MoveType::Promote(_) => {},
    }
}

/// No piece attacks the square that it stands on.
pub proof fn lemma_attack_leaves_origin(
    side: Side,
    piece: Piece,
    s: int,
    occupied: Set<int>,
    t: int,
)
    requires
        0 <= s < 64,
        attack_squares(side, piece, s, occupied).contains(t),
    ensures
        t != s,
        0 <= t < 64,
{
    match piece {
        Piece::R => {
            lemma_rook_stays_on_its_lines(s, occupied, t);
        },
        Piece::B => {
            lemma_bishop_stays_on_its_lines(s, occupied, t);
        },
        Piece::Q => {
            if rook_squares(s, occupied).contains(t) {
                lemma_rook_stays_on_its_lines(s, occupied, t);
            } else {
                lemma_bishop_stays_on_its_lines(s, occupied, t);
            }
        },
        _ => {},
    }
}

/// A position in which no square holds two pieces stays so after a move
/// that fits the piece that makes it.
pub proof fn lemma_fitting_move_keeps_apart(
    st: BbBoardState,
    m: Move,
    side: Side,
    piece: Piece,
    next: BbPieceState,
)
    requires
        m.wf(),
        st.pieces.pairwise_disjoint(),
        st.pieces.piece_at(m.from@) == Some((side, piece)),
        fits_piece(st, m, side, piece),
        is_after(next, st.pieces, m),
    ensures
        next.pairwise_disjoint(),
{
    let ps = st.pieces;
    assert forall|s1: Side, p1: Piece, s2: Side, p2: Piece|
        #![trigger next.board(s1, p1), next.board(s2, p2)]
        s1 != s2 || p1 != p2 implies next.board(s1, p1)@.disjoint(next.board(s2, p2)@) by {
        lemma_boards_apart(ps, s1, p1, s2, p2);
        lemma_fitting_move_lands_free(st, m, side, piece, s1, p1);
        lemma_fitting_move_lands_free(st, m, side, piece, s2, p2);
        assert(next.board(s1, p1)@ == squares_after(ps, m, s1, p1));
        assert(next.board(s2, p2)@ == squares_after(ps, m, s2, p2));
        assert forall|a: int| squares_after(ps, m, s1, p1).contains(a) implies !squares_after(
            ps,
            m,
            s2,
            p2,
        ).contains(a) by {
            if a == m.to@ {
            } else if rook_lands(m) is Some && a == rook_lands(m)->0 {
            } else {
                assert(ps.board(s1, p1)@.contains(a));
            }
        }
    }
    lemma_apart_iff_disjoint(next);
}

/// A position whose pieces pass their checks is followed, after a move that
/// the test allows, by a position whose pieces pass them again.
pub proof fn lemma_allowed_move_keeps_legal(st: BbBoardState, m: Move)
    requires
        m.wf(),
        st.pieces.legal(),
        move_allowed(st, m),
    ensures
        pieces_after(st.pieces, m).legal(),
        state_after(st, m).pieces.legal(),
{
    lemma_pieces_after_exist(st.pieces, m);
    lemma_pieces_stay_legal(st, m, pieces_after(st.pieces, m));
}

/// Pieces that pass their checks are followed, after a move that the test
/// allows, by pieces that pass them again.
pub proof fn lemma_pieces_stay_legal(st: BbBoardState, m: Move, next: BbPieceState)
    requires
        m.wf(),
        st.pieces.legal(),
        move_allowed(st, m),
        is_after(next, st.pieces, m),
    ensures
        next.legal(),
{
    let ps = st.pieces;
    let (side, piece) = match ps.piece_at(m.from@) {
        Some(found) => found,
        None => (Side::White, Piece::P),
    };
    let other = side.flipped();
    lemma_fitting_move_keeps_apart(st, m, side, piece, next);
    lemma_apart_iff_disjoint(next);
    lemma_fitting_move_lands_free(st, m, side, piece, side, Piece::K);
    lemma_fitting_move_lands_free(st, m, side, piece, other, Piece::K);
    lemma_piece_at_unique(ps, m.from@, side, Piece::K);
    lemma_piece_at_unique(ps, m.to@, other, Piece::K);
    lemma_occupied_has_piece(ps, m.to@);
    assert(ps.piece_at(m.to@) != Some((other, Piece::K)));
    let own = ps.board(side, Piece::K)@;
    let own_next = next.board(side, Piece::K)@;
    let their = ps.board(other, Piece::K)@;
    let their_next = next.board(other, Piece::K)@;
    assert(own_next == squares_after(ps, m, side, Piece::K));
    assert(their_next == squares_after(ps, m, other, Piece::K));
    lemma_squares_len(ps.board(side, Piece::K).v);
    lemma_squares_len(ps.board(other, Piece::K).v);
    lemma_squares_len(next.board(side, Piece::K).v);
    lemma_squares_len(next.board(other, Piece::K).v);
    assert(own.len() == 1 && their.len() == 1);
    assert(m.move_type.promotes_to() != Some(Piece::K));
    if piece == Piece::K {
        assert(own.remove(m.from@).len() == 0);
        own.remove(m.from@).lemma_len0_is_empty();
        assert(own_next =~= set![m.to@]);
    } else {
        assert(own_next =~= own);
    }
    match taken_square(ps, m, piece) {
        Some(t) => {
            lemma_piece_at_unique(ps, t, other, Piece::K);
            assert(their_next =~= their);
        },
        None => {
            assert(their_next =~= their);
        },
    }
    assert(own_next.disjoint(their_next));
    vstd::set_lib::lemma_set_disjoint_lens(own_next, their_next);
    assert(own_next.union(their_next) =~= their_next.union(own_next));
}

/// Why a move may not be made.
#[derive(Debug, Clone, Copy, PartialEq, Eq, Structural)]
pub enum MoveError {
    /// No piece of the side to move stands on the square that the move
    /// leaves.
    NoPiece,
    /// The move does not agree with the way that the piece moves, or with
    /// its kind, or it would take a king.
    BadGeometry,
    /// The move leaves the king of the side that moves attacked.
    IntoCheck,
}

/// What the test of a move gives: nothing to object to, or the first
/// objection in the order of `MoveError`.
pub open spec fn move_verdict(st: BbBoardState, m: Move) -> Result<(), MoveError> {
    match st.pieces.piece_at(m.from@) {
        None => Err(MoveError::NoPiece),
        Some((side, piece)) => if side != st.to_move {
            Err(MoveError::NoPiece)
        } else if !fits_piece(st, m, side, piece) {
            Err(MoveError::BadGeometry)
        } else if in_check(pieces_after(st.pieces, m), side) {
            Err(MoveError::IntoCheck)
        } else {
            Ok(())
        },
    }
}

/// Tests a move and says what is wrong with it, if anything is.
pub fn check_move(st: &BbBoardState, m: Move) -> (verdict: Result<(), MoveError>)
    requires
        m.wf(),
    ensures
        verdict == move_verdict(*st, m),
        verdict is Ok <==> move_allowed(*st, m),
{
    let (side, piece) = match st.pieces.piece_on(m.from) {
        Some(found) => found,
        None => {
            return Err(MoveError::NoPiece);
        },
    };
    if side != st.to_move {
        return Err(MoveError::NoPiece);
    }
    if !move_fits(st, m, side, piece) {
        return Err(MoveError::BadGeometry);
    }
    let next = apply_move(&st.pieces, m);
    if is_in_check(&next, side) {
        return Err(MoveError::IntoCheck);
    }
    Ok(())
}

/// Makes a move if it may be made: gives the position after the move, or
/// says what is wrong with the move. The position after a move that is made
/// in a position whose pieces pass their checks passes them again.
pub fn try_move(st: &BbBoardState, m: Move) -> (next: Result<BbBoardState, MoveError>)
    requires
        m.wf(),
    ensures
        match move_verdict(*st, m) {
            Ok(_) => next == Ok::<BbBoardState, MoveError>(state_after(*st, m)),
            Err(e) => next == Err::<BbBoardState, MoveError>(e),
        },
        next is Ok <==> move_allowed(*st, m),
        st.pieces.legal() ==> (next matches Ok(after) ==> after.pieces.legal()),
{
    match check_move(st, m) {
        Ok(_) => {
            let after = apply_to_state(st, m);
            proof {
                if st.pieces.legal() {
                    lemma_allowed_move_keeps_legal(*st, m);
                }
            }
            Ok(after)
        },
        Err(e) => Err(e),
    }
}

} // verus!
