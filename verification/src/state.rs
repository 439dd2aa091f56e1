use crate::api::{GameState, Move, PieceState};
use crate::board::{BbBoardState, BbPieceState};
use crate::enums::Side;
use crate::moves::{apply_to_state, state_after};
use vstd::prelude::*;

verus! {

impl BbBoardState {
    /// The position before the first move of a game: the pieces on their
    /// first squares, White to move, every right to castle, no pawn to take
    /// in passing, the clock at nought and the first move to come.
    pub open spec fn opening(pieces: BbPieceState) -> BbBoardState {
        BbBoardState {
            pieces,
            to_move: Side::White,
            en_passant: None,
            reversable_moves: 0,
            w_kingside_castling: true,
            w_queenside_castling: true,
            b_kingside_castling: true,
            b_queenside_castling: true,
            full_moves: 1,
        }
    }

    /// The position without a piece: White to move, no right to castle, no
    /// pawn to take in passing, the clock at nought and the first move to
    /// come.
    pub open spec fn vacant() -> BbBoardState {
        BbBoardState {
            pieces: BbPieceState::vacant(),
            to_move: Side::White,
            en_passant: None,
            reversable_moves: 0,
            w_kingside_castling: false,
            w_queenside_castling: false,
            b_kingside_castling: false,
            b_queenside_castling: false,
            full_moves: 1,
        }
    }
}

impl GameState for BbBoardState {
    /// The position before the first move of a game.
    fn start() -> (st: Self)
        ensures
            st == BbBoardState::opening(st.pieces),
            st.pieces.legal(),
            st.pieces.wp.v == 0xff00,
            st.pieces.wr.v == 0x81,
            st.pieces.wn.v == 0x42,
            st.pieces.wb.v == 0x24,
            st.pieces.wq.v == 0x8,
            st.pieces.wk.v == 0x10,
            st.pieces.bp.v == 0xff_0000_0000_0000,
            st.pieces.br.v == 0x8100_0000_0000_0000,
            st.pieces.bn.v == 0x4200_0000_0000_0000,
            st.pieces.bb.v == 0x2400_0000_0000_0000,
            st.pieces.bq.v == 0x0800_0000_0000_0000,
            st.pieces.bk.v == 0x1000_0000_0000_0000,
    {
        BbBoardState {
            pieces: BbPieceState::start(),
            to_move: Side::White,
            en_passant: None,
            reversable_moves: 0,
            w_kingside_castling: true,
            w_queenside_castling: true,
            b_kingside_castling: true,
            b_queenside_castling: true,
            full_moves: 1,
        }
    }

    /// The position without a piece.
    fn empty() -> (st: Self)
        ensures
            st == BbBoardState::vacant(),
    {
        BbBoardState {
            pieces: BbPieceState::empty(),
            to_move: Side::White,
            en_passant: None,
            reversable_moves: 0,
            w_kingside_castling: false,
            w_queenside_castling: false,
            b_kingside_castling: false,
            b_queenside_castling: false,
            full_moves: 1,
        }
    }

    /// The board of the position as text: see `BbPieceState::pretty_print`.
    fn pretty_print(&self) -> (text: String)
        ensures
            text@ == self.pieces.render(),
    {
        self.pieces.pretty_print()
    }

    /// Whether the pieces of the position pass the checks of
    /// `BbPieceState::check_valid`.
    fn is_legal(&self) -> (ok: bool)
        ensures
            ok == self.pieces.legal(),
    {
        self.pieces.is_legal()
    }

    /// The position after the move: see `apply_to_state`.
    fn make_move(&self, m: Move) -> (next: Self)
        ensures
            next == state_after(*self, m),
    {
        apply_to_state(self, m)
    }
}

} // verus!
