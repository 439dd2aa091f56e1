use crate::api::{Board, Move, PieceState};
use crate::board::BbBoardState;
use crate::fen::{fen_decode, parse_fen, FenError};
use crate::moves::{apply_to_state, move_allowed, state_after, test_move};
use vstd::prelude::*;

verus! {

impl Board for BbBoardState {
    /// A text describes a board when it is a position in Forsyth-Edwards
    /// notation.
    open spec fn readable(text: Seq<char>) -> bool {
        fen_decode(text) is Ok
    }

    /// The position after the move: see `apply_to_state`.
    fn make_move(&self, m: Move) -> (next: Self)
        ensures
            next == state_after(*self, m),
    {
        apply_to_state(self, m)
    }

    /// Whether the pieces of the position pass the checks of
    /// `BbPieceState::check_valid`.
    fn is_legal(&self) -> (ok: bool)
        ensures
            ok == self.pieces.legal(),
    {
        self.pieces.is_legal()
    }

    /// Whether the move may be made in the position: see `test_move`.
    fn test_move(&self, m: Move) -> (allowed: bool)
        ensures
            allowed == move_allowed(*self, m),
    {
        test_move(self, m)
    }

    /// The board of the position as text: see `BbPieceState::pretty_print`.
    fn pretty_print(&self) -> (text: String)
        ensures
            text@ == self.pieces.render(),
    {
        self.pieces.pretty_print()
    }

    /// The position that the text describes.
    fn from_fen(s: String) -> (st: Self)
        ensures
            fen_decode(s@) == Ok::<BbBoardState, FenError>(st),
    {
        match parse_fen(s) {
            Ok(st) => st,
            Err(_) => <BbBoardState as crate::api::GameState>::empty(),
        }
    }

    /// The position without a piece.
    fn empty() -> (st: Self)
        ensures
            st == BbBoardState::vacant(),
    {
        <BbBoardState as crate::api::GameState>::empty()
    }
}

} // verus!
