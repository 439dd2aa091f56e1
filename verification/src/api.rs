use crate::board::PieceStateValidatorErr;
use crate::enums::{File, Piece, Rank};
use vstd::prelude::*;

verus! {

/// A square of the board, numbered `rank * 8 + file`: a1 is 0, h1 is 7, a8 is
/// 56 and h8 is 63.
#[derive(Debug, Default, Clone, Copy, PartialEq, Eq, Structural)]
pub struct Square {
    pub v: u8,
}

impl View for Square {
    type V = int;

    open spec fn view(&self) -> int {
        self.v as int
    }
}

impl Square {
    /// A square lies on the board: its number is below 64.
    pub open spec fn wf(&self) -> bool {
        self.v < 64
    }

    /// Number of the square's rank, from 0 for rank 1.
    pub open spec fn rank_ord(&self) -> int {
        self.v as int / 8
    }

    /// Number of the square's file, from 0 for file A.
    pub open spec fn file_ord(&self) -> int {
        self.v as int % 8
    }

    /// The square with number `v`.
    pub fn new(v: u8) -> (s: Self)
        requires
            v < 64,
        ensures
            s.v == v,
            s.wf(),
    {
        Square { v }
    }

    /// The square where rank `r` and file `f` meet.
    pub fn from_rank_file(r: Rank, f: File) -> (s: Self)
        ensures
            s.v == r.ord() * 8 + f.ord(),
            s.wf(),
            s.rank_ord() == r.ord(),
            s.file_ord() == f.ord(),
    {
        Square { v: r.index() * 8 + f.index() }
    }

    /// The rank that the square lies on.
    pub fn rank(&self) -> (r: Rank)
        requires
            self.wf(),
        ensures
            r.ord() == self.rank_ord(),
    {
        Rank::from_index(self.v / 8)
    }

    /// The file that the square lies on.
    pub fn file(&self) -> (f: File)
        requires
            self.wf(),
        ensures
            f.ord() == self.file_ord(),
    {
        File::from_index(self.v % 8)
    }
}

/// The piece that a pawn becomes on the last rank.
#[derive(Debug, Clone, Copy, PartialEq, Eq, Structural)]
pub enum PromotionType {
    Queen,
    Rook,
    Bishop,
    Knight,
}

/// The kinds of move. The kind says what else changes on the board besides
/// the square of the piece that moves.
#[derive(Debug, Clone, Copy, PartialEq, Eq, Structural)]
pub enum MoveType {
    Quiet,
    Capture,
    CastleQueen,
    CastleKing,
    Promote(PromotionType),
    PromoteCapture(PromotionType),
}

/// A move: the square that a piece leaves, the square that it goes to, and
/// the kind of the move.
#[derive(Debug, Clone, Copy, PartialEq, Eq, Structural)]
pub struct Move {
    pub from: Square,
    pub to: Square,
    pub move_type: MoveType,
}

impl PromotionType {
    /// The kind of piece that the pawn becomes.
    pub open spec fn piece(self) -> Piece {
        match self {
            PromotionType::Queen => Piece::Q,
            PromotionType::Rook => Piece::R,
            PromotionType::Bishop => Piece::B,
            PromotionType::Knight => Piece::N,
        }
    }

    /// The kind of piece that the pawn becomes.
    pub fn to_piece(self) -> (p: Piece)
        ensures
            p == self.piece(),
    {
        match self {
            PromotionType::Queen => Piece::Q,
            PromotionType::Rook => Piece::R,
            PromotionType::Bishop => Piece::B,
            PromotionType::Knight => Piece::N,
        }
    }
}

impl MoveType {
    /// Whether a move of this kind takes a piece.
    pub open spec fn takes(self) -> bool {
        self is Capture || self is PromoteCapture
    }

    /// Whether a move of this kind castles.
    pub open spec fn castles(self) -> bool {
        self is CastleKing || self is CastleQueen
    }

    /// The piece that a pawn becomes by a move of this kind, if the move
    /// promotes.
    pub open spec fn promotes_to(self) -> Option<Piece> {
        match self {
            MoveType::Promote(t) => Some(t.piece()),
            MoveType::PromoteCapture(t) => Some(t.piece()),
            _ => None,
        }
    }

    /// Whether a move of this kind takes a piece.
    pub fn is_capture(self) -> (takes: bool)
        ensures
            takes == self.takes(),
    {
        match self {
            MoveType::Capture => true,
            MoveType::PromoteCapture(_) => true,
            _ => false,
        }
    }

    /// The piece that a pawn becomes by a move of this kind, if the move
    /// promotes.
    pub fn promotion(self) -> (piece: Option<Piece>)
        ensures
            piece == self.promotes_to(),
    {
        match self {
            MoveType::Promote(t) => Some(t.to_piece()),
            MoveType::PromoteCapture(t) => Some(t.to_piece()),
            _ => None,
        }
    }
}

impl Move {
    /// Both squares of the move lie on the board.
    pub open spec fn wf(&self) -> bool {
        self.from.wf() && self.to.wf()
    }

    /// The move from `from` to `to` of kind `move_type`.
    pub fn new(from: Square, to: Square, move_type: MoveType) -> (m: Move)
        ensures
            m.from == from,
            m.to == to,
            m.move_type == move_type,
    {
        Move { from, to, move_type }
    }
}

/// A set of pieces on the board.
pub trait PieceState: Sized {
    /// Checks the pieces for errors of logic and names the first one found.
    fn check_valid(&self) -> Result<(), PieceStateValidatorErr>;

    /// Whether `check_valid` finds no error.
    fn is_legal(&self) -> bool;

    /// The pieces as text.
    fn pretty_print(&self) -> String;

    /// The pieces after the move.
    fn make_move(&self, m: Move) -> Self
        requires
            m.wf(),
    ;

    /// The pieces as they stand before the first move of a game.
    fn start() -> Self;

    /// No piece at all.
    fn empty() -> Self;
}

/// A position of a game.
pub trait GameState: Sized {
    /// The position before the first move of a game.
    fn start() -> Self;

    /// A position without a piece.
    fn empty() -> Self;

    /// The position as text.
    fn pretty_print(&self) -> String;

    /// Whether the position breaks no rule.
    fn is_legal(&self) -> bool;

    /// The position after the move.
    fn make_move(&self, m: Move) -> Self
        requires
            m.wf(),
    ;
}

/// A board on which moves are tested and made.
pub trait Board: Sized {
    /// Whether a text describes a board.
    spec fn readable(text: Seq<char>) -> bool;

    /// The board after the move.
    fn make_move(&self, m: Move) -> Self
        requires
            m.wf(),
    ;

    /// Whether the board breaks no rule.
    fn is_legal(&self) -> bool;

    /// Whether the move may be made on the board.
    fn test_move(&self, m: Move) -> bool
        requires
            m.wf(),
    ;

    /// The board as text.
    fn pretty_print(&self) -> String;

    /// The board that a text in Forsyth-Edwards notation describes.
    fn from_fen(s: String) -> Self
        requires
            Self::readable(s@),
    ;

    /// A board without a piece.
    fn empty() -> Self;
}

} // verus!
