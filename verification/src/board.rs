use crate::api::{Move, PieceState, Square};
use crate::moves::{apply_move, is_after, pieces_after};
use crate::bitboard::{
    lemma_squares_algebra, lemma_squares_shift, printed_square, top_left, Bitboard,
};
use crate::enums::{File, Piece, Side};
use crate::utils::bit_is_set;
use vstd::prelude::*;
use vstd::string::StringExecFns;

verus! {

/// What is wrong with a set of pieces.
#[derive(Debug, Clone, Copy, PartialEq, Eq, Structural)]
pub enum PieceStateValidatorErr {
    /// A side does not have exactly one king, or both kings stand on one
    /// square.
    MissingKing,
    /// A pawn stands on the first or on the last rank.
    PawnsOnOppositeRank,
    /// A side has more pawns than it started with.
    ExtraPawns,
    /// The position cannot come about in a game.
    IllegalPosition,
    /// A square holds two pieces.
    PiecesOnSamePosition,
}

/// The pieces on the board: for each side and each kind of piece the set of
/// squares on which such a piece stands.
#[derive(Debug, Default, Clone, Copy, PartialEq, Eq, Structural)]
pub struct BbPieceState {
    pub wp: Bitboard,
    pub wr: Bitboard,
    pub wn: Bitboard,
    pub wb: Bitboard,
    pub wq: Bitboard,
    pub wk: Bitboard,
    pub bp: Bitboard,
    pub br: Bitboard,
    pub bn: Bitboard,
    pub bb: Bitboard,
    pub bq: Bitboard,
    pub bk: Bitboard,
}

/// A position of a game: the pieces, the side that moves next, the file on
/// which a pawn has just advanced two squares (if one has), the number of
/// half-moves since the last capture or pawn move, the rights to castle that
/// are left, and the number of the move.
#[derive(Debug, Clone, Copy, PartialEq, Eq, Structural)]
pub struct BbBoardState {
    pub pieces: BbPieceState,
    pub to_move: Side,
    pub en_passant: Option<File>,
    pub reversable_moves: u8,
    pub w_kingside_castling: bool,
    pub w_queenside_castling: bool,
    pub b_kingside_castling: bool,
    pub b_queenside_castling: bool,
    pub full_moves: u16,
}

/// The letter that stands for a piece: upper case for White, lower case for
/// Black.
pub open spec fn glyph_of(side: Side, piece: Piece) -> char {
    match (side, piece) {
        (Side::White, Piece::P) => 'P',
        (Side::White, Piece::N) => 'N',
        (Side::White, Piece::B) => 'B',
        (Side::White, Piece::R) => 'R',
        (Side::White, Piece::Q) => 'Q',
        (Side::White, Piece::K) => 'K',
        (Side::Black, Piece::P) => 'p',
        (Side::Black, Piece::N) => 'n',
        (Side::Black, Piece::B) => 'b',
        (Side::Black, Piece::R) => 'r',
        (Side::Black, Piece::Q) => 'q',
        (Side::Black, Piece::K) => 'k',
    }
}

/// The squares of the first `n` sets of `boards` taken together.
pub open spec fn union_before(boards: Seq<Bitboard>, n: int) -> Set<int>
    decreases n,
{
    if n <= 0 {
        Set::empty()
    } else {
        union_before(boards, n - 1).union(boards[n - 1]@)
    }
}

/// No square belongs to two of the first `n` sets of `boards`.
pub open spec fn disjoint_before(boards: Seq<Bitboard>, n: int) -> bool {
    forall|j: int, k: int|
        #![trigger boards[j], boards[k]]
        0 <= j < k < n ==> boards[j]@.disjoint(boards[k]@)
}

/// A square of one of the first `n` sets belongs to their union.
pub proof fn lemma_union_before_holds(boards: Seq<Bitboard>, n: int, j: int, s: int)
    requires
        0 <= j < n,
        boards[j]@.contains(s),
    ensures
        union_before(boards, n).contains(s),
    decreases n,
{
    if j < n - 1 {
        lemma_union_before_holds(boards, n - 1, j, s);
    }
}

/// A square of the union of the first `n` sets belongs to one of them.
pub proof fn lemma_union_before_origin(boards: Seq<Bitboard>, n: int, s: int) -> (j: int)
    requires
        union_before(boards, n).contains(s),
    ensures
        0 <= j < n,
        boards[j]@.contains(s),
    decreases n,
{
    if n <= 0 {
        0
    } else if boards[n - 1]@.contains(s) {
        n - 1
    } else {
        lemma_union_before_origin(boards, n - 1, s)
    }
}

/// Sets of which each is disjoint from the union of those before it are
/// pairwise disjoint.
pub proof fn lemma_disjoint_step(boards: Seq<Bitboard>, n: int)
    requires
        0 <= n,
        disjoint_before(boards, n),
        union_before(boards, n).disjoint(boards[n]@),
    ensures
        disjoint_before(boards, n + 1),
{
    assert forall|j: int, k: int|
        #![trigger boards[j], boards[k]]
        0 <= j < k < n + 1 implies boards[j]@.disjoint(boards[k]@) by {
        if k == n {
            assert forall|s: int| boards[j]@.contains(s) implies !boards[k]@.contains(s) by {
                lemma_union_before_holds(boards, n, j, s);
            }
        }
    }
}

impl BbPieceState {
    /// The twelve sets in the order in which a square is looked up when the
    /// board is printed.
    pub open spec fn boards(&self) -> Seq<Bitboard> {
        seq![
            self.wp,
            self.wb,
            self.wn,
            self.wr,
            self.wq,
            self.wk,
            self.bp,
            self.bb,
            self.bn,
            self.br,
            self.bq,
            self.bk,
        ]
    }

    /// The set of squares on which the pieces of one kind and side stand.
    pub open spec fn board(&self, side: Side, piece: Piece) -> Bitboard {
        match (side, piece) {
            (Side::White, Piece::P) => self.wp,
            (Side::White, Piece::N) => self.wn,
            (Side::White, Piece::B) => self.wb,
            (Side::White, Piece::R) => self.wr,
            (Side::White, Piece::Q) => self.wq,
            (Side::White, Piece::K) => self.wk,
            (Side::Black, Piece::P) => self.bp,
            (Side::Black, Piece::N) => self.bn,
            (Side::Black, Piece::B) => self.bb,
            (Side::Black, Piece::R) => self.br,
            (Side::Black, Piece::Q) => self.bq,
            (Side::Black, Piece::K) => self.bk,
        }
    }

    /// The same pieces, with the set of one kind and side replaced by `b`.
    pub open spec fn with_board(&self, side: Side, piece: Piece, b: Bitboard) -> BbPieceState {
        match (side, piece) {
            (Side::White, Piece::P) => (BbPieceState { wp: b, ..*self }),
            (Side::White, Piece::N) => (BbPieceState { wn: b, ..*self }),
            (Side::White, Piece::B) => (BbPieceState { wb: b, ..*self }),
            (Side::White, Piece::R) => (BbPieceState { wr: b, ..*self }),
            (Side::White, Piece::Q) => (BbPieceState { wq: b, ..*self }),
            (Side::White, Piece::K) => (BbPieceState { wk: b, ..*self }),
            (Side::Black, Piece::P) => (BbPieceState { bp: b, ..*self }),
            (Side::Black, Piece::N) => (BbPieceState { bn: b, ..*self }),
            (Side::Black, Piece::B) => (BbPieceState { bb: b, ..*self }),
            (Side::Black, Piece::R) => (BbPieceState { br: b, ..*self }),
            (Side::Black, Piece::Q) => (BbPieceState { bq: b, ..*self }),
            (Side::Black, Piece::K) => (BbPieceState { bk: b, ..*self }),
        }
    }

    /// The same pieces and one more of the given kind and side on square `s`.
    pub open spec fn with_piece(&self, side: Side, piece: Piece, s: int) -> BbPieceState {
        self.with_board(
            side,
            piece,
            Bitboard { v: self.board(side, piece).v | (1u64 << (s as u64)) },
        )
    }

    /// The board without a piece.
    pub open spec fn vacant() -> BbPieceState {
        BbPieceState {
            wp: Bitboard { v: 0 },
            wr: Bitboard { v: 0 },
            wn: Bitboard { v: 0 },
            wb: Bitboard { v: 0 },
            wq: Bitboard { v: 0 },
            wk: Bitboard { v: 0 },
            bp: Bitboard { v: 0 },
            br: Bitboard { v: 0 },
            bn: Bitboard { v: 0 },
            bb: Bitboard { v: 0 },
            bq: Bitboard { v: 0 },
            bk: Bitboard { v: 0 },
        }
    }

    /// All the squares on which a piece stands.
    pub open spec fn occupied(&self) -> Set<int> {
        union_before(self.boards(), 12)
    }

    /// The squares on which a piece of the given side stands.
    pub open spec fn side_squares(&self, side: Side) -> Set<int> {
        match side {
            Side::White => self.wp@.union(self.wb@).union(self.wn@).union(self.wr@).union(
                self.wq@,
            ).union(self.wk@),
            Side::Black => self.bp@.union(self.bb@).union(self.bn@).union(self.br@).union(
                self.bq@,
            ).union(self.bk@),
        }
    }

    /// The piece on square `s`: that of the first of the twelve sets, in the
    /// order of `boards`, that holds the square.
    pub open spec fn piece_at(&self, s: int) -> Option<(Side, Piece)> {
        if self.wp@.contains(s) {
            Some((Side::White, Piece::P))
        } else if self.wb@.contains(s) {
            Some((Side::White, Piece::B))
        } else if self.wn@.contains(s) {
            Some((Side::White, Piece::N))
        } else if self.wr@.contains(s) {
            Some((Side::White, Piece::R))
        } else if self.wq@.contains(s) {
            Some((Side::White, Piece::Q))
        } else if self.wk@.contains(s) {
            Some((Side::White, Piece::K))
        } else if self.bp@.contains(s) {
            Some((Side::Black, Piece::P))
        } else if self.bb@.contains(s) {
            Some((Side::Black, Piece::B))
        } else if self.bn@.contains(s) {
            Some((Side::Black, Piece::N))
        } else if self.br@.contains(s) {
            Some((Side::Black, Piece::R))
        } else if self.bq@.contains(s) {
            Some((Side::Black, Piece::Q))
        } else if self.bk@.contains(s) {
            Some((Side::Black, Piece::K))
        } else {
            None
        }
    }

    /// The character printed for square `s`: the letter of the piece on it,
    /// or a dot where none stands.
    pub open spec fn glyph_at(&self, s: int) -> char {
        match self.piece_at(s) {
            Some((side, piece)) => glyph_of(side, piece),
            None => '.',
        }
    }

    /// The board printed as eight lines of eight characters, rank 8 first and
    /// file A first in each line, each line closed by a line feed.
    pub open spec fn render(&self) -> Seq<char> {
        Seq::new(
            72,
            |i: int|
                if i % 9 == 8 {
                    '\n'
                } else {
                    self.glyph_at(printed_square(i))
                },
        )
    }

    /// Each side has exactly one king, and the two kings stand on two squares.
    pub open spec fn kings_ok(&self) -> bool {
        &&& self.wk@.len() == 1
        &&& self.bk@.len() == 1
        &&& self.wk@.union(self.bk@).len() == 2
    }

    /// No square belongs to two of the twelve sets.
    pub open spec fn pairwise_disjoint(&self) -> bool {
        disjoint_before(self.boards(), 12)
    }

    /// The sets of any two different kinds or sides of piece have no square in
    /// common.
    pub open spec fn apart(&self) -> bool {
        forall|s1: Side, p1: Piece, s2: Side, p2: Piece|
            #![trigger self.board(s1, p1), self.board(s2, p2)]
            s1 != s2 || p1 != p2 ==> self.board(s1, p1)@.disjoint(self.board(s2, p2)@)
    }

    /// The position passes both checks: the kings are in order and no square
    /// holds two pieces.
    pub open spec fn legal(&self) -> bool {
        self.kings_ok() && self.pairwise_disjoint()
    }

    /// The set of squares on which the pieces of one kind and side stand.
    pub fn get(&self, side: Side, piece: Piece) -> (b: Bitboard)
        ensures
            b == self.board(side, piece),
    {
        match (side, piece) {
            (Side::White, Piece::P) => self.wp,
            (Side::White, Piece::N) => self.wn,
            (Side::White, Piece::B) => self.wb,
            (Side::White, Piece::R) => self.wr,
            (Side::White, Piece::Q) => self.wq,
            (Side::White, Piece::K) => self.wk,
            (Side::Black, Piece::P) => self.bp,
            (Side::Black, Piece::N) => self.bn,
            (Side::Black, Piece::B) => self.bb,
            (Side::Black, Piece::R) => self.br,
            (Side::Black, Piece::Q) => self.bq,
            (Side::Black, Piece::K) => self.bk,
        }
    }

    /// Replaces the set of one kind and side by `b`.
    pub fn set(&mut self, side: Side, piece: Piece, b: Bitboard)
        ensures
            *final(self) == old(self).with_board(side, piece, b),
    {
        match (side, piece) {
            (Side::White, Piece::P) => self.wp = b,
            (Side::White, Piece::N) => self.wn = b,
            (Side::White, Piece::B) => self.wb = b,
            (Side::White, Piece::R) => self.wr = b,
            (Side::White, Piece::Q) => self.wq = b,
            (Side::White, Piece::K) => self.wk = b,
            (Side::Black, Piece::P) => self.bp = b,
            (Side::Black, Piece::N) => self.bn = b,
            (Side::Black, Piece::B) => self.bb = b,
            (Side::Black, Piece::R) => self.br = b,
            (Side::Black, Piece::Q) => self.bq = b,
            (Side::Black, Piece::K) => self.bk = b,
        }
    }

    /// Puts a piece of the given kind and side on square `s`.
    pub fn put(&mut self, side: Side, piece: Piece, s: Square)
        requires
            s.wf(),
        ensures
            *final(self) == old(self).with_piece(side, piece, s@),
            final(self).board(side, piece)@ == old(self).board(side, piece)@.insert(s@),
            forall|s2: Side, p2: Piece|
                s2 != side || p2 != piece ==> #[trigger] final(self).board(s2, p2) == old(
                    self,
                ).board(s2, p2),
    {
        let before = self.get(side, piece);
        let after = before | Bitboard::get_coord(s);
        proof {
            assert(after@ =~= before@.insert(s@));
        }
        self.set(side, piece, after);
    }

    /// Takes the piece of the given kind and side from square `s`, if one
    /// stands there.
    pub fn take(&mut self, side: Side, piece: Piece, s: Square)
        requires
            s.wf(),
        ensures
            final(self).board(side, piece)@ == old(self).board(side, piece)@.remove(s@),
            forall|s2: Side, p2: Piece|
                s2 != side || p2 != piece ==> #[trigger] final(self).board(s2, p2) == old(
                    self,
                ).board(s2, p2),
    {
        let before = self.get(side, piece);
        self.set(side, piece, before.without_square(s));
    }

    /// Takes whatever piece of the given side stands on square `s`.
    pub fn clear_side(&mut self, side: Side, s: Square)
        requires
            s.wf(),
        ensures
            forall|piece: Piece| #[trigger]
                final(self).board(side, piece)@ == old(self).board(side, piece)@.remove(s@),
            forall|piece: Piece| #[trigger]
                final(self).board(side.flipped(), piece) == old(self).board(
                    side.flipped(),
                    piece,
                ),
    {
        self.take(side, Piece::P, s);
        self.take(side, Piece::N, s);
        self.take(side, Piece::B, s);
        self.take(side, Piece::R, s);
        self.take(side, Piece::Q, s);
        self.take(side, Piece::K, s);
    }

    /// The twelve sets in the order of `boards`.
    pub fn board_list(&self) -> (list: [Bitboard; 12])
        ensures
            list@ == self.boards(),
    {
        let list = [
            self.wp,
            self.wb,
            self.wn,
            self.wr,
            self.wq,
            self.wk,
            self.bp,
            self.bb,
            self.bn,
            self.br,
            self.bq,
            self.bk,
        ];
        assert(list@ =~= self.boards());
        list
    }

    /// All the squares on which a piece stands.
    pub fn occupancy(&self) -> (all: Bitboard)
        ensures
            all@ == self.occupied(),
    {
        let list = self.board_list();
        let mut all = Bitboard::empty();
        let mut i: usize = 0;
        while i < 12
            invariant
                i <= 12,
                list@ == self.boards(),
                all@ == union_before(self.boards(), i as int),
            decreases 12 - i,
        {
            all = all | list[i];
            i += 1;
        }
        all
    }

    /// The squares on which a piece of the given side stands.
    pub fn side_occupancy(&self, side: Side) -> (all: Bitboard)
        ensures
            all@ == self.side_squares(side),
    {
        match side {
            Side::White => self.wp | self.wb | self.wn | self.wr | self.wq | self.wk,
            Side::Black => self.bp | self.bb | self.bn | self.br | self.bq | self.bk,
        }
    }

    /// Whether each side has exactly one king, on two squares in all.
    pub fn correct_number_of_kings(&self) -> (ok: bool)
        ensures
            ok == self.kings_ok(),
    {
        let kings = self.bk | self.wk;
        proof {
            assert(kings@ =~= self.wk@.union(self.bk@));
        }
        self.wk.count_bits() == 1 && self.bk.count_bits() == 1 && kings.count_bits() == 2
    }

    /// Whether no square holds two pieces. Each set is held against the union
    /// of the sets before it.
    pub fn no_pieces_on_same_square(&self) -> (ok: bool)
        ensures
            ok == self.pairwise_disjoint(),
    {
        let list = self.board_list();
        let mut seen = Bitboard::empty();
        let mut i: usize = 0;
        while i < 12
            invariant
                i <= 12,
                list@ == self.boards(),
                seen@ == union_before(self.boards(), i as int),
                disjoint_before(self.boards(), i as int),
            decreases 12 - i,
        {
            let next = list[i];
            if !seen.is_disjoint(next) {
                proof {
                    let s = choose|s: int| seen@.contains(s) && next@.contains(s);
                    let j = lemma_union_before_origin(self.boards(), i as int, s);
                    assert(!self.boards()[j]@.disjoint(self.boards()[i as int]@));
                }
                return false;
            }
            proof {
                lemma_disjoint_step(self.boards(), i as int);
            }
            seen = seen | next;
            i += 1;
        }
        true
    }

    /// The piece on square `s`, if one stands there.
    pub fn piece_on(&self, s: Square) -> (piece: Option<(Side, Piece)>)
        requires
            s.wf(),
        ensures
            piece == self.piece_at(s@),
    {
        if self.wp.contains(s) {
            Some((Side::White, Piece::P))
        } else if self.wb.contains(s) {
            Some((Side::White, Piece::B))
        } else if self.wn.contains(s) {
            Some((Side::White, Piece::N))
        } else if self.wr.contains(s) {
            Some((Side::White, Piece::R))
        } else if self.wq.contains(s) {
            Some((Side::White, Piece::Q))
        } else if self.wk.contains(s) {
            Some((Side::White, Piece::K))
        } else if self.bp.contains(s) {
            Some((Side::Black, Piece::P))
        } else if self.bb.contains(s) {
            Some((Side::Black, Piece::B))
        } else if self.bn.contains(s) {
            Some((Side::Black, Piece::N))
        } else if self.br.contains(s) {
            Some((Side::Black, Piece::R))
        } else if self.bq.contains(s) {
            Some((Side::Black, Piece::Q))
        } else if self.bk.contains(s) {
            Some((Side::Black, Piece::K))
        } else {
            None
        }
    }
}

/// The letter of a piece as a text of one character.
pub fn glyph_text(side: Side, piece: Piece) -> (text: &'static str)
    ensures
        text@ == seq![glyph_of(side, piece)],
{
    proof {
        reveal_strlit("P");
        reveal_strlit("B");
        reveal_strlit("N");
        reveal_strlit("R");
        reveal_strlit("Q");
        reveal_strlit("K");
        reveal_strlit("p");
        reveal_strlit("b");
        reveal_strlit("n");
        reveal_strlit("r");
        reveal_strlit("q");
        reveal_strlit("k");
    }
    let text = match (side, piece) {
        (Side::White, Piece::P) => "P",
        (Side::White, Piece::N) => "N",
        (Side::White, Piece::B) => "B",
        (Side::White, Piece::R) => "R",
        (Side::White, Piece::Q) => "Q",
        (Side::White, Piece::K) => "K",
        (Side::Black, Piece::P) => "p",
        (Side::Black, Piece::N) => "n",
        (Side::Black, Piece::B) => "b",
        (Side::Black, Piece::R) => "r",
        (Side::Black, Piece::Q) => "q",
        (Side::Black, Piece::K) => "k",
    };
    assert(text@ =~= seq![glyph_of(side, piece)]);
    text
}

/// The place of a side's pieces of one kind in the order of `boards`.
pub open spec fn slot(side: Side, piece: Piece) -> int {
    match (side, piece) {
        (Side::White, Piece::P) => 0,
        (Side::White, Piece::B) => 1,
        (Side::White, Piece::N) => 2,
        (Side::White, Piece::R) => 3,
        (Side::White, Piece::Q) => 4,
        (Side::White, Piece::K) => 5,
        (Side::Black, Piece::P) => 6,
        (Side::Black, Piece::B) => 7,
        (Side::Black, Piece::N) => 8,
        (Side::Black, Piece::R) => 9,
        (Side::Black, Piece::Q) => 10,
        (Side::Black, Piece::K) => 11,
    }
}

/// Where no square holds two pieces, the sets of two different kinds or
/// sides of piece have no square in common.
pub proof fn lemma_boards_apart(ps: BbPieceState, s1: Side, p1: Piece, s2: Side, p2: Piece)
    requires
        ps.pairwise_disjoint(),
        s1 != s2 || p1 != p2,
    ensures
        ps.board(s1, p1)@.disjoint(ps.board(s2, p2)@),
{
    let boards = ps.boards();
    let j = slot(s1, p1);
    let k = slot(s2, p2);
    assert(boards[j] == ps.board(s1, p1));
    assert(boards[k] == ps.board(s2, p2));
    if j < k {
        assert(boards[j]@.disjoint(boards[k]@));
    } else {
        assert(boards[k]@.disjoint(boards[j]@));
    }
}

/// The side of the pieces at place `j` in the order of `boards`.
pub open spec fn slot_side(j: int) -> Side {
    if j < 6 {
        Side::White
    } else {
        Side::Black
    }
}

/// The kind of the pieces at place `j` in the order of `boards`.
pub open spec fn slot_piece(j: int) -> Piece {
    if j == 0 || j == 6 {
        Piece::P
    } else if j == 1 || j == 7 {
        Piece::B
    } else if j == 2 || j == 8 {
        Piece::N
    } else if j == 3 || j == 9 {
        Piece::R
    } else if j == 4 || j == 10 {
        Piece::Q
    } else {
        Piece::K
    }
}

/// No square holds two pieces exactly when the sets of any two different
/// kinds or sides of piece have no square in common.
pub proof fn lemma_apart_iff_disjoint(ps: BbPieceState)
    ensures
        ps.apart() <==> ps.pairwise_disjoint(),
{
    if ps.pairwise_disjoint() {
        assert forall|s1: Side, p1: Piece, s2: Side, p2: Piece|
            #![trigger ps.board(s1, p1), ps.board(s2, p2)]
            s1 != s2 || p1 != p2 implies ps.board(s1, p1)@.disjoint(ps.board(s2, p2)@) by {
            lemma_boards_apart(ps, s1, p1, s2, p2);
        }
    }
    if ps.apart() {
        let boards = ps.boards();
        assert forall|j: int, k: int|
            #![trigger boards[j], boards[k]]
            0 <= j < k < 12 implies boards[j]@.disjoint(boards[k]@) by {
            assert(boards[j] == ps.board(slot_side(j), slot_piece(j)));
            assert(boards[k] == ps.board(slot_side(k), slot_piece(k)));
        }
    }
}

/// A square is occupied exactly when a piece stands on it.
pub proof fn lemma_occupied_has_piece(ps: BbPieceState, s: int)
    ensures
        ps.occupied().contains(s) <==> ps.piece_at(s) is Some,
        ps.side_squares(Side::White).union(ps.side_squares(Side::Black)) == ps.occupied(),
{
    reveal_with_fuel(union_before, 13);
    assert(ps.side_squares(Side::White).union(ps.side_squares(Side::Black)) =~= ps.occupied());
}

/// Where no square holds two pieces, a square belongs to the set of a kind
/// and side of piece exactly when such a piece is the piece on the square.
pub proof fn lemma_piece_at_unique(ps: BbPieceState, s: int, side: Side, piece: Piece)
    requires
        ps.pairwise_disjoint(),
    ensures
        ps.board(side, piece)@.contains(s) <==> ps.piece_at(s) == Some((side, piece)),
{
    if ps.board(side, piece)@.contains(s) {
        match ps.piece_at(s) {
            Some((s2, p2)) => {
                assert(ps.board(s2, p2)@.contains(s));
                if s2 != side || p2 != piece {
                    lemma_boards_apart(ps, side, piece, s2, p2);
                }
            },
            None => {},
        }
    }
}

/// A piece put on a square adds the square to the set of its kind and side,
/// and leaves the other sets as they are.
pub proof fn lemma_with_piece(ps: BbPieceState, side: Side, piece: Piece, s: int)
    requires
        0 <= s < 64,
    ensures
        ps.with_piece(side, piece, s).board(side, piece)@ == ps.board(side, piece)@.insert(s),
        forall|s2: Side, p2: Piece|
            s2 != side || p2 != piece ==> #[trigger] ps.with_piece(side, piece, s).board(s2, p2)
                == ps.board(s2, p2),
{
    let before = ps.board(side, piece);
    lemma_squares_algebra(before.v, 1u64 << (s as u64));
    lemma_squares_shift(0, s as u64);
    assert(before@.union(set![s]) =~= before@.insert(s));
}

/// Which squares the twelve words of the starting position hold.
proof fn lemma_start_bits(i: u64)
    by (bit_vector)
    requires
        i < 64,
    ensures
        bit_is_set(0xff00, i) <==> 8 <= i < 16,
        bit_is_set(0x81, i) <==> i == 0 || i == 7,
        bit_is_set(0x42, i) <==> i == 1 || i == 6,
        bit_is_set(0x24, i) <==> i == 2 || i == 5,
        bit_is_set(0x8, i) <==> i == 3,
        bit_is_set(0x10, i) <==> i == 4,
        bit_is_set(0xff_0000_0000_0000, i) <==> 48 <= i < 56,
        bit_is_set(0x8100_0000_0000_0000, i) <==> i == 56 || i == 63,
        bit_is_set(0x4200_0000_0000_0000, i) <==> i == 57 || i == 62,
        bit_is_set(0x2400_0000_0000_0000, i) <==> i == 58 || i == 61,
        bit_is_set(0x0800_0000_0000_0000, i) <==> i == 59,
        bit_is_set(0x1000_0000_0000_0000, i) <==> i == 60,
{
}

/// The piece that stands on square `s` before the first move of a game.
pub open spec fn start_glyph(s: int) -> char {
    if 8 <= s < 16 {
        'P'
    } else if 48 <= s < 56 {
        'p'
    } else if s == 0 || s == 7 {
        'R'
    } else if s == 1 || s == 6 {
        'N'
    } else if s == 2 || s == 5 {
        'B'
    } else if s == 3 {
        'Q'
    } else if s == 4 {
        'K'
    } else if s == 56 || s == 63 {
        'r'
    } else if s == 57 || s == 62 {
        'n'
    } else if s == 58 || s == 61 {
        'b'
    } else if s == 59 {
        'q'
    } else if s == 60 {
        'k'
    } else {
        '.'
    }
}

impl PieceState for BbPieceState {
    /// Checks the position: first the kings, then that no square holds two
    /// pieces. The first check that fails gives the error; the pawns are not
    /// looked at, so that no other error is given.
    fn check_valid(&self) -> (r: Result<(), PieceStateValidatorErr>)
        ensures
            r is Ok <==> self.legal(),
            r == Err::<(), PieceStateValidatorErr>(PieceStateValidatorErr::MissingKing)
                <==> !self.kings_ok(),
            r == Err::<(), PieceStateValidatorErr>(PieceStateValidatorErr::PiecesOnSamePosition)
                <==> self.kings_ok() && !self.pairwise_disjoint(),
    {
        if !self.correct_number_of_kings() {
            return Err(PieceStateValidatorErr::MissingKing);
        }
        if !self.no_pieces_on_same_square() {
            return Err(PieceStateValidatorErr::PiecesOnSamePosition);
        }
        Ok(())
    }

    /// Whether the position passes both checks of `check_valid`.
    fn is_legal(&self) -> (ok: bool)
        ensures
            ok == self.legal(),
    {
        self.correct_number_of_kings() && self.no_pieces_on_same_square()
    }

    /// The board as text: eight lines of eight characters, rank 8 first and
    /// file A first in each line, a letter for a piece and a dot for an empty
    /// square, each line closed by a line feed.
    fn pretty_print(&self) -> (text: String)
        ensures
            text@ == self.render(),
    {
        let mut text = String::new();
        let mut row: u8 = 0;
        while row < 8
            invariant
                row <= 8,
                text@.len() == 9 * row,
                forall|i: int| 0 <= i < 9 * row ==> text@[i] == self.render()[i],
            decreases 8 - row,
        {
            let mut col: u8 = 0;
            while col < 8
                invariant
                    row < 8,
                    col <= 8,
                    text@.len() == 9 * row + col,
                    forall|i: int| 0 <= i < 9 * row + col ==> text@[i] == self.render()[i],
                decreases 8 - col,
            {
                let square = top_left(row * 8 + col);
                let ghost i: int = 9 * row + col;
                assert(i / 9 == row && i % 9 == col);
                match self.piece_on(square) {
                    Some((side, piece)) => text.append(glyph_text(side, piece)),
                    None => {
                        proof {
                            reveal_strlit(".");
                        }
                        text.append(".");
                    },
                }
                col += 1;
            }
            let ghost i: int = 9 * row + 8;
            assert(i / 9 == row && i % 9 == 8);
            proof {
                reveal_strlit("\n");
            }
            text.append("\n");
            row += 1;
        }
        assert(text@ =~= self.render());
        text
    }

    /// The pieces after the move `m`: see `apply_move`.
    fn make_move(&self, m: Move) -> (next: Self)
        ensures
            is_after(next, *self, m),
            next == pieces_after(*self, m),
    {
        apply_move(self, m)
    }

    /// The pieces as they stand before the first move of a game.
    fn start() -> (ps: Self)
        ensures
            ps.wp.v == 0xff00,
            ps.wr.v == 0x81,
            ps.wn.v == 0x42,
            ps.wb.v == 0x24,
            ps.wq.v == 0x8,
            ps.wk.v == 0x10,
            ps.bp.v == 0xff_0000_0000_0000,
            ps.br.v == 0x8100_0000_0000_0000,
            ps.bn.v == 0x4200_0000_0000_0000,
            ps.bb.v == 0x2400_0000_0000_0000,
            ps.bq.v == 0x0800_0000_0000_0000,
            ps.bk.v == 0x1000_0000_0000_0000,
            ps.legal(),
            forall|s: int|
                #![trigger ps.glyph_at(s)]
                #![trigger start_glyph(s)]
                0 <= s < 64 ==> ps.glyph_at(s) == start_glyph(s),
    {
        let ps = BbPieceState {
            wp: Bitboard::new(0xff00),
            wr: Bitboard::new(0x81),
            wn: Bitboard::new(0x42),
            wb: Bitboard::new(0x24),
            wq: Bitboard::new(0x8),
            wk: Bitboard::new(0x10),
            bp: Bitboard::new(0xff_0000_0000_0000),
            br: Bitboard::new(0x8100_0000_0000_0000),
            bn: Bitboard::new(0x4200_0000_0000_0000),
            bb: Bitboard::new(0x2400_0000_0000_0000),
            bq: Bitboard::new(0x0800_0000_0000_0000),
            bk: Bitboard::new(0x1000_0000_0000_0000),
        };
        proof {
            let boards = ps.boards();
            assert forall|s: int| 0 <= s < 64 implies {
                &&& ps.wp@.contains(s) <==> 8 <= s < 16
                &&& ps.wr@.contains(s) <==> s == 0 || s == 7
                &&& ps.wn@.contains(s) <==> s == 1 || s == 6
                &&& ps.wb@.contains(s) <==> s == 2 || s == 5
                &&& ps.wq@.contains(s) <==> s == 3
                &&& ps.wk@.contains(s) <==> s == 4
                &&& ps.bp@.contains(s) <==> 48 <= s < 56
                &&& ps.br@.contains(s) <==> s == 56 || s == 63
                &&& ps.bn@.contains(s) <==> s == 57 || s == 62
                &&& ps.bb@.contains(s) <==> s == 58 || s == 61
                &&& ps.bq@.contains(s) <==> s == 59
                &&& ps.bk@.contains(s) <==> s == 60
                &&& ps.glyph_at(s) == #[trigger] start_glyph(s)
            } by {
                lemma_start_bits(s as u64);
            }
            assert(ps.wk@ =~= set![4int]) by {
                assert(start_glyph(4) == 'K');
                assert forall|s: int| ps.wk@.contains(s) implies s == 4 by {
                    assert(start_glyph(s) != '?');
                }
            }
            assert(ps.bk@ =~= set![60int]) by {
                assert(start_glyph(60) == 'k');
                assert forall|s: int| ps.bk@.contains(s) implies s == 60 by {
                    assert(start_glyph(s) != '?');
                }
            }
            assert(ps.wk@.union(ps.bk@) =~= set![4int, 60int]);
            assert forall|j: int, k: int|
                #![trigger boards[j], boards[k]]
                0 <= j < k < 12 implies boards[j]@.disjoint(boards[k]@) by {
                assert forall|s: int| boards[j]@.contains(s) implies !boards[k]@.contains(s) by {
                    assert(start_glyph(s) != '?');
                }
            }
        }
        ps
    }

    /// No piece on any square.
    fn empty() -> (ps: Self)
        ensures
            ps == BbPieceState::vacant(),
            ps.occupied() == Set::<int>::empty(),
    {
        let ps = BbPieceState {
            wp: Bitboard::empty(),
            wr: Bitboard::empty(),
            wn: Bitboard::empty(),
            wb: Bitboard::empty(),
            wq: Bitboard::empty(),
            wk: Bitboard::empty(),
            bp: Bitboard::empty(),
            br: Bitboard::empty(),
            bn: Bitboard::empty(),
            bb: Bitboard::empty(),
            bq: Bitboard::empty(),
            bk: Bitboard::empty(),
        };
        proof {
            lemma_squares_algebra(0, 0);
            reveal_with_fuel(union_before, 13);
            assert(ps.occupied() =~= Set::<int>::empty());
        }
        ps
    }
}

} // verus!
