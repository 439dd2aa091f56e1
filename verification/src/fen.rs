use crate::api::{PieceState, Square};
use crate::bitboard::{lemma_squares_algebra, lemma_squares_len};
use crate::board::{
    glyph_of, lemma_apart_iff_disjoint, lemma_boards_apart, lemma_with_piece, BbBoardState,
    BbPieceState,
};
use crate::enums::{File, Piece, Rank, Side};
use std::str::Chars;
use vstd::prelude::*;
use vstd::std_specs::iter::IteratorSpec;

verus! {

broadcast use vstd::string::group_string_axioms;

/// Why a text is no position in Forsyth-Edwards notation: the field that is
/// at fault. A field is at fault where it is missing, where it is not what
/// the notation asks for, and where something else than a space follows it.
/// Where the text ends after a field that is in order, the field that should
/// come next is the one that is missing.
#[derive(Debug, Clone, Copy, PartialEq, Eq, Structural)]
pub enum FenError {
    /// The board is not eight ranks of eight squares each with `/` between
    /// the ranks, or something else than a space follows it.
    MalformedBoard,
    /// The side to move is missing or neither `w` nor `b`, or something else
    /// than a space follows it.
    InvalidSideToMove,
    /// The castling field is missing, or neither `-` nor made of the letters
    /// `K`, `Q`, `k` and `q`, or something else than a space follows `-`.
    InvalidCastlingField,
    /// The en-passant field is missing or neither `-` nor the name of a
    /// square, or something else than a space follows it.
    InvalidEnPassant,
    /// The half-move clock or the move number is missing, or too large to be
    /// kept, or no space stands between the two.
    InvalidMoveCounter,
}

/// The four rights to castle: White's on the king's and on the queen's side,
/// then Black's.
#[derive(Debug, Clone, Copy, PartialEq, Eq, Structural)]
pub struct CastlingRights {
    pub w_kingside: bool,
    pub w_queenside: bool,
    pub b_kingside: bool,
    pub b_queenside: bool,
}

/// The largest half-move clock that a position holds.
pub const MAX_HALF_MOVES: u32 = 255;

/// The largest move number that a position holds.
pub const MAX_FULL_MOVES: u32 = 65535;

/// The piece that a letter of the board field stands for.
pub open spec fn piece_of_glyph(c: char) -> Option<(Side, Piece)> {
    if c == 'P' {
        Some((Side::White, Piece::P))
    } else if c == 'N' {
        Some((Side::White, Piece::N))
    } else if c == 'B' {
        Some((Side::White, Piece::B))
    } else if c == 'R' {
        Some((Side::White, Piece::R))
    } else if c == 'Q' {
        Some((Side::White, Piece::Q))
    } else if c == 'K' {
        Some((Side::White, Piece::K))
    } else if c == 'p' {
        Some((Side::Black, Piece::P))
    } else if c == 'n' {
        Some((Side::Black, Piece::N))
    } else if c == 'b' {
        Some((Side::Black, Piece::B))
    } else if c == 'r' {
        Some((Side::Black, Piece::R))
    } else if c == 'q' {
        Some((Side::Black, Piece::Q))
    } else if c == 'k' {
        Some((Side::Black, Piece::K))
    } else {
        None
    }
}

/// Whether `c` is a decimal digit.
pub open spec fn is_digit(c: char) -> bool {
    '0' <= c <= '9'
}

/// The number that a decimal digit stands for.
pub open spec fn digit_value(c: char) -> int {
    c as int - '0' as int
}

/// The text after its first character, if that character is `c`.
pub open spec fn expect_char(rem: Seq<char>, c: char) -> Option<Seq<char>> {
    if rem.len() > 0 && rem[0] == c {
        Some(rem.drop_first())
    } else {
        None
    }
}

/// Reads one rank of the board field from file `file` on: a digit from 1 to 8
/// passes over that many empty squares, a piece letter puts the piece on the
/// next square. The rank is read when eight squares are accounted for; a
/// digit that leads past the eighth square fails. Gives the pieces with those
/// of the rank added, and the text that follows the rank.
pub open spec fn parse_rank_from(rem: Seq<char>, ps: BbPieceState, rank: int, file: int) -> Option<
    (BbPieceState, Seq<char>),
>
    decreases 8 - file,
{
    if file >= 8 {
        Some((ps, rem))
    } else if rem.len() == 0 {
        None
    } else if '1' <= rem[0] <= '8' {
        if file + digit_value(rem[0]) > 8 {
            None
        } else {
            parse_rank_from(rem.drop_first(), ps, rank, file + digit_value(rem[0]))
        }
    } else {
        match piece_of_glyph(rem[0]) {
            Some((side, piece)) => parse_rank_from(
                rem.drop_first(),
                ps.with_piece(side, piece, rank * 8 + file),
                rank,
                file + 1,
            ),
            None => None,
        }
    }
}

/// Reads the ranks from `rank` down to rank 1, with a `/` between two ranks.
pub open spec fn parse_ranks_from(rem: Seq<char>, ps: BbPieceState, rank: int) -> Option<
    (BbPieceState, Seq<char>),
>
    decreases rank,
{
    match parse_rank_from(rem, ps, rank, 0) {
        None => None,
        Some((with_rank, rest)) => if rank <= 0 {
            Some((with_rank, rest))
        } else {
            match expect_char(rest, '/') {
                None => None,
                Some(next) => parse_ranks_from(next, with_rank, rank - 1),
            }
        },
    }
}

/// Reads the board field: eight ranks, rank 8 first.
pub open spec fn parse_board(rem: Seq<char>) -> Option<(BbPieceState, Seq<char>)> {
    parse_ranks_from(rem, BbPieceState::vacant(), 7)
}

/// Reads the side to move: `w` or `b`.
pub open spec fn parse_side(rem: Seq<char>) -> Option<(Side, Seq<char>)> {
    if rem.len() == 0 {
        None
    } else if rem[0] == 'w' {
        Some((Side::White, rem.drop_first()))
    } else if rem[0] == 'b' {
        Some((Side::Black, rem.drop_first()))
    } else {
        None
    }
}

/// The rights with the one added that the letter `c` names.
pub open spec fn with_right(rights: CastlingRights, c: char) -> Option<CastlingRights> {
    if c == 'K' {
        Some(CastlingRights { w_kingside: true, ..rights })
    } else if c == 'Q' {
        Some(CastlingRights { w_queenside: true, ..rights })
    } else if c == 'k' {
        Some(CastlingRights { b_kingside: true, ..rights })
    } else if c == 'q' {
        Some(CastlingRights { b_queenside: true, ..rights })
    } else {
        None
    }
}

/// No right to castle.
pub open spec fn no_rights() -> CastlingRights {
    CastlingRights {
        w_kingside: false,
        w_queenside: false,
        b_kingside: false,
        b_queenside: false,
    }
}

/// Passes over the space that ends a field. Something else in its place is
/// the fault of the field `field`; where the text ends there, the field that
/// should follow is missing, and the fault is `next`.
pub open spec fn end_of_field(rem: Seq<char>, field: FenError, next: FenError) -> Result<
    Seq<char>,
    FenError,
> {
    if rem.len() == 0 {
        Err(next)
    } else if rem[0] == ' ' {
        Ok(rem.drop_first())
    } else {
        Err(field)
    }
}

/// Reads letters of the castling field up to the space that ends it, and
/// passes over that space. Where the text ends after a letter, the
/// en-passant field is missing.
pub open spec fn parse_castling_letters(rem: Seq<char>, rights: CastlingRights) -> Result<
    (CastlingRights, Seq<char>),
    FenError,
>
    decreases rem.len(),
{
    if rem.len() == 0 {
        Err(FenError::InvalidEnPassant)
    } else if rem[0] == ' ' {
        Ok((rights, rem.drop_first()))
    } else {
        match with_right(rights, rem[0]) {
            Some(more) => parse_castling_letters(rem.drop_first(), more),
            None => Err(FenError::InvalidCastlingField),
        }
    }
}

/// Reads the castling field and the space after it: `-` for no right, or one
/// or more of the letters `K`, `Q`, `k` and `q`, in any order. Where the text
/// ends after the field, the en-passant field is missing.
pub open spec fn parse_castling(rem: Seq<char>) -> Result<(CastlingRights, Seq<char>), FenError> {
    if rem.len() == 0 || rem[0] == ' ' {
        Err(FenError::InvalidCastlingField)
    } else if rem[0] == '-' {
        match end_of_field(
            rem.drop_first(),
            FenError::InvalidCastlingField,
            FenError::InvalidEnPassant,
        ) {
            Ok(rest) => Ok((no_rights(), rest)),
            Err(e) => Err(e),
        }
    } else {
        parse_castling_letters(rem, no_rights())
    }
}

/// Reads the en-passant field: `-` for none, or the letter of a file and a
/// digit from 1 to 8. The file is kept.
pub open spec fn parse_en_passant(rem: Seq<char>) -> Option<(Option<File>, Seq<char>)> {
    if rem.len() == 0 {
        None
    } else if rem[0] == '-' {
        Some((None, rem.drop_first()))
    } else {
        match File::of_letter(rem[0]) {
            Some(file) => if rem.len() > 1 && '1' <= rem[1] <= '8' {
                Some((Some(file), rem.skip(2)))
            } else {
                None
            },
            None => None,
        }
    }
}

/// How many decimal digits the text begins with.
pub open spec fn digit_run(rem: Seq<char>) -> nat
    decreases rem.len(),
{
    if rem.len() > 0 && is_digit(rem[0]) {
        1 + digit_run(rem.drop_first())
    } else {
        0
    }
}

/// The number that the first `n` characters of the text spell in decimal.
pub open spec fn decimal_value(rem: Seq<char>, n: nat) -> nat
    decreases n,
{
    if n == 0 {
        0
    } else {
        (decimal_value(rem, (n - 1) as nat) * 10 + digit_value(rem[n - 1])) as nat
    }
}

/// Reads a number: all the decimal digits that the text begins with, at
/// least one, which spell a number no greater than `max`.
pub open spec fn parse_number(rem: Seq<char>, max: nat) -> Option<(nat, Seq<char>)> {
    let n = digit_run(rem);
    if n == 0 || decimal_value(rem, n) > max {
        None
    } else {
        Some((decimal_value(rem, n), rem.skip(n as int)))
    }
}

/// The position that a text in Forsyth-Edwards notation describes, or the
/// field at which the text fails. The fields are the board, the side to move,
/// the castling rights, the en-passant square, the half-move clock and the
/// move number, with one space between two fields. A field fails where it is
/// not what the notation asks for and where something else than a space
/// follows it; where the text ends, the field that should come next fails.
/// What follows the move number is not read.
pub open spec fn fen_decode(text: Seq<char>) -> Result<BbBoardState, FenError> {
    match parse_board(text) {
        None => Err(FenError::MalformedBoard),
        Some((pieces, r1)) => match end_of_field(
            r1,
            FenError::MalformedBoard,
            FenError::InvalidSideToMove,
        ) {
            Err(e) => Err(e),
            Ok(r2) => match parse_side(r2) {
                None => Err(FenError::InvalidSideToMove),
                Some((side, r3)) => match end_of_field(
                    r3,
                    FenError::InvalidSideToMove,
                    FenError::InvalidCastlingField,
                ) {
                    Err(e) => Err(e),
                    Ok(r4) => match parse_castling(r4) {
                        Err(e) => Err(e),
                        Ok((rights, r5)) => match parse_en_passant(r5) {
                            None => Err(FenError::InvalidEnPassant),
                            Some((file, r6)) => match end_of_field(
                                r6,
                                FenError::InvalidEnPassant,
                                FenError::InvalidMoveCounter,
                            ) {
                                Err(e) => Err(e),
                                Ok(r7) => decode_counters(pieces, side, rights, file, r7),
                            },
                        },
                    },
                },
            },
        },
    }
}

/// The last two fields of the notation, and the position that they complete.
pub open spec fn decode_counters(
    pieces: BbPieceState,
    side: Side,
    rights: CastlingRights,
    file: Option<File>,
    rem: Seq<char>,
) -> Result<BbBoardState, FenError> {
    match parse_number(rem, MAX_HALF_MOVES as nat) {
        None => Err(FenError::InvalidMoveCounter),
        Some((half, r1)) => match expect_char(r1, ' ') {
            None => Err(FenError::InvalidMoveCounter),
            Some(r2) => match parse_number(r2, MAX_FULL_MOVES as nat) {
                None => Err(FenError::InvalidMoveCounter),
                Some((full, _)) => Ok(
                    BbBoardState {
                        pieces,
                        to_move: side,
                        en_passant: file,
                        reversable_moves: half as u8,
                        w_kingside_castling: rights.w_kingside,
                        w_queenside_castling: rights.w_queenside,
                        b_kingside_castling: rights.b_kingside,
                        b_queenside_castling: rights.b_queenside,
                        full_moves: full as u16,
                    },
                ),
            },
        },
    }
}

/// The first character of a text, if it has one.
pub open spec fn first_of(rem: Seq<char>) -> Option<char> {
    if rem.len() > 0 {
        Some(rem[0])
    } else {
        None
    }
}

/// The text without its first character; the empty text stays empty.
pub open spec fn after_first(rem: Seq<char>) -> Seq<char> {
    if rem.len() > 0 {
        rem.drop_first()
    } else {
        rem
    }
}

/// A text that begins with `n` digits and goes on with something else begins
/// with exactly `n` digits.
pub proof fn lemma_digit_run_exact(rem: Seq<char>, n: nat)
    requires
        n <= rem.len(),
        forall|i: int| 0 <= i < n ==> is_digit(#[trigger] rem[i]),
        n == rem.len() || !is_digit(rem[n as int]),
    ensures
        digit_run(rem) == n,
    decreases n,
{
    if n > 0 {
        let rest = rem.drop_first();
        assert forall|i: int| 0 <= i < n - 1 implies is_digit(#[trigger] rest[i]) by {
            assert(rest[i] == rem[i + 1]);
        }
        if n < rem.len() {
            assert(rest[n - 1] == rem[n as int]);
        }
        lemma_digit_run_exact(rest, (n - 1) as nat);
    }
}

/// A text that begins with `n` digits begins with at least `n` digits.
pub proof fn lemma_digit_run_at_least(rem: Seq<char>, n: nat)
    requires
        n <= rem.len(),
        forall|i: int| 0 <= i < n ==> is_digit(#[trigger] rem[i]),
    ensures
        digit_run(rem) >= n,
    decreases n,
{
    if n > 0 {
        let rest = rem.drop_first();
        assert forall|i: int| 0 <= i < n - 1 implies is_digit(#[trigger] rest[i]) by {
            assert(rest[i] == rem[i + 1]);
        }
        lemma_digit_run_at_least(rest, (n - 1) as nat);
    }
}

/// A longer run of digits spells no smaller a number.
pub proof fn lemma_decimal_value_grows(rem: Seq<char>, m: nat, n: nat)
    requires
        m <= n <= rem.len(),
        forall|i: int| 0 <= i < n ==> is_digit(#[trigger] rem[i]),
    ensures
        decimal_value(rem, m) <= decimal_value(rem, n),
    decreases n,
{
    if m < n {
        lemma_decimal_value_grows(rem, m, (n - 1) as nat);
        assert(is_digit(rem[n - 1]));
    }
}

/// The first `digit_run` characters of a text are digits.
pub proof fn lemma_digit_run_digits(rem: Seq<char>)
    ensures
        digit_run(rem) <= rem.len(),
        forall|i: int| 0 <= i < digit_run(rem) ==> is_digit(#[trigger] rem[i]),
    decreases rem.len(),
{
    if rem.len() > 0 && is_digit(rem[0]) {
        let rest = rem.drop_first();
        lemma_digit_run_digits(rest);
        assert forall|i: int| 0 <= i < digit_run(rem) implies is_digit(#[trigger] rem[i]) by {
            if i > 0 {
                assert(rest[i - 1] == rem[i]);
            }
        }
    }
}

/// The squares that come before file `file` of rank `rank` when the board is
/// read rank by rank from rank 8 down, each rank from file A on.
pub open spec fn read_before(rank: int, file: int) -> Set<int> {
    Set::new(|s: int| 0 <= s < 64 && (s / 8 > rank || (s / 8 == rank && s % 8 < file)))
}

/// All pieces stand on squares of `seen`.
pub open spec fn stands_within(ps: BbPieceState, seen: Set<int>) -> bool {
    forall|side: Side, piece: Piece| #[trigger] ps.board(side, piece)@.subset_of(seen)
}

/// Pieces of which no two stand on one square, all on squares read before,
/// stay so when a rank is read.
pub proof fn lemma_rank_keeps_apart(rem: Seq<char>, acc: BbPieceState, rank: int, file: int)
    requires
        0 <= rank < 8,
        0 <= file <= 8,
        acc.apart(),
        stands_within(acc, read_before(rank, file)),
    ensures
        match parse_rank_from(rem, acc, rank, file) {
            Some((read, _)) => read.apart() && stands_within(read, read_before(rank, 8)),
            None => true,
        },
    decreases 8 - file,
{
    if file >= 8 {
    } else if rem.len() == 0 {
    } else if '1' <= rem[0] <= '8' {
        let skip = digit_value(rem[0]);
        if file + skip <= 8 {
            assert forall|side: Side, piece: Piece| #[trigger]
                acc.board(side, piece)@.subset_of(read_before(rank, file + skip)) by {
                assert(acc.board(side, piece)@.subset_of(read_before(rank, file)));
                assert(read_before(rank, file).subset_of(read_before(rank, file + skip)));
            }
            lemma_rank_keeps_apart(rem.drop_first(), acc, rank, file + skip);
        }
    } else {
        match piece_of_glyph(rem[0]) {
            Some((side, piece)) => {
                let sq = rank * 8 + file;
                let more = acc.with_piece(side, piece, sq);
                lemma_with_piece(acc, side, piece, sq);
                assert forall|s2: Side, p2: Piece| #[trigger]
                    more.board(s2, p2)@.subset_of(read_before(rank, file + 1)) by {
                    assert(acc.board(s2, p2)@.subset_of(read_before(rank, file)));
                    assert(read_before(rank, file).subset_of(read_before(rank, file + 1)));
                    assert(read_before(rank, file + 1).contains(sq));
                    if s2 != side || p2 != piece {
                        assert(more.board(s2, p2) == acc.board(s2, p2));
                    }
                }
                assert forall|s1: Side, p1: Piece, s2: Side, p2: Piece|
                    #![trigger more.board(s1, p1), more.board(s2, p2)]
                    s1 != s2 || p1 != p2 implies more.board(s1, p1)@.disjoint(
                    more.board(s2, p2)@,
                ) by {
                    assert(acc.board(s1, p1)@.disjoint(acc.board(s2, p2)@));
                    assert(acc.board(s1, p1)@.subset_of(read_before(rank, file)));
                    assert(acc.board(s2, p2)@.subset_of(read_before(rank, file)));
                    assert(!read_before(rank, file).contains(sq));
                    if s1 != side || p1 != piece {
                        assert(more.board(s1, p1) == acc.board(s1, p1));
                    }
                    if s2 != side || p2 != piece {
                        assert(more.board(s2, p2) == acc.board(s2, p2));
                    }
                }
                lemma_rank_keeps_apart(rem.drop_first(), more, rank, file + 1);
            },
            None => {},
        }
    }
}

/// Pieces of which no two stand on one square, all on squares read before,
/// stay so when the ranks from `rank` down are read.
pub proof fn lemma_ranks_keep_apart(rem: Seq<char>, acc: BbPieceState, rank: int)
    requires
        0 <= rank < 8,
        acc.apart(),
        stands_within(acc, read_before(rank, 0)),
    ensures
        match parse_ranks_from(rem, acc, rank) {
            Some((read, _)) => read.apart(),
            None => true,
        },
    decreases rank,
{
    lemma_rank_keeps_apart(rem, acc, rank, 0);
    match parse_rank_from(rem, acc, rank, 0) {
        Some((with_rank, rest)) => {
            if rank > 0 {
                match expect_char(rest, '/') {
                    Some(next) => {
                        assert(read_before(rank, 8) =~= read_before(rank - 1, 0));
                        lemma_ranks_keep_apart(next, with_rank, rank - 1);
                    },
                    None => {},
                }
            }
        },
        None => {},
    }
}

/// In a position that is read from a text no square holds two pieces.
pub proof fn lemma_decoded_pieces_apart(text: Seq<char>)
    ensures
        match fen_decode(text) {
            Ok(state) => state.pieces.pairwise_disjoint(),
            Err(_) => true,
        },
{
    let none = BbPieceState::vacant();
    lemma_squares_algebra(0, 0);
    assert(none.apart());
    assert(stands_within(none, read_before(7, 0)));
    lemma_ranks_keep_apart(text, none, 7);
    match parse_board(text) {
        Some((pieces, _)) => {
            lemma_apart_iff_disjoint(pieces);
        },
        None => {},
    }
}

/// How often the character `c` stands among the first `n` characters of the
/// text.
pub open spec fn count_char(text: Seq<char>, c: char, n: nat) -> nat
    decreases n,
{
    if n == 0 {
        0
    } else {
        count_char(text, c, (n - 1) as nat) + if text[n - 1] == c {
            1nat
        } else {
            0nat
        }
    }
}

/// How many characters of the text the board field takes up; nought where
/// the text does not begin with a board.
pub open spec fn board_length(text: Seq<char>) -> nat {
    match parse_board(text) {
        Some((_, rest)) => (text.len() - rest.len()) as nat,
        None => 0,
    }
}

/// Reading a rank from place `pos` of a text puts as many pieces of a kind
/// and side on the board as the letter of that piece stands in what is read
/// of the text. The place at which the reading ends is returned.
pub proof fn lemma_rank_counts_letters(
    text: Seq<char>,
    pos: int,
    acc: BbPieceState,
    rank: int,
    file: int,
    side: Side,
    piece: Piece,
) -> (end: int)
    requires
        0 <= rank < 8,
        0 <= file <= 8,
        0 <= pos <= text.len(),
        stands_within(acc, read_before(rank, file)),
        parse_rank_from(text.skip(pos), acc, rank, file) is Some,
    ensures
        pos <= end <= text.len(),
        match parse_rank_from(text.skip(pos), acc, rank, file) {
            Some((read, rest)) => {
                &&& rest == text.skip(end)
                &&& stands_within(read, read_before(rank, 8))
                &&& read.board(side, piece)@.len() + count_char(
                    text,
                    glyph_of(side, piece),
                    pos as nat,
                ) == acc.board(side, piece)@.len() + count_char(
                    text,
                    glyph_of(side, piece),
                    end as nat,
                )
            },
            None => false,
        },
    decreases 8 - file,
{
    let rem = text.skip(pos);
    let letter = glyph_of(side, piece);
    if file >= 8 {
        assert forall|s2: Side, p2: Piece| #[trigger]
            acc.board(s2, p2)@.subset_of(read_before(rank, 8)) by {
            assert(acc.board(s2, p2)@.subset_of(read_before(rank, file)));
            assert(read_before(rank, file).subset_of(read_before(rank, 8)));
        }
        pos
    } else {
        assert(rem.len() > 0);
        assert(rem[0] == text[pos]);
        assert(rem.drop_first() =~= text.skip(pos + 1));
        assert(count_char(text, letter, (pos + 1) as nat) == count_char(text, letter, pos as nat)
            + if text[pos] == letter {
            1nat
        } else {
            0nat
        });
        if '1' <= rem[0] <= '8' {
            let skip = digit_value(rem[0]);
            assert forall|s2: Side, p2: Piece| #[trigger]
                acc.board(s2, p2)@.subset_of(read_before(rank, file + skip)) by {
                assert(acc.board(s2, p2)@.subset_of(read_before(rank, file)));
                assert(read_before(rank, file).subset_of(read_before(rank, file + skip)));
            }
            lemma_rank_counts_letters(text, pos + 1, acc, rank, file + skip, side, piece)
        } else {
            let found = piece_of_glyph(rem[0]);
            let (s1, p1) = match found {
                Some(pair) => pair,
                None => (side, piece),
            };
            let sq = rank * 8 + file;
            let more = acc.with_piece(s1, p1, sq);
            lemma_with_piece(acc, s1, p1, sq);
            assert forall|s2: Side, p2: Piece| #[trigger]
                more.board(s2, p2)@.subset_of(read_before(rank, file + 1)) by {
                assert(acc.board(s2, p2)@.subset_of(read_before(rank, file)));
                assert(read_before(rank, file).subset_of(read_before(rank, file + 1)));
                assert(read_before(rank, file + 1).contains(sq));
                if s2 != s1 || p2 != p1 {
                    assert(more.board(s2, p2) == acc.board(s2, p2));
                }
            }
            assert(acc.board(side, piece)@.subset_of(read_before(rank, file)));
            assert(!read_before(rank, file).contains(sq));
            lemma_squares_len(acc.board(side, piece).v);
            if s1 == side && p1 == piece {
                assert(text[pos] == letter);
                assert(more.board(side, piece)@.len() == acc.board(side, piece)@.len() + 1);
            } else {
                assert(piece_of_glyph(letter) == Some((side, piece)));
                assert(text[pos] != letter);
                assert(more.board(side, piece) == acc.board(side, piece));
            }
            lemma_rank_counts_letters(text, pos + 1, more, rank, file + 1, side, piece)
        }
    }
}

/// Reading the ranks from `rank` down from place `pos` of a text puts as
/// many pieces of a kind and side on the board as the letter of that piece
/// stands in what is read of the text. The place at which the reading ends
/// is returned.
pub proof fn lemma_ranks_count_letters(
    text: Seq<char>,
    pos: int,
    acc: BbPieceState,
    rank: int,
    side: Side,
    piece: Piece,
) -> (end: int)
    requires
        0 <= rank < 8,
        0 <= pos <= text.len(),
        stands_within(acc, read_before(rank, 0)),
        parse_ranks_from(text.skip(pos), acc, rank) is Some,
    ensures
        pos <= end <= text.len(),
        match parse_ranks_from(text.skip(pos), acc, rank) {
            Some((read, rest)) => {
                &&& rest == text.skip(end)
                &&& read.board(side, piece)@.len() + count_char(
                    text,
                    glyph_of(side, piece),
                    pos as nat,
                ) == acc.board(side, piece)@.len() + count_char(
                    text,
                    glyph_of(side, piece),
                    end as nat,
                )
            },
            None => false,
        },
    decreases rank,
{
    let letter = glyph_of(side, piece);
    let mid = lemma_rank_counts_letters(text, pos, acc, rank, 0, side, piece);
    if rank == 0 {
        mid
    } else {
        let with_rank = match parse_rank_from(text.skip(pos), acc, rank, 0) {
            Some((read, _)) => read,
            None => acc,
        };
        let rest = text.skip(mid);
        assert(rest.len() > 0 && rest[0] == '/');
        assert(rest[0] == text[mid]);
        assert(rest.drop_first() =~= text.skip(mid + 1));
        assert(count_char(text, letter, (mid + 1) as nat) == count_char(text, letter, mid as nat));
        assert(read_before(rank, 8) =~= read_before(rank - 1, 0));
        lemma_ranks_count_letters(text, mid + 1, with_rank, rank - 1, side, piece)
    }
}

/// A board that is read from a text holds as many pieces of a kind and side
/// as the letter of that piece stands in the board field.
pub proof fn lemma_board_counts_letters(text: Seq<char>, side: Side, piece: Piece)
    requires
        parse_board(text) is Some,
    ensures
        board_length(text) <= text.len(),
        match parse_board(text) {
            Some((pieces, _)) => pieces.board(side, piece)@.len() == count_char(
                text,
                glyph_of(side, piece),
                board_length(text),
            ),
            None => false,
        },
{
    let none = BbPieceState::vacant();
    lemma_squares_algebra(0, 0);
    assert(stands_within(none, read_before(7, 0)));
    assert(text.skip(0) =~= text);
    let end = lemma_ranks_count_letters(text, 0, none, 7, side, piece);
    assert(none.board(side, piece)@ =~= Set::<int>::empty());
}

/// A position that is read from a text whose board field names one king of
/// White and one king of Black passes the checks of its pieces.
pub proof fn lemma_decoded_with_two_kings_is_legal(text: Seq<char>)
    requires
        fen_decode(text) is Ok,
        count_char(text, 'K', board_length(text)) == 1,
        count_char(text, 'k', board_length(text)) == 1,
    ensures
        match fen_decode(text) {
            Ok(state) => state.pieces.legal(),
            Err(_) => false,
        },
{
    lemma_decoded_pieces_apart(text);
    lemma_board_counts_letters(text, Side::White, Piece::K);
    lemma_board_counts_letters(text, Side::Black, Piece::K);
    match parse_board(text) {
        Some((pieces, _)) => {
            lemma_boards_apart(pieces, Side::White, Piece::K, Side::Black, Piece::K);
            lemma_squares_len(pieces.wk.v);
            lemma_squares_len(pieces.bk.v);
            vstd::set_lib::lemma_set_disjoint_lens(pieces.wk@, pieces.bk@);
        },
        None => {},
    }
}

/// The piece that a letter of the board field stands for.
pub fn piece_from_char(c: char) -> (piece: Option<(Side, Piece)>)
    ensures
        piece == piece_of_glyph(c),
{
    match c {
        'P' => Some((Side::White, Piece::P)),
        'N' => Some((Side::White, Piece::N)),
        'B' => Some((Side::White, Piece::B)),
        'R' => Some((Side::White, Piece::R)),
        'Q' => Some((Side::White, Piece::Q)),
        'K' => Some((Side::White, Piece::K)),
        'p' => Some((Side::Black, Piece::P)),
        'n' => Some((Side::Black, Piece::N)),
        'b' => Some((Side::Black, Piece::B)),
        'r' => Some((Side::Black, Piece::R)),
        'q' => Some((Side::Black, Piece::Q)),
        'k' => Some((Side::Black, Piece::K)),
        _ => None,
    }
}

/// Reads one rank of the board field and puts its pieces on the board.
fn parse_line(chars: &mut Chars<'_>, ps: &mut BbPieceState, r: Rank) -> (done: Option<()>)
    requires
        (*old(chars)).decrease() is Some,
    ensures
        (*final(chars)).decrease() is Some,
        match parse_rank_from((*old(chars)).remaining(), *old(ps), r.ord(), 0) {
            Some((after, rest)) => done is Some && *final(ps) == after && (*final(chars)).remaining() == rest,
            None => done is None,
        },
{
    let ghost goal = parse_rank_from((*chars).remaining(), *ps, r.ord(), 0);
    let rank: u8 = r.index();
    let mut square_ct: u8 = 0;
    while square_ct < 8
        invariant
            square_ct <= 8,
            rank == r.ord(),
            rank < 8,
            (*chars).decrease() is Some,
            goal == parse_rank_from((*old(chars)).remaining(), *old(ps), r.ord(), 0),
            parse_rank_from((*chars).remaining(), *ps, r.ord(), square_ct as int) == goal,
        decreases 8 - square_ct,
    {
        let c = match chars.next() {
            Some(c) => c,
            None => {
                return None;
            },
        };
        if '1' <= c && c <= '8' {
            let skip: u8 = (c as u8) - ('0' as u8);
            if skip > 8 - square_ct {
                return None;
            }
            square_ct += skip;
        } else {
            match piece_from_char(c) {
                Some((side, piece)) => {
                    ps.put(side, piece, Square::new(rank * 8 + square_ct));
                    square_ct += 1;
                },
                None => {
                    return None;
                },
            }
        }
    }
    Some(())
}

/// Reads one character, which has to be `c`.
fn parse_char(chars: &mut Chars<'_>, c: char) -> (done: Option<()>)
    requires
        (*old(chars)).decrease() is Some,
    ensures
        (*final(chars)).decrease() is Some,
        match expect_char((*old(chars)).remaining(), c) {
            Some(rest) => done is Some && (*final(chars)).remaining() == rest,
            None => done is None,
        },
{
    match chars.next() {
        Some(x) => if x == c {
            Some(())
        } else {
            None
        },
        None => None,
    }
}

/// Reads the space that ends a field.
fn parse_space(chars: &mut Chars<'_>, field: FenError, next: FenError) -> (done: Result<
    (),
    FenError,
>)
    requires
        (*old(chars)).decrease() is Some,
    ensures
        (*final(chars)).decrease() is Some,
        match end_of_field((*old(chars)).remaining(), field, next) {
            Ok(rest) => done is Ok && (*final(chars)).remaining() == rest,
            Err(e) => done == Err::<(), FenError>(e),
        },
{
    match chars.next() {
        Some(' ') => Ok(()),
        Some(_) => Err(field),
        None => Err(next),
    }
}

/// Reads the eight ranks of the board field.
fn parse_lines(chars: &mut Chars<'_>, ps: &mut BbPieceState) -> (done: Option<()>)
    requires
        (*old(chars)).decrease() is Some,
    ensures
        (*final(chars)).decrease() is Some,
        match parse_ranks_from((*old(chars)).remaining(), *old(ps), 7) {
            Some((after, rest)) => done is Some && *final(ps) == after && (*final(chars)).remaining() == rest,
            None => done is None,
        },
{
    let ghost goal = parse_ranks_from((*chars).remaining(), *ps, 7);
    let mut rank: u8 = 7;
    loop
        invariant
            rank <= 7,
            (*chars).decrease() is Some,
            goal == parse_ranks_from((*old(chars)).remaining(), *old(ps), 7),
            parse_ranks_from((*chars).remaining(), *ps, rank as int) == goal,
        decreases rank,
    {
        if parse_line(chars, ps, Rank::from_index(rank)).is_none() {
            return None;
        }
        if rank == 0 {
            return Some(());
        }
        if parse_char(chars, '/').is_none() {
            return None;
        }
        rank -= 1;
    }
}

/// Reads the side to move.
fn parse_to_move(chars: &mut Chars<'_>) -> (side: Option<Side>)
    requires
        (*old(chars)).decrease() is Some,
    ensures
        (*final(chars)).decrease() is Some,
        match parse_side((*old(chars)).remaining()) {
            Some((s, rest)) => side == Some(s) && (*final(chars)).remaining() == rest,
            None => side is None,
        },
{
    match chars.next() {
        Some('w') => Some(Side::White),
        Some('b') => Some(Side::Black),
        _ => None,
    }
}

/// The rights with the one added that the letter `c` names.
fn add_right(rights: CastlingRights, c: char) -> (more: Option<CastlingRights>)
    ensures
        more == with_right(rights, c),
{
    match c {
        'K' => Some(CastlingRights { w_kingside: true, ..rights }),
        'Q' => Some(CastlingRights { w_queenside: true, ..rights }),
        'k' => Some(CastlingRights { b_kingside: true, ..rights }),
        'q' => Some(CastlingRights { b_queenside: true, ..rights }),
        _ => None,
    }
}

/// Reads the castling field and the space after it.
fn parse_castling_field(chars: &mut Chars<'_>) -> (rights: Result<CastlingRights, FenError>)
    requires
        (*old(chars)).decrease() is Some,
    ensures
        (*final(chars)).decrease() is Some,
        match parse_castling((*old(chars)).remaining()) {
            Ok((r, rest)) => rights == Ok::<CastlingRights, FenError>(r) && (*final(chars)).remaining() == rest,
            Err(e) => rights == Err::<CastlingRights, FenError>(e),
        },
{
    let ghost start = (*chars).remaining();
    let first = match chars.next() {
        Some(c) => c,
        None => {
            return Err(FenError::InvalidCastlingField);
        },
    };
    let none = CastlingRights {
        w_kingside: false,
        w_queenside: false,
        b_kingside: false,
        b_queenside: false,
    };
    if first == '-' {
        return match parse_space(
            chars,
            FenError::InvalidCastlingField,
            FenError::InvalidEnPassant,
        ) {
            Ok(_) => Ok(none),
            Err(e) => Err(e),
        };
    }
    if first == ' ' {
        return Err(FenError::InvalidCastlingField);
    }
    let mut rights = match add_right(none, first) {
        Some(more) => more,
        None => {
            return Err(FenError::InvalidCastlingField);
        },
    };
    loop
        invariant
            (*chars).decrease() is Some,
            start == (*old(chars)).remaining(),
            parse_castling_letters((*chars).remaining(), rights) == parse_castling(start),
        decreases ((*chars).decrease()->0),
    {
        let c = match chars.next() {
            Some(c) => c,
            None => {
                return Err(FenError::InvalidEnPassant);
            },
        };
        if c == ' ' {
            return Ok(rights);
        }
        rights = match add_right(rights, c) {
            Some(more) => more,
            None => {
                return Err(FenError::InvalidCastlingField);
            },
        };
    }
}

/// Reads the en-passant field.
fn parse_en_passant_field(chars: &mut Chars<'_>) -> (file: Option<Option<File>>)
    requires
        (*old(chars)).decrease() is Some,
    ensures
        (*final(chars)).decrease() is Some,
        match parse_en_passant((*old(chars)).remaining()) {
            Some((f, rest)) => file == Some(f) && (*final(chars)).remaining() == rest,
            None => file is None,
        },
{
    let ghost start = (*chars).remaining();
    let c = match chars.next() {
        Some(c) => c,
        None => {
            return None;
        },
    };
    if c == '-' {
        return Some(None);
    }
    match File::from_char(c) {
        Some(file) => {
            match chars.next() {
                Some(d) => {
                    if '1' <= d && d <= '8' {
                        assert(start.drop_first().drop_first() =~= start.skip(2));
                        Some(Some(file))
                    } else {
                        None
                    }
                },
                None => None,
            }
        },
        None => None,
    }
}

/// Reads a number no greater than `max`, and the character after it, if
/// there is one. The digits are read one by one; the number is given up as
/// soon as it passes `max`.
fn parse_num(chars: &mut Chars<'_>, max: u32) -> (number: Option<(u32, Option<char>)>)
    requires
        (*old(chars)).decrease() is Some,
        max <= 0xffff,
    ensures
        (*final(chars)).decrease() is Some,
        match parse_number((*old(chars)).remaining(), max as nat) {
            Some((n, rest)) => number == Some((n as u32, first_of(rest))) && n <= max && (*final(chars)).remaining() == after_first(rest),
            None => number is None,
        },
{
    let ghost start = (*chars).remaining();
    let mut x: u32 = 0;
    let mut any: bool = false;
    let mut stop: Option<char> = None;
    let ghost mut n: nat = 0;
    loop
        invariant_except_break
            max <= 0xffff,
            (*chars).decrease() is Some,
            n <= start.len(),
            forall|i: int| 0 <= i < n ==> is_digit(#[trigger] start[i]),
            x == decimal_value(start, n),
            x <= max,
            any == (n > 0),
            start == (*old(chars)).remaining(),
            (*chars).remaining() == start.skip(n as int),
        ensures
            (*chars).decrease() is Some,
            n <= start.len(),
            digit_run(start) == n,
            x == decimal_value(start, n),
            x <= max,
            any == (n > 0),
            stop == first_of(start.skip(n as int)),
            (*chars).remaining() == after_first(start.skip(n as int)),
        decreases ((*chars).decrease()->0),
    {
        assert(n < start.len() ==> start.skip(n as int)[0] == start[n as int]);
        let d = match chars.next() {
            Some(d) => d,
            None => {
                proof {
                    lemma_digit_run_exact(start, n);
                }
                stop = None;
                break ;
            },
        };
        if !('0' <= d && d <= '9') {
            proof {
                lemma_digit_run_exact(start, n);
            }
            stop = Some(d);
            break ;
        }
        x = x * 10 + ((d as u8) - ('0' as u8)) as u32;
        any = true;
        proof {
            n = n + 1;
            assert(start.skip(n - 1).drop_first() =~= start.skip(n as int));
        }
        if x > max {
            proof {
                lemma_digit_run_at_least(start, n);
                lemma_digit_run_digits(start);
                lemma_decimal_value_grows(start, n, digit_run(start));
            }
            return None;
        }
    }
    if any {
        Some((x, stop))
    } else {
        None
    }
}

/// Reads the two counters and completes the position.
fn finish_counters(
    chars: &mut Chars<'_>,
    pieces: BbPieceState,
    side: Side,
    rights: CastlingRights,
    file: Option<File>,
) -> (state: Result<BbBoardState, FenError>)
    requires
        (*old(chars)).decrease() is Some,
    ensures
        (*final(chars)).decrease() is Some,
        state == decode_counters(pieces, side, rights, file, (*old(chars)).remaining()),
{
    let half = match parse_num(chars, MAX_HALF_MOVES) {
        Some((half, Some(' '))) => half,
        _ => {
            return Err(FenError::InvalidMoveCounter);
        },
    };
    let full = match parse_num(chars, MAX_FULL_MOVES) {
        Some((full, _)) => full,
        None => {
            return Err(FenError::InvalidMoveCounter);
        },
    };
    Ok(
        BbBoardState {
            pieces,
            to_move: side,
            en_passant: file,
            reversable_moves: half as u8,
            w_kingside_castling: rights.w_kingside,
            w_queenside_castling: rights.w_queenside,
            b_kingside_castling: rights.b_kingside,
            b_queenside_castling: rights.b_queenside,
            full_moves: full as u16,
        },
    )
}

/// Reads a position from a text in Forsyth-Edwards notation, or names the
/// field at which the text fails. No square of a position that is read holds
/// two pieces, and where the board field names one king of each side the
/// pieces pass their checks.
pub fn parse_fen(s: String) -> (state: Result<BbBoardState, FenError>)
    ensures
        state == fen_decode(s@),
        state matches Ok(read) ==> read.pieces.pairwise_disjoint(),
        state matches Ok(read) ==> (count_char(s@, 'K', board_length(s@)) == 1 && count_char(
            s@,
            'k',
            board_length(s@),
        ) == 1 ==> read.pieces.legal()),
{
    proof {
        lemma_decoded_pieces_apart(s@);
        if fen_decode(s@) is Ok && count_char(s@, 'K', board_length(s@)) == 1 && count_char(
            s@,
            'k',
            board_length(s@),
        ) == 1 {
            lemma_decoded_with_two_kings_is_legal(s@);
        }
    }
    let mut chars = s.as_str().chars();
    let mut pieces = BbPieceState::empty();
    if parse_lines(&mut chars, &mut pieces).is_none() {
        return Err(FenError::MalformedBoard);
    }
    match parse_space(&mut chars, FenError::MalformedBoard, FenError::InvalidSideToMove) {
        Ok(_) => {},
        Err(e) => {
            return Err(e);
        },
    }
    let to_move = match parse_to_move(&mut chars) {
        Some(side) => side,
        None => {
            return Err(FenError::InvalidSideToMove);
        },
    };
    match parse_space(&mut chars, FenError::InvalidSideToMove, FenError::InvalidCastlingField) {
        Ok(_) => {},
        Err(e) => {
            return Err(e);
        },
    }
    let rights = match parse_castling_field(&mut chars) {
        Ok(rights) => rights,
        Err(e) => {
            return Err(e);
        },
    };
    let en_passant = match parse_en_passant_field(&mut chars) {
        Some(file) => file,
        None => {
            return Err(FenError::InvalidEnPassant);
        },
    };
    match parse_space(&mut chars, FenError::InvalidEnPassant, FenError::InvalidMoveCounter) {
        Ok(_) => {},
        Err(e) => {
            return Err(e);
        },
    }
    finish_counters(&mut chars, pieces, to_move, rights, en_passant)
}

} // verus!
