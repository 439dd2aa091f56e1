use crate::api::Square;
use crate::bitboard::{lemma_squares_algebra, lemma_squares_determine_word};
use crate::board::{
    glyph_of, glyph_text, lemma_piece_at_unique, lemma_with_piece, BbBoardState, BbPieceState,
};
use crate::enums::{lemma_file_round_trip, File, Piece, Side};
use crate::fen::{
    decimal_value, decode_counters, digit_value, fen_decode, is_digit,
    lemma_decoded_pieces_apart, lemma_digit_run_exact,
    no_rights, parse_board, read_before, parse_castling, parse_castling_letters, parse_en_passant,
    parse_number, parse_rank_from, parse_ranks_from, parse_side, piece_of_glyph, with_right,
    CastlingRights, FenError, MAX_FULL_MOVES, MAX_HALF_MOVES,
};
use vstd::prelude::*;
use vstd::string::StringExecFns;

verus! {

/// The character that stands for the digit `d`.
pub open spec fn digit_glyph(d: int) -> char {
    if d <= 0 {
        '0'
    } else if d == 1 {
        '1'
    } else if d == 2 {
        '2'
    } else if d == 3 {
        '3'
    } else if d == 4 {
        '4'
    } else if d == 5 {
        '5'
    } else if d == 6 {
        '6'
    } else if d == 7 {
        '7'
    } else if d == 8 {
        '8'
    } else {
        '9'
    }
}

/// How many empty squares follow one another on rank `rank` from file `file`
/// on.
pub open spec fn empty_run(ps: BbPieceState, rank: int, file: int) -> nat
    decreases 8 - file,
{
    if file < 0 || file >= 8 || ps.piece_at(rank * 8 + file) is Some {
        0
    } else {
        1 + empty_run(ps, rank, file + 1)
    }
}

/// The text of rank `rank` from file `file` on: a letter for a piece, and for
/// the empty squares between two pieces or a piece and the edge their number.
pub open spec fn rank_text_from(ps: BbPieceState, rank: int, file: int) -> Seq<char>
    decreases
            (if file < 8 {
                8 - file
            } else {
                0
            }),
    via rank_text_decreases
{
    if file < 0 || file >= 8 {
        Seq::empty()
    } else {
        match ps.piece_at(rank * 8 + file) {
            Some((side, piece)) => seq![glyph_of(side, piece)] + rank_text_from(
                ps,
                rank,
                file + 1,
            ),
            None => seq![digit_glyph(empty_run(ps, rank, file) as int)] + rank_text_from(
                ps,
                rank,
                file + empty_run(ps, rank, file),
            ),
        }
    }
}

#[via_fn]
proof fn rank_text_decreases(ps: BbPieceState, rank: int, file: int) {
    if 0 <= file < 8 && ps.piece_at(rank * 8 + file) is None {
        assert(empty_run(ps, rank, file) == 1 + empty_run(ps, rank, file + 1));
    }
}

/// The text of the ranks from `rank` down to rank 1, with a `/` between two
/// ranks.
pub open spec fn board_text_from(ps: BbPieceState, rank: int) -> Seq<char>
    decreases rank,
{
    if rank <= 0 {
        rank_text_from(ps, 0, 0)
    } else {
        rank_text_from(ps, rank, 0) + (seq!['/'] + board_text_from(ps, rank - 1))
    }
}

/// The letter of the side to move.
pub open spec fn side_text(side: Side) -> Seq<char> {
    match side {
        Side::White => seq!['w'],
        Side::Black => seq!['b'],
    }
}

/// The letter `c` if `present`, and nothing if not.
pub open spec fn letter_if(present: bool, c: char) -> Seq<char> {
    if present {
        seq![c]
    } else {
        Seq::empty()
    }
}

/// The castling field: the letters of the rights in the order `KQkq`, or `-`
/// where there is none.
pub open spec fn castling_text(rights: CastlingRights) -> Seq<char> {
    if !rights.w_kingside && !rights.w_queenside && !rights.b_kingside && !rights.b_queenside {
        seq!['-']
    } else {
        letter_if(rights.w_kingside, 'K') + (letter_if(rights.w_queenside, 'Q') + (letter_if(
            rights.b_kingside,
            'k',
        ) + letter_if(rights.b_queenside, 'q')))
    }
}

/// The en-passant field: `-`, or the square that the pawn passed over, which
/// lies on rank 6 when White is to move and on rank 3 when Black is.
pub open spec fn en_passant_text(file: Option<File>, to_move: Side) -> Seq<char> {
    match file {
        None => seq!['-'],
        Some(f) => seq![
            f.letter(),
            match to_move {
                Side::White => '6',
                Side::Black => '3',
            },
        ],
    }
}

/// The number `n` in decimal, without leading zeros.
pub open spec fn decimal_text(n: nat) -> Seq<char>
    decreases n,
{
    if n < 10 {
        seq![digit_glyph(n as int)]
    } else {
        decimal_text(n / 10).push(digit_glyph((n % 10) as int))
    }
}

/// The rights to castle that a position holds.
pub open spec fn rights_of(state: BbBoardState) -> CastlingRights {
    CastlingRights {
        w_kingside: state.w_kingside_castling,
        w_queenside: state.w_queenside_castling,
        b_kingside: state.b_kingside_castling,
        b_queenside: state.b_queenside_castling,
    }
}

/// The two counters of a position, with a space between them.
pub open spec fn counters_text(state: BbBoardState) -> Seq<char> {
    decimal_text(state.reversable_moves as nat) + (seq![' '] + decimal_text(
        state.full_moves as nat,
    ))
}

/// The fields of a position after the board, each with a space before it.
pub open spec fn state_text(state: BbBoardState) -> Seq<char> {
    seq![' '] + (side_text(state.to_move) + (seq![' '] + (castling_text(rights_of(state)) + (
    seq![' '] + (en_passant_text(state.en_passant, state.to_move) + (seq![' '] + counters_text(
        state,
    )))))))
}

/// A position in Forsyth-Edwards notation: the board from rank 8 down to rank
/// 1, the side to move, the castling rights, the en-passant square, the
/// half-move clock and the move number, with one space between two fields.
pub open spec fn fen_text(state: BbBoardState) -> Seq<char> {
    board_text_from(state.pieces, 7) + state_text(state)
}

/// The digit `d` as a text of one character.
fn digit_text(d: u8) -> (text: &'static str)
    requires
        d <= 9,
    ensures
        text@ == seq![digit_glyph(d as int)],
{
    proof {
        reveal_strlit("0");
        reveal_strlit("1");
        reveal_strlit("2");
        reveal_strlit("3");
        reveal_strlit("4");
        reveal_strlit("5");
        reveal_strlit("6");
        reveal_strlit("7");
        reveal_strlit("8");
        reveal_strlit("9");
    }
    let text = match d {
        0 => "0",
        1 => "1",
        2 => "2",
        3 => "3",
        4 => "4",
        5 => "5",
        6 => "6",
        7 => "7",
        8 => "8",
        _ => "9",
    };
    assert(text@ =~= seq![digit_glyph(d as int)]);
    text
}

/// Writes the number `n` in decimal at the end of the text.
fn append_decimal(text: &mut String, n: u32)
    ensures
        final(text)@ == old(text)@ + decimal_text(n as nat),
    decreases n,
{
    if n >= 10 {
        append_decimal(text, n / 10);
    }
    text.append(digit_text((n % 10) as u8));
    proof {
        if n < 10 {
            assert(final(text)@ =~= old(text)@ + decimal_text(n as nat));
        } else {
            assert(final(text)@ =~= old(text)@ + decimal_text(n as nat));
        }
    }
}

/// Counts the empty squares that follow one another from a square on.
fn count_empty(ps: &BbPieceState, rank: u8, file: u8) -> (run: u8)
    requires
        rank < 8,
        file < 8,
    ensures
        run == empty_run(*ps, rank as int, file as int),
        file + run <= 8,
{
    let mut run: u8 = 0;
    while file + run < 8 && ps.piece_on(Square::new(rank * 8 + file + run)).is_none()
        invariant
            rank < 8,
            file < 8,
            file + run <= 8,
            run + empty_run(*ps, rank as int, file + run) == empty_run(
                *ps,
                rank as int,
                file as int,
            ),
        decreases 8 - run,
    {
        run += 1;
    }
    run
}

/// Writes a rank of the board at the end of the text.
fn append_rank(text: &mut String, ps: &BbPieceState, rank: u8)
    requires
        rank < 8,
    ensures
        final(text)@ == old(text)@ + rank_text_from(*ps, rank as int, 0),
{
    let mut file: u8 = 0;
    while file < 8
        invariant
            rank < 8,
            file <= 8,
            text@ + rank_text_from(*ps, rank as int, file as int) == old(text)@ + rank_text_from(
                *ps,
                rank as int,
                0,
            ),
        decreases 8 - file,
    {
        let ghost before = text@;
        match ps.piece_on(Square::new(rank * 8 + file)) {
            Some((side, piece)) => {
                text.append(glyph_text(side, piece));
                assert(text@ + rank_text_from(*ps, rank as int, file + 1) =~= before
                    + rank_text_from(*ps, rank as int, file as int));
                file += 1;
            },
            None => {
                let run = count_empty(ps, rank, file);
                text.append(digit_text(run));
                assert(text@ + rank_text_from(*ps, rank as int, file + run) =~= before
                    + rank_text_from(*ps, rank as int, file as int));
                file += run;
            },
        }
    }
    assert(text@ + Seq::<char>::empty() =~= text@);
}

/// Writes the board field at the end of the text.
fn append_board(text: &mut String, ps: &BbPieceState)
    ensures
        final(text)@ == old(text)@ + board_text_from(*ps, 7),
{
    let mut rank: u8 = 7;
    loop
        invariant
            rank <= 7,
            text@ + board_text_from(*ps, rank as int) == old(text)@ + board_text_from(*ps, 7),
        decreases rank,
    {
        let ghost before = text@;
        append_rank(text, ps, rank);
        if rank == 0 {
            return ;
        }
        proof {
            reveal_strlit("/");
        }
        text.append("/");
        assert(text@ + board_text_from(*ps, rank - 1) =~= before + board_text_from(
            *ps,
            rank as int,
        ));
        rank -= 1;
    }
}

/// Writes the castling field at the end of the text.
fn append_castling(text: &mut String, rights: CastlingRights)
    ensures
        final(text)@ == old(text)@ + castling_text(rights),
{
    proof {
        reveal_strlit("-");
        reveal_strlit("K");
        reveal_strlit("Q");
        reveal_strlit("k");
        reveal_strlit("q");
    }
    if !rights.w_kingside && !rights.w_queenside && !rights.b_kingside && !rights.b_queenside {
        text.append("-");
        return ;
    }
    if rights.w_kingside {
        text.append("K");
    }
    if rights.w_queenside {
        text.append("Q");
    }
    if rights.b_kingside {
        text.append("k");
    }
    if rights.b_queenside {
        text.append("q");
    }
    assert(text@ =~= old(text)@ + castling_text(rights));
}

/// The letter of a file as a text of one character.
fn file_text(file: File) -> (text: &'static str)
    ensures
        text@ == seq![file.letter()],
{
    proof {
        reveal_strlit("a");
        reveal_strlit("b");
        reveal_strlit("c");
        reveal_strlit("d");
        reveal_strlit("e");
        reveal_strlit("f");
        reveal_strlit("g");
        reveal_strlit("h");
    }
    let text = match file {
        File::A => "a",
        File::B => "b",
        File::C => "c",
        File::D => "d",
        File::E => "e",
        File::F => "f",
        File::G => "g",
        File::H => "h",
    };
    assert(text@ =~= seq![file.letter()]);
    text
}

/// Writes the en-passant field at the end of the text.
fn append_en_passant(text: &mut String, file: Option<File>, to_move: Side)
    ensures
        final(text)@ == old(text)@ + en_passant_text(file, to_move),
{
    proof {
        reveal_strlit("-");
        reveal_strlit("6");
        reveal_strlit("3");
    }
    match file {
        None => {
            text.append("-");
        },
        Some(f) => {
            text.append(file_text(f));
            match to_move {
                Side::White => text.append("6"),
                Side::Black => text.append("3"),
            }
        },
    }
    assert(text@ =~= old(text)@ + en_passant_text(file, to_move));
}

/// Joining three texts gives the same text whichever two are joined first.
pub proof fn lemma_join_three(a: Seq<char>, b: Seq<char>, c: Seq<char>)
    ensures
        (a + b) + c == a + (b + c),
{
    assert((a + b) + c =~= a + (b + c));
}

/// Writes the fields that follow the board at the end of the text, each with
/// a space before it.
fn append_state(text: &mut String, state: &BbBoardState)
    ensures
        final(text)@ == old(text)@ + state_text(*state),
{
    proof {
        reveal_strlit(" ");
        reveal_strlit("w");
        reveal_strlit("b");
    }
    let ghost sp = seq![' '];
    let ghost side = side_text(state.to_move);
    let ghost castling = castling_text(rights_of(*state));
    let ghost passant = en_passant_text(state.en_passant, state.to_move);
    let ghost half = decimal_text(state.reversable_moves as nat);
    let ghost full = decimal_text(state.full_moves as nat);
    let ghost p0 = text@;
    text.append(" ");
    let ghost p1 = text@;
    match state.to_move {
        Side::White => text.append("w"),
        Side::Black => text.append("b"),
    }
    let ghost p2 = text@;
    text.append(" ");
    let ghost p3 = text@;
    append_castling(
        text,
        CastlingRights {
            w_kingside: state.w_kingside_castling,
            w_queenside: state.w_queenside_castling,
            b_kingside: state.b_kingside_castling,
            b_queenside: state.b_queenside_castling,
        },
    );
    let ghost p4 = text@;
    text.append(" ");
    let ghost p5 = text@;
    append_en_passant(text, state.en_passant, state.to_move);
    let ghost p6 = text@;
    text.append(" ");
    let ghost p7 = text@;
    append_decimal(text, state.reversable_moves as u32);
    let ghost p8 = text@;
    text.append(" ");
    let ghost p9 = text@;
    append_decimal(text, state.full_moves as u32);
    proof {
        assert(p1 == p0 + sp);
        assert(p2 == p1 + side);
        assert(p3 == p2 + sp);
        assert(p5 == p4 + sp);
        assert(p7 == p6 + sp);
        assert(p9 == p8 + sp);
        let r9 = sp + full;
        let r8 = half + r9;
        let r7 = sp + r8;
        let r6 = passant + r7;
        let r5 = sp + r6;
        let r4 = castling + r5;
        let r3 = sp + r4;
        let r2 = side + r3;
        let r1 = sp + r2;
        lemma_join_three(p8, sp, full);
        lemma_join_three(p7, half, r9);
        lemma_join_three(p6, sp, r8);
        lemma_join_three(p5, passant, r7);
        lemma_join_three(p4, sp, r6);
        lemma_join_three(p3, castling, r5);
        lemma_join_three(p2, sp, r4);
        lemma_join_three(p1, side, r3);
        lemma_join_three(p0, sp, r2);
        assert(r1 == state_text(*state));
    }
}

/// Writes a position in Forsyth-Edwards notation.
pub fn encode_fen(state: &BbBoardState) -> (text: String)
    ensures
        text@ == fen_text(*state),
{
    let mut text = String::new();
    append_board(&mut text, &state.pieces);
    append_state(&mut text, state);
    assert(text@ =~= fen_text(*state));
    text
}

/// The pieces `acc` are the pieces of `ps` on the squares of `seen`, and no
/// others.
pub open spec fn holds_part(acc: BbPieceState, ps: BbPieceState, seen: Set<int>) -> bool {
    forall|side: Side, piece: Piece| #[trigger]
        acc.board(side, piece)@ == ps.board(side, piece)@.intersect(seen)
}

/// What has to hold of the result of reading a text: the pieces read are
/// those of `ps` on the squares of `seen`, and the text that is left is
/// `rest`.
pub open spec fn read_gives(
    result: Option<(BbPieceState, Seq<char>)>,
    ps: BbPieceState,
    seen: Set<int>,
    rest: Seq<char>,
) -> bool {
    match result {
        Some((acc, left)) => left == rest && holds_part(acc, ps, seen),
        None => false,
    }
}

/// A run of empty squares is at least one square long where it starts on an
/// empty square, ends on the rank, and holds empty squares only.
pub proof fn lemma_empty_run(ps: BbPieceState, rank: int, file: int)
    requires
        0 <= file < 8,
        ps.piece_at(rank * 8 + file) is None,
    ensures
        1 <= empty_run(ps, rank, file) <= 8 - file,
        forall|f: int|
            file <= f < file + empty_run(ps, rank, file) ==> (#[trigger] ps.piece_at(rank * 8 + f))
                is None,
    decreases 8 - file,
{
    assert(empty_run(ps, rank, file) == 1 + empty_run(ps, rank, file + 1));
    if file + 1 < 8 && ps.piece_at(rank * 8 + (file + 1)) is None {
        lemma_empty_run(ps, rank, file + 1);
    } else {
        assert(empty_run(ps, rank, file + 1) == 0);
    }
}

/// Reading the text of a rank gives the pieces of that rank.
pub proof fn lemma_rank_round_trip(
    ps: BbPieceState,
    acc: BbPieceState,
    rank: int,
    file: int,
    rest: Seq<char>,
)
    requires
        0 <= rank < 8,
        0 <= file <= 8,
        ps.pairwise_disjoint(),
        holds_part(acc, ps, read_before(rank, file)),
    ensures
        read_gives(
            parse_rank_from(rank_text_from(ps, rank, file) + rest, acc, rank, file),
            ps,
            read_before(rank, 8),
            rest,
        ),
    decreases 8 - file,
{
    let text = rank_text_from(ps, rank, file);
    let rem = text + rest;
    if file >= 8 {
        assert(rem =~= rest);
    } else {
        let sq = rank * 8 + file;
        match ps.piece_at(sq) {
            Some((side, piece)) => {
                let tail = rank_text_from(ps, rank, file + 1);
                assert(rem[0] == glyph_of(side, piece));
                assert(rem.drop_first() =~= tail + rest);
                assert(piece_of_glyph(glyph_of(side, piece)) == Some((side, piece)));
                let more = acc.with_piece(side, piece, sq);
                lemma_with_piece(acc, side, piece, sq);
                assert forall|s2: Side, p2: Piece| #[trigger]
                    more.board(s2, p2)@ == ps.board(s2, p2)@.intersect(
                        read_before(rank, file + 1),
                    ) by {
                    lemma_piece_at_unique(ps, sq, s2, p2);
                    assert(acc.board(s2, p2)@ == ps.board(s2, p2)@.intersect(
                        read_before(rank, file),
                    ));
                    assert(read_before(rank, file + 1) =~= read_before(rank, file).insert(sq));
                    if s2 == side && p2 == piece {
                        assert(more.board(s2, p2)@ =~= ps.board(s2, p2)@.intersect(
                            read_before(rank, file + 1),
                        ));
                    } else {
                        assert(more.board(s2, p2) == acc.board(s2, p2));
                        assert(acc.board(s2, p2)@ =~= ps.board(s2, p2)@.intersect(
                            read_before(rank, file + 1),
                        ));
                    }
                }
                lemma_rank_round_trip(ps, more, rank, file + 1, rest);
            },
            None => {
                let run = empty_run(ps, rank, file);
                lemma_empty_run(ps, rank, file);
                let tail = rank_text_from(ps, rank, file + run);
                assert(rem[0] == digit_glyph(run as int));
                assert(rem.drop_first() =~= tail + rest);
                assert('1' <= rem[0] <= '8');
                assert(digit_value(rem[0]) == run);
                assert forall|s2: Side, p2: Piece| #[trigger]
                    acc.board(s2, p2)@ == ps.board(s2, p2)@.intersect(
                        read_before(rank, file + run),
                    ) by {
                    assert(acc.board(s2, p2)@ == ps.board(s2, p2)@.intersect(
                        read_before(rank, file),
                    ));
                    assert forall|s: int|
                        read_before(rank, file + run).contains(s) && !read_before(
                            rank,
                            file,
                        ).contains(s) implies !ps.board(s2, p2)@.contains(s) by {
                        let f = s % 8;
                        assert(s == rank * 8 + f);
                        assert(ps.piece_at(rank * 8 + f) is None);
                    }
                    assert(acc.board(s2, p2)@ =~= ps.board(s2, p2)@.intersect(
                        read_before(rank, file + run),
                    ));
                }
                lemma_rank_round_trip(ps, acc, rank, file + run, rest);
            },
        }
    }
}

/// Reading the text of the ranks from `rank` down gives the pieces of the
/// whole board, if the pieces of the ranks above were read before.
pub proof fn lemma_ranks_round_trip(
    ps: BbPieceState,
    acc: BbPieceState,
    rank: int,
    rest: Seq<char>,
)
    requires
        0 <= rank < 8,
        ps.pairwise_disjoint(),
        holds_part(acc, ps, read_before(rank, 0)),
    ensures
        parse_ranks_from(board_text_from(ps, rank) + rest, acc, rank) == Some((ps, rest)),
    decreases rank,
{
    if rank == 0 {
        lemma_rank_round_trip(ps, acc, 0, 0, rest);
        let read = match parse_rank_from(rank_text_from(ps, 0, 0) + rest, acc, 0, 0) {
            Some((read, _)) => read,
            None => acc,
        };
        lemma_whole_board(read, ps);
    } else {
        let tail = seq!['/'] + board_text_from(ps, rank - 1);
        lemma_join_three(rank_text_from(ps, rank, 0), tail, rest);
        lemma_rank_round_trip(ps, acc, rank, 0, tail + rest);
        let read = match parse_rank_from(
            rank_text_from(ps, rank, 0) + (tail + rest),
            acc,
            rank,
            0,
        ) {
            Some((read, _)) => read,
            None => acc,
        };
        lemma_join_three(seq!['/'], board_text_from(ps, rank - 1), rest);
        let next = board_text_from(ps, rank - 1) + rest;
        assert((seq!['/'] + next)[0] == '/');
        assert((seq!['/'] + next).drop_first() =~= next);
        assert(read_before(rank, 8) =~= read_before(rank - 1, 0));
        lemma_ranks_round_trip(ps, read, rank - 1, rest);
    }
}

/// Pieces that are the pieces of `ps` on all the squares read after rank 1
/// are the pieces of `ps`.
pub proof fn lemma_whole_board(acc: BbPieceState, ps: BbPieceState)
    requires
        holds_part(acc, ps, read_before(0, 8)),
    ensures
        acc == ps,
{
    assert forall|side: Side, piece: Piece| #[trigger] acc.board(side, piece) == ps.board(
        side,
        piece,
    ) by {
        assert(acc.board(side, piece)@ == ps.board(side, piece)@.intersect(read_before(0, 8)));
        assert(ps.board(side, piece)@.intersect(read_before(0, 8)) =~= ps.board(side, piece)@);
        lemma_squares_determine_word(acc.board(side, piece).v, ps.board(side, piece).v);
    }
    assert(acc.board(Side::White, Piece::P) == ps.board(Side::White, Piece::P));
    assert(acc.board(Side::White, Piece::N) == ps.board(Side::White, Piece::N));
    assert(acc.board(Side::White, Piece::B) == ps.board(Side::White, Piece::B));
    assert(acc.board(Side::White, Piece::R) == ps.board(Side::White, Piece::R));
    assert(acc.board(Side::White, Piece::Q) == ps.board(Side::White, Piece::Q));
    assert(acc.board(Side::White, Piece::K) == ps.board(Side::White, Piece::K));
    assert(acc.board(Side::Black, Piece::P) == ps.board(Side::Black, Piece::P));
    assert(acc.board(Side::Black, Piece::N) == ps.board(Side::Black, Piece::N));
    assert(acc.board(Side::Black, Piece::B) == ps.board(Side::Black, Piece::B));
    assert(acc.board(Side::Black, Piece::R) == ps.board(Side::Black, Piece::R));
    assert(acc.board(Side::Black, Piece::Q) == ps.board(Side::Black, Piece::Q));
    assert(acc.board(Side::Black, Piece::K) == ps.board(Side::Black, Piece::K));
}

/// Reading the text of a board gives the board, where no square of it holds
/// two pieces.
pub proof fn lemma_board_round_trip(ps: BbPieceState, rest: Seq<char>)
    requires
        ps.pairwise_disjoint(),
    ensures
        parse_board(board_text_from(ps, 7) + rest) == Some((ps, rest)),
{
    let none = BbPieceState::vacant();
    lemma_squares_algebra(0, 0);
    assert forall|side: Side, piece: Piece| #[trigger]
        none.board(side, piece)@ == ps.board(side, piece)@.intersect(read_before(7, 0)) by {
        assert(none.board(side, piece)@ =~= ps.board(side, piece)@.intersect(read_before(7, 0)));
    }
    lemma_ranks_round_trip(ps, none, 7, rest);
}

/// The decimal text of a number is made of digits, at least one, and spells
/// the number.
pub proof fn lemma_decimal_text_spells(n: nat)
    ensures
        decimal_text(n).len() >= 1,
        forall|i: int| 0 <= i < decimal_text(n).len() ==> is_digit(#[trigger] decimal_text(n)[i]),
        decimal_value(decimal_text(n), decimal_text(n).len()) == n,
    decreases n,
{
    let text = decimal_text(n);
    if n >= 10 {
        let front = decimal_text(n / 10);
        lemma_decimal_text_spells(n / 10);
        lemma_decimal_value_prefix(text, front, front.len());
        assert(text[text.len() - 1] == digit_glyph((n % 10) as int));
        assert(digit_value(text[text.len() - 1]) == n % 10);
        assert forall|i: int| 0 <= i < text.len() implies is_digit(#[trigger] text[i]) by {
            if i < front.len() {
                assert(text[i] == front[i]);
            }
        }
    } else {
        assert(decimal_value(text, 0) == 0);
        assert(digit_value(text[0]) == n);
    }
}

/// The number that the first characters of a text spell depends on those
/// characters alone.
pub proof fn lemma_decimal_value_prefix(a: Seq<char>, b: Seq<char>, k: nat)
    requires
        k <= a.len(),
        k <= b.len(),
        forall|i: int| 0 <= i < k ==> a[i] == b[i],
    ensures
        decimal_value(a, k) == decimal_value(b, k),
    decreases k,
{
    if k > 0 {
        lemma_decimal_value_prefix(a, b, (k - 1) as nat);
    }
}

/// Reading the decimal text of a number gives the number, where the text
/// that follows does not go on with a digit.
pub proof fn lemma_number_round_trip(n: nat, max: nat, rest: Seq<char>)
    requires
        n <= max,
        rest.len() == 0 || !is_digit(rest[0]),
    ensures
        parse_number(decimal_text(n) + rest, max) == Some((n, rest)),
{
    let text = decimal_text(n);
    let rem = text + rest;
    lemma_decimal_text_spells(n);
    assert forall|i: int| 0 <= i < text.len() implies is_digit(#[trigger] rem[i]) by {
        assert(rem[i] == text[i]);
    }
    if rest.len() > 0 {
        assert(rem[text.len() as int] == rest[0]);
    }
    lemma_digit_run_exact(rem, text.len());
    lemma_decimal_value_prefix(rem, text, text.len());
    assert(rem.skip(text.len() as int) =~= rest);
}

/// Reading the castling field gives the rights that it was written from.
pub proof fn lemma_castling_round_trip(rights: CastlingRights, rest: Seq<char>)
    ensures
        parse_castling(castling_text(rights) + (seq![' '] + rest)) == Ok::<
            (CastlingRights, Seq<char>),
            FenError,
        >((rights, rest)),
{
    let end = seq![' '] + rest;
    let rem = castling_text(rights) + end;
    assert(end[0] == ' ');
    assert(end.drop_first() =~= rest);
    if !rights.w_kingside && !rights.w_queenside && !rights.b_kingside && !rights.b_queenside {
        assert(rem[0] == '-');
        assert(rem.drop_first() =~= end);
        assert(rights == no_rights());
    } else {
        let r1 = CastlingRights { w_kingside: rights.w_kingside, ..no_rights() };
        let r2 = CastlingRights { w_queenside: rights.w_queenside, ..r1 };
        let r3 = CastlingRights { b_kingside: rights.b_kingside, ..r2 };
        assert(rights == CastlingRights { b_queenside: rights.b_queenside, ..r3 });
        let done = Ok::<(CastlingRights, Seq<char>), FenError>((rights, rest));
        let t4 = letter_if(rights.b_queenside, 'q') + end;
        let t3 = letter_if(rights.b_kingside, 'k') + t4;
        let t2 = letter_if(rights.w_queenside, 'Q') + t3;
        let t1 = letter_if(rights.w_kingside, 'K') + t2;
        assert(parse_castling_letters(end, rights) == done);
        lemma_letter_read(rights.b_queenside, 'q', r3, end);
        assert(parse_castling_letters(t4, r3) == done);
        lemma_letter_read(rights.b_kingside, 'k', r2, t4);
        assert(parse_castling_letters(t3, r2) == done);
        lemma_letter_read(rights.w_queenside, 'Q', r1, t3);
        assert(parse_castling_letters(t2, r1) == done);
        lemma_letter_read(rights.w_kingside, 'K', no_rights(), t2);
        assert(parse_castling_letters(t1, no_rights()) == done);
        lemma_join_three(letter_if(rights.b_kingside, 'k'), letter_if(rights.b_queenside, 'q'), end);
        lemma_join_three(
            letter_if(rights.w_queenside, 'Q'),
            letter_if(rights.b_kingside, 'k') + letter_if(rights.b_queenside, 'q'),
            end,
        );
        lemma_join_three(
            letter_if(rights.w_kingside, 'K'),
            letter_if(rights.w_queenside, 'Q') + (letter_if(rights.b_kingside, 'k') + letter_if(
                rights.b_queenside,
                'q',
            )),
            end,
        );
        assert(rem == t1);
        assert(t4.len() > 0 && t3.len() > 0 && t2.len() > 0);
        assert(rem[0] != '-' && rem[0] != ' ') by {
            if rights.w_kingside {
                assert(t1[0] == 'K');
            } else if rights.w_queenside {
                assert(t1 =~= t2);
                assert(t2[0] == 'Q');
            } else if rights.b_kingside {
                assert(t1 =~= t2);
                assert(t2 =~= t3);
                assert(t3[0] == 'k');
            } else {
                assert(t1 =~= t2);
                assert(t2 =~= t3);
                assert(t3 =~= t4);
                assert(t4[0] == 'q');
            }
        }
    }
}

/// Reading a letter of the castling field, where it was written, adds the
/// right that it names.
proof fn lemma_letter_read(present: bool, c: char, rights: CastlingRights, tail: Seq<char>)
    requires
        c == 'K' || c == 'Q' || c == 'k' || c == 'q',
    ensures
        parse_castling_letters(letter_if(present, c) + tail, rights) == if present {
            parse_castling_letters(tail, with_right(rights, c)->0)
        } else {
            parse_castling_letters(tail, rights)
        },
{
    let rem = letter_if(present, c) + tail;
    if present {
        assert(rem[0] == c);
        assert(rem.drop_first() =~= tail);
    } else {
        assert(rem =~= tail);
    }
}

/// Reading the en-passant field gives the file that it was written from.
pub proof fn lemma_en_passant_round_trip(file: Option<File>, to_move: Side, rest: Seq<char>)
    ensures
        parse_en_passant(en_passant_text(file, to_move) + rest) == Some((file, rest)),
{
    let rem = en_passant_text(file, to_move) + rest;
    match file {
        None => {
            assert(rem[0] == '-');
            assert(rem.drop_first() =~= rest);
        },
        Some(f) => {
            lemma_file_round_trip(f);
            assert(rem[0] == f.letter());
            assert(rem[1] == '6' || rem[1] == '3');
            assert(rem.skip(2) =~= rest);
        },
    }
}

/// Reading what was written gives the position back: a position in which no
/// square holds two pieces is the position that its text in Forsyth-Edwards
/// notation describes.
pub proof fn lemma_fen_round_trip(state: BbBoardState)
    requires
        state.pieces.pairwise_disjoint(),
    ensures
        fen_decode(fen_text(state)) == Ok::<BbBoardState, FenError>(state),
{
    let sp = seq![' '];
    let half = decimal_text(state.reversable_moves as nat);
    let full = decimal_text(state.full_moves as nat);
    let r7 = counters_text(state);
    let r6 = sp + r7;
    let r5 = en_passant_text(state.en_passant, state.to_move) + r6;
    let r4 = castling_text(rights_of(state)) + (sp + r5);
    let r3 = sp + r4;
    let r2 = side_text(state.to_move) + r3;
    let r1 = sp + r2;
    assert(r1 == state_text(state));
    lemma_board_round_trip(state.pieces, r1);
    assert(r1[0] == ' ' && r1.drop_first() =~= r2);
    assert(r2[0] == side_text(state.to_move)[0] && r2.drop_first() =~= r3);
    assert(parse_side(r2) == Some((state.to_move, r3)));
    assert(r3[0] == ' ' && r3.drop_first() =~= r4);
    lemma_castling_round_trip(rights_of(state), r5);
    lemma_en_passant_round_trip(state.en_passant, state.to_move, r6);
    assert(r6[0] == ' ' && r6.drop_first() =~= r7);
    let after_half = sp + full;
    assert(after_half[0] == ' ' && after_half.drop_first() =~= full);
    lemma_number_round_trip(state.reversable_moves as nat, MAX_HALF_MOVES as nat, after_half);
    assert(full + Seq::<char>::empty() =~= full);
    lemma_number_round_trip(
        state.full_moves as nat,
        MAX_FULL_MOVES as nat,
        Seq::<char>::empty(),
    );
    assert(decode_counters(
        state.pieces,
        state.to_move,
        rights_of(state),
        state.en_passant,
        r7,
    ) == Ok::<BbBoardState, FenError>(state));
}

/// A position that was read from a text is read again from the text that is
/// written of it.
pub proof fn lemma_decoded_state_round_trip(text: Seq<char>)
    ensures
        match fen_decode(text) {
            Ok(state) => fen_decode(fen_text(state)) == Ok::<BbBoardState, FenError>(state),
            Err(_) => true,
        },
{
    lemma_decoded_pieces_apart(text);
    match fen_decode(text) {
        Ok(state) => {
            lemma_fen_round_trip(state);
        },
        Err(_) => {},
    }
}

} // verus!
