use crate::api::{Move, MoveType, PromotionType, Square};
use crate::board::BbBoardState;
use crate::enums::Side;
use crate::moves::{lemma_allowed_move_keeps_legal, move_allowed, state_after, test_move};
use vstd::prelude::*;

verus! {

/// The place of a kind of move in the order in which the moves of a position
/// are listed.
pub open spec fn kind_index(kind: MoveType) -> int {
    match kind {
        MoveType::Quiet => 0,
        MoveType::Capture => 1,
        MoveType::CastleQueen => 2,
        MoveType::CastleKing => 3,
        MoveType::Promote(PromotionType::Queen) => 4,
        MoveType::Promote(PromotionType::Rook) => 5,
        MoveType::Promote(PromotionType::Bishop) => 6,
        MoveType::Promote(PromotionType::Knight) => 7,
        MoveType::PromoteCapture(PromotionType::Queen) => 8,
        MoveType::PromoteCapture(PromotionType::Rook) => 9,
        MoveType::PromoteCapture(PromotionType::Bishop) => 10,
        MoveType::PromoteCapture(PromotionType::Knight) => 11,
    }
}

/// The place of a move in the order in which the moves of a position are
/// listed: by the square that the move leaves, then by the square that it
/// goes to, then by its kind.
pub open spec fn move_number(m: Move) -> int {
    (m.from@ * 64 + m.to@) * 12 + kind_index(m.move_type)
}

/// The twelve kinds of move in the order of `kind_index`.
pub fn kind_list() -> (kinds: [MoveType; 12])
    ensures
        forall|i: int| 0 <= i < 12 ==> kind_index(#[trigger] kinds[i]) == i,
{
    [
        MoveType::Quiet,
        MoveType::Capture,
        MoveType::CastleQueen,
        MoveType::CastleKing,
        MoveType::Promote(PromotionType::Queen),
        MoveType::Promote(PromotionType::Rook),
        MoveType::Promote(PromotionType::Bishop),
        MoveType::Promote(PromotionType::Knight),
        MoveType::PromoteCapture(PromotionType::Queen),
        MoveType::PromoteCapture(PromotionType::Rook),
        MoveType::PromoteCapture(PromotionType::Bishop),
        MoveType::PromoteCapture(PromotionType::Knight),
    ]
}

/// Two moves on the board with the same place in the order are the same
/// move.
pub proof fn lemma_move_number_names_move(a: Move, b: Move)
    requires
        a.wf(),
        b.wf(),
        move_number(a) == move_number(b),
    ensures
        a == b,
{
    let ka = kind_index(a.move_type);
    let kb = kind_index(b.move_type);
    assert(0 <= ka < 12 && 0 <= kb < 12);
    assert(a.from@ * 64 + a.to@ == b.from@ * 64 + b.to@);
    assert(a.from.v == b.from.v && a.to.v == b.to.v);
    assert(ka == kb);
}

/// A list with one more move at its end holds that move and the moves that it
/// held before.
proof fn lemma_push_holds(list: Seq<Move>, m: Move, x: Move)
    ensures
        list.push(m).contains(x) <==> list.contains(x) || x == m,
{
    if list.contains(x) {
        let i = choose|i: int| 0 <= i < list.len() && list[i] == x;
        assert(list.push(m)[i] == x);
    }
    if x == m {
        assert(list.push(m)[list.len() as int] == x);
    }
}

/// The moves listed so far are the allowed moves that come before place `n`
/// in the order, each once and in that order.
pub open spec fn lists_moves_before(moves: Seq<Move>, st: BbBoardState, n: int) -> bool {
    &&& forall|m: Move|
        m.wf() && move_number(m) < n ==> (moves.contains(m) <==> #[trigger] move_allowed(st, m))
    &&& forall|i: int|
        0 <= i < moves.len() ==> (#[trigger] moves[i]).wf() && move_number(moves[i]) < n
            && move_allowed(st, moves[i])
    &&& forall|i: int, j: int|
        0 <= i < j < moves.len() ==> move_number(#[trigger] moves[i]) < move_number(
            #[trigger] moves[j],
        )
}

/// The moves that may be made in the position: every move that `test_move`
/// allows, each once, in the order of the squares that the moves leave, then
/// of the squares that they go to, then of their kinds. Where the pieces of
/// the position pass their checks, so do the pieces after each of the moves.
pub fn legal_moves(st: &BbBoardState) -> (moves: Vec<Move>)
    ensures
        forall|m: Move| m.wf() ==> (moves@.contains(m) <==> #[trigger] move_allowed(*st, m)),
        forall|i: int| 0 <= i < moves.len() ==> (#[trigger] moves[i]).wf(),
        forall|i: int, j: int|
            0 <= i < j < moves.len() ==> move_number(#[trigger] moves[i]) < move_number(
                #[trigger] moves[j],
            ),
        st.pieces.legal() ==> forall|i: int|
            0 <= i < moves.len() ==> state_after(*st, #[trigger] moves[i]).pieces.legal(),
{
    let kinds = kind_list();
    let mut moves: Vec<Move> = Vec::new();
    let mut from: u8 = 0;
    while from < 64
        invariant
            from <= 64,
            forall|i: int| 0 <= i < 12 ==> kind_index(#[trigger] kinds[i]) == i,
            lists_moves_before(moves@, *st, from * 768),
        decreases 64 - from,
    {
        let origin = Square::new(from);
        let owned = match st.pieces.piece_on(origin) {
            Some((side, _)) => side == st.to_move,
            None => false,
        };
        if owned {
            let mut to: u8 = 0;
            while to < 64
                invariant
                    from < 64,
                    to <= 64,
                    origin.v == from,
                    forall|i: int| 0 <= i < 12 ==> kind_index(#[trigger] kinds[i]) == i,
                    lists_moves_before(moves@, *st, (from * 64 + to) * 12),
                decreases 64 - to,
            {
                let target = Square::new(to);
                let mut k: usize = 0;
                while k < 12
                    invariant
                        from < 64,
                        to < 64,
                        k <= 12,
                        origin.v == from,
                        target.v == to,
                        forall|i: int| 0 <= i < 12 ==> kind_index(#[trigger] kinds[i]) == i,
                        lists_moves_before(moves@, *st, (from * 64 + to) * 12 + k),
                    decreases 12 - k,
                {
                    let m = Move::new(origin, target, kinds[k]);
                    let ghost before = moves@;
                    let ghost n = (from * 64 + to) * 12 + k;
                    assert(move_number(m) == n);
                    let allowed = test_move(st, m);
                    if allowed {
                        moves.push(m);
                    }
                    proof {
                        assert forall|x: Move| x.wf() && move_number(x) < n + 1 implies (
                        moves@.contains(x) <==> #[trigger] move_allowed(*st, x)) by {
                            lemma_push_holds(before, m, x);
                            if move_number(x) == n {
                                lemma_move_number_names_move(x, m);
                                if !allowed {
                                    assert(!before.contains(x)) by {
                                        if before.contains(x) {
                                            let i = choose|i: int|
                                                0 <= i < before.len() && before[i] == x;
                                            assert(move_number(before[i]) < n);
                                        }
                                    }
                                }
                            } else {
                                assert(before.contains(x) <==> move_allowed(*st, x));
                                if x == m {
                                }
                            }
                        }
                    }
                    k += 1;
                }
                to += 1;
            }
        } else {
            proof {
                assert forall|x: Move| x.wf() && move_number(x) < (from + 1) * 768 implies (
                moves@.contains(x) <==> #[trigger] move_allowed(*st, x)) by {
                    if move_number(x) >= from * 768 {
                        assert(0 <= kind_index(x.move_type) < 12);
                        assert(x.from@ == from);
                        assert(!move_allowed(*st, x));
                        if moves@.contains(x) {
                            let i = choose|i: int| 0 <= i < moves@.len() && moves@[i] == x;
                            assert(move_number(moves@[i]) < from * 768);
                        }
                    } else {
                        assert(moves@.contains(x) <==> move_allowed(*st, x));
                    }
                }
            }
        }
        from += 1;
    }
    proof {
        assert forall|m: Move| m.wf() implies (moves@.contains(m) <==> #[trigger] move_allowed(
            *st,
            m,
        )) by {
            assert(0 <= kind_index(m.move_type) < 12);
            assert(move_number(m) < 64 * 768);
        }
        if st.pieces.legal() {
            assert forall|i: int| 0 <= i < moves.len() implies state_after(
                *st,
                #[trigger] moves[i],
            ).pieces.legal() by {
                lemma_allowed_move_keeps_legal(*st, moves[i]);
            }
        }
    }
    moves
}

} // verus!
