use crate::api::Square;
use crate::bitboard::{
    lemma_edge_files, lemma_squares_algebra, lemma_squares_len, lemma_squares_shift, Bitboard,
    FILE_A, FILE_H,
};
use crate::board::BbPieceState;
use crate::enums::{Piece, Side};
use std::ops::Not;
use vstd::prelude::*;

verus! {

/// The eight directions of the compass on the board, north being the way from
/// rank 1 to rank 8 and east the way from file A to file H, and `Equal` for
/// no direction at all.
#[derive(Debug, Clone, Copy, PartialEq, Eq, Structural)]
pub enum Direction {
    N,
    NE,
    E,
    SE,
    S,
    SW,
    W,
    NW,
    Equal,
}

/// A square, a direction and a number of steps.
pub type Compass = (Square, Direction, u8);

impl Direction {
    /// By how many ranks one step in the direction moves.
    pub open spec fn rank_step(self) -> int {
        match self {
            Direction::N | Direction::NE | Direction::NW => 1,
            Direction::S | Direction::SE | Direction::SW => -1,
            Direction::E | Direction::W | Direction::Equal => 0,
        }
    }

    /// By how many files one step in the direction moves.
    pub open spec fn file_step(self) -> int {
        match self {
            Direction::E | Direction::NE | Direction::SE => 1,
            Direction::W | Direction::NW | Direction::SW => -1,
            Direction::N | Direction::S | Direction::Equal => 0,
        }
    }

    /// By how much one step in the direction changes the number of a square.
    pub open spec fn offset(self) -> int {
        self.rank_step() * 8 + self.file_step()
    }

    /// The direction that leads back.
    pub open spec fn reversed(self) -> Direction {
        match self {
            Direction::N => Direction::S,
            Direction::NE => Direction::SW,
            Direction::E => Direction::W,
            Direction::SE => Direction::NW,
            Direction::S => Direction::N,
            Direction::SW => Direction::NE,
            Direction::W => Direction::E,
            Direction::NW => Direction::SE,
            Direction::Equal => Direction::Equal,
        }
    }

    /// By how much one step in the direction changes the number of a square:
    /// 8 to the north, 1 to the east, and their sums and negatives.
    pub fn delta(self) -> (d: i8)
        ensures
            d == self.offset(),
    {
        match self {
            Direction::N => 8,
            Direction::NE => 9,
            Direction::E => 1,
            Direction::SE => -7,
            Direction::S => -8,
            Direction::SW => -9,
            Direction::W => -1,
            Direction::NW => 7,
            Direction::Equal => 0,
        }
    }

    /// The direction that leads back.
    pub fn opposite(self) -> (back: Direction)
        ensures
            back == self.reversed(),
    {
        match self {
            Direction::N => Direction::S,
            Direction::NE => Direction::SW,
            Direction::E => Direction::W,
            Direction::SE => Direction::NW,
            Direction::S => Direction::N,
            Direction::SW => Direction::NE,
            Direction::W => Direction::E,
            Direction::NW => Direction::SE,
            Direction::Equal => Direction::Equal,
        }
    }
}

/// `k` steps of length `step`, which is 1, 0 or -1.
pub open spec fn times(k: int, step: int) -> int {
    if step > 0 {
        k
    } else if step < 0 {
        -k
    } else {
        0
    }
}

/// The square `k` steps from square `s` in direction `dir`, if those steps
/// stay on the board. The steps are taken by rank and file, so that none
/// leads from one edge of the board to the other.
pub open spec fn reach(s: int, dir: Direction, k: int) -> Option<int> {
    let rank = s / 8 + times(k, dir.rank_step());
    let file = s % 8 + times(k, dir.file_step());
    if 0 <= s < 64 && 0 <= rank < 8 && 0 <= file < 8 {
        Some(rank * 8 + file)
    } else {
        None
    }
}

/// The square one step from `s` in direction `dir`, if there is one.
pub open spec fn neighbor(s: int, dir: Direction) -> Option<int> {
    reach(s, dir, 1)
}

/// The squares one step in direction `dir` from a square of `set`.
pub open spec fn stepped(set: Set<int>, dir: Direction) -> Set<int> {
    Set::new(
        |t: int|
            match neighbor(t, dir.reversed()) {
                Some(p) => set.contains(p),
                None => false,
            },
    )
}

/// How many steps in direction `dir` stay on the board from square `s`.
pub open spec fn room(s: int, dir: Direction) -> nat {
    let by_rank: int = if dir.rank_step() > 0 {
        7 - s / 8
    } else if dir.rank_step() < 0 {
        s / 8
    } else {
        8
    };
    let by_file: int = if dir.file_step() > 0 {
        7 - s % 8
    } else if dir.file_step() < 0 {
        s % 8
    } else {
        8
    };
    if dir == Direction::Equal || !(0 <= s < 64) {
        0
    } else if by_rank < by_file {
        by_rank as nat
    } else {
        by_file as nat
    }
}

/// The squares that a sliding piece on `s` attacks in direction `dir`, given
/// the occupied squares: the next square in that direction and, if that
/// square is empty, the squares attacked from there. The ray ends at the edge
/// of the board and holds the first occupied square as its last.
pub open spec fn ray_from(s: int, dir: Direction, occupied: Set<int>) -> Set<int>
    decreases room(s, dir),
{
    if room(s, dir) == 0 {
        Set::empty()
    } else {
        let next = neighbor(s, dir)->0;
        if occupied.contains(next) {
            set![next]
        } else {
            ray_from(next, dir, occupied).insert(next)
        }
    }
}

/// The first `k - 1` squares from `s` in direction `dir` are on the board and
/// empty.
pub open spec fn clear_path(s: int, dir: Direction, occupied: Set<int>, k: int) -> bool {
    forall|j: int| 1 <= j < k ==> free_at(s, dir, occupied, j)
}

/// The square `j` steps from `s` in direction `dir` is on the board and
/// empty.
pub open spec fn free_at(s: int, dir: Direction, occupied: Set<int>, j: int) -> bool {
    reach(s, dir, j) is Some && !occupied.contains(reach(s, dir, j)->0)
}

/// The squares attacked by a rook on `s`.
pub open spec fn rook_squares(s: int, occupied: Set<int>) -> Set<int> {
    ray_from(s, Direction::N, occupied).union(ray_from(s, Direction::E, occupied)).union(
        ray_from(s, Direction::S, occupied),
    ).union(ray_from(s, Direction::W, occupied))
}

/// The squares attacked by a bishop on `s`.
pub open spec fn bishop_squares(s: int, occupied: Set<int>) -> Set<int> {
    ray_from(s, Direction::NE, occupied).union(ray_from(s, Direction::SE, occupied)).union(
        ray_from(s, Direction::SW, occupied),
    ).union(ray_from(s, Direction::NW, occupied))
}

/// The squares attacked by a queen on `s`.
pub open spec fn queen_squares(s: int, occupied: Set<int>) -> Set<int> {
    rook_squares(s, occupied).union(bishop_squares(s, occupied))
}

/// A step stays on the board as long as there is room, and then leaves one
/// step less.
pub proof fn lemma_room_step(s: int, dir: Direction)
    requires
        0 <= s < 64,
    ensures
        room(s, dir) > 0 <==> dir != Direction::Equal && neighbor(s, dir) is Some,
        room(s, dir) > 0 ==> room(neighbor(s, dir)->0, dir) == room(s, dir) - 1,
        room(s, dir) > 0 ==> 0 <= neighbor(s, dir)->0 < 64,
        room(s, dir) <= 7,
{
}

/// The square `t` lies `k` steps from `s` in direction `dir`, and the squares
/// on the way to it are empty.
pub open spec fn on_ray(s: int, dir: Direction, occupied: Set<int>, t: int, k: int) -> bool {
    &&& 1 <= k <= 7
    &&& reach(s, dir, k) == Some(t)
    &&& clear_path(s, dir, occupied, k)
}

/// `k` steps from the neighbour are `k + 1` steps from the square itself.
pub proof fn lemma_reach_from_neighbor(s: int, dir: Direction, k: int)
    requires
        0 <= s < 64,
        neighbor(s, dir) is Some,
        k >= 0,
    ensures
        reach(neighbor(s, dir)->0, dir, k) == reach(s, dir, k + 1),
{
    match dir {
        Direction::N => {},
        Direction::NE => {},
        Direction::E => {},
        Direction::SE => {},
        Direction::S => {},
        Direction::SW => {},
        Direction::W => {},
        Direction::NW => {},
        Direction::Equal => {},
    }
}

/// Where no step stays on the board, no number of steps does.
pub proof fn lemma_reach_needs_room(s: int, dir: Direction, k: int)
    requires
        0 <= s < 64,
        dir != Direction::Equal,
        k > room(s, dir),
    ensures
        reach(s, dir, k) is None,
{
    match dir {
        Direction::N => {},
        Direction::NE => {},
        Direction::E => {},
        Direction::SE => {},
        Direction::S => {},
        Direction::SW => {},
        Direction::W => {},
        Direction::NW => {},
        Direction::Equal => {},
    }
}

/// From one square, different directions or different numbers of steps lead
/// to different squares.
pub proof fn lemma_reach_injective(s: int, d1: Direction, k1: int, d2: Direction, k2: int)
    requires
        d1 != Direction::Equal,
        d2 != Direction::Equal,
        k1 >= 1,
        k2 >= 1,
        reach(s, d1, k1) is Some,
        reach(s, d1, k1) == reach(s, d2, k2),
    ensures
        d1 == d2,
        k1 == k2,
{
    let r1 = s / 8 + times(k1, d1.rank_step());
    let f1 = s % 8 + times(k1, d1.file_step());
    let r2 = s / 8 + times(k2, d2.rank_step());
    let f2 = s % 8 + times(k2, d2.file_step());
    assert(r1 * 8 + f1 == r2 * 8 + f2);
    assert(r1 == r2 && f1 == f2);
    match d1 {
        Direction::N => {},
        Direction::NE => {},
        Direction::E => {},
        Direction::SE => {},
        Direction::S => {},
        Direction::SW => {},
        Direction::W => {},
        Direction::NW => {},
        Direction::Equal => {},
    }
    match d2 {
        Direction::N => {},
        Direction::NE => {},
        Direction::E => {},
        Direction::SE => {},
        Direction::S => {},
        Direction::SW => {},
        Direction::W => {},
        Direction::NW => {},
        Direction::Equal => {},
    }
}

/// The squares of a ray are exactly the squares that lie some steps from the
/// origin in the ray's direction, on the board, with only empty squares on
/// the way to them.
pub proof fn lemma_ray_squares(s: int, dir: Direction, occupied: Set<int>, t: int)
    requires
        0 <= s < 64,
    ensures
        ray_from(s, dir, occupied).contains(t) <==> dir != Direction::Equal && exists|k: int|
            on_ray(s, dir, occupied, t, k),
    decreases room(s, dir),
{
    lemma_room_step(s, dir);
    if room(s, dir) == 0 {
        if dir != Direction::Equal {
            assert forall|k: int| !on_ray(s, dir, occupied, t, k) by {
                if k >= 1 {
                    lemma_reach_needs_room(s, dir, k);
                }
            }
        }
    } else {
        let next = neighbor(s, dir)->0;
        lemma_ray_squares(next, dir, occupied, t);
        if ray_from(s, dir, occupied).contains(t) {
            if t == next {
                assert(on_ray(s, dir, occupied, t, 1));
            } else {
                let k1 = choose|k: int| on_ray(next, dir, occupied, t, k);
                lemma_reach_from_neighbor(s, dir, k1);
                lemma_room_step(next, dir);
                if k1 + 1 > 7 {
                    lemma_reach_needs_room(s, dir, k1 + 1);
                }
                assert forall|j: int| 1 <= j < k1 + 1 implies free_at(
                    s,
                    dir,
                    occupied,
                    j,
                ) by {
                    if j > 1 {
                        lemma_reach_from_neighbor(s, dir, j - 1);
                        assert(free_at(next, dir, occupied, j - 1));
                    }
                }
                assert(on_ray(s, dir, occupied, t, k1 + 1));
            }
        }
        if exists|k: int| on_ray(s, dir, occupied, t, k) {
            let k = choose|k: int| on_ray(s, dir, occupied, t, k);
            if k > 1 {
                assert(free_at(s, dir, occupied, 1));
                lemma_reach_from_neighbor(s, dir, k - 1);
                assert forall|j: int| 1 <= j < k - 1 implies free_at(
                    next,
                    dir,
                    occupied,
                    j,
                ) by {
                    lemma_reach_from_neighbor(s, dir, j);
                    assert(free_at(s, dir, occupied, j + 1));
                }
                assert(on_ray(next, dir, occupied, t, k - 1));
            }
        }
    }
}

/// A rook's ray ends at the first occupied square: no square that lies
/// beyond an occupied square in one of the rook's four directions is
/// attacked.
pub proof fn lemma_rook_stops_at_first_blocker(
    origin: int,
    occupied: Set<int>,
    dir: Direction,
    blocker: int,
    beyond: int,
)
    requires
        0 <= origin < 64,
        dir == Direction::N || dir == Direction::E || dir == Direction::S || dir == Direction::W,
        1 <= blocker < beyond,
        reach(origin, dir, blocker) is Some,
        occupied.contains(reach(origin, dir, blocker)->0),
        reach(origin, dir, beyond) is Some,
    ensures
        !rook_squares(origin, occupied).contains(reach(origin, dir, beyond)->0),
{
    let t = reach(origin, dir, beyond)->0;
    lemma_not_beyond_blocker(origin, occupied, dir, blocker, beyond, Direction::N);
    lemma_not_beyond_blocker(origin, occupied, dir, blocker, beyond, Direction::E);
    lemma_not_beyond_blocker(origin, occupied, dir, blocker, beyond, Direction::S);
    lemma_not_beyond_blocker(origin, occupied, dir, blocker, beyond, Direction::W);
}

/// No ray from a square holds a square that lies beyond an occupied square
/// in some direction from that square.
pub proof fn lemma_not_beyond_blocker(
    origin: int,
    occupied: Set<int>,
    dir: Direction,
    blocker: int,
    beyond: int,
    ray: Direction,
)
    requires
        0 <= origin < 64,
        dir != Direction::Equal,
        1 <= blocker < beyond,
        reach(origin, dir, blocker) is Some,
        occupied.contains(reach(origin, dir, blocker)->0),
        reach(origin, dir, beyond) is Some,
    ensures
        !ray_from(origin, ray, occupied).contains(reach(origin, dir, beyond)->0),
{
    let t = reach(origin, dir, beyond)->0;
    lemma_ray_squares(origin, ray, occupied, t);
    if ray_from(origin, ray, occupied).contains(t) {
        let k = choose|k: int| on_ray(origin, ray, occupied, t, k);
        lemma_reach_injective(origin, ray, k, dir, beyond);
        assert(free_at(origin, dir, occupied, blocker));
    }
}

/// A square of a ray lies some steps from the origin in the ray's direction,
/// by rank and by file: the number of steps is returned.
pub proof fn lemma_ray_member(origin: int, dir: Direction, occupied: Set<int>, t: int) -> (k: int)
    requires
        0 <= origin < 64,
        ray_from(origin, dir, occupied).contains(t),
    ensures
        dir != Direction::Equal,
        1 <= k <= 7,
        0 <= t < 64,
        t / 8 == origin / 8 + times(k, dir.rank_step()),
        t % 8 == origin % 8 + times(k, dir.file_step()),
{
    lemma_ray_squares(origin, dir, occupied, t);
    let k = choose|k: int| on_ray(origin, dir, occupied, t, k);
    let rank = origin / 8 + times(k, dir.rank_step());
    let file = origin % 8 + times(k, dir.file_step());
    assert(t == rank * 8 + file);
    k
}

/// A rook's ray does not pass from one edge of the board to the other: every
/// square that a rook attacks lies on the rook's rank or on its file, and is
/// not the rook's own square.
pub proof fn lemma_rook_stays_on_its_lines(origin: int, occupied: Set<int>, t: int)
    requires
        0 <= origin < 64,
        rook_squares(origin, occupied).contains(t),
    ensures
        0 <= t < 64,
        t != origin,
        t / 8 == origin / 8 || t % 8 == origin % 8,
{
    if ray_from(origin, Direction::N, occupied).contains(t) {
        lemma_ray_member(origin, Direction::N, occupied, t);
    } else if ray_from(origin, Direction::E, occupied).contains(t) {
        lemma_ray_member(origin, Direction::E, occupied, t);
    } else if ray_from(origin, Direction::S, occupied).contains(t) {
        lemma_ray_member(origin, Direction::S, occupied, t);
    } else {
        lemma_ray_member(origin, Direction::W, occupied, t);
    }
}

/// Every square that a bishop attacks lies on one of the bishop's diagonals:
/// as many ranks as files away, and not the bishop's own square.
pub proof fn lemma_bishop_stays_on_its_lines(origin: int, occupied: Set<int>, t: int)
    requires
        0 <= origin < 64,
        bishop_squares(origin, occupied).contains(t),
    ensures
        0 <= t < 64,
        t != origin,
        t / 8 - origin / 8 == t % 8 - origin % 8 || t / 8 - origin / 8 == origin % 8 - t % 8,
{
    if ray_from(origin, Direction::NE, occupied).contains(t) {
        lemma_ray_member(origin, Direction::NE, occupied, t);
    } else if ray_from(origin, Direction::SE, occupied).contains(t) {
        lemma_ray_member(origin, Direction::SE, occupied, t);
    } else if ray_from(origin, Direction::SW, occupied).contains(t) {
        lemma_ray_member(origin, Direction::SW, occupied, t);
    } else {
        lemma_ray_member(origin, Direction::NW, occupied, t);
    }
}

/// Every square of the set moved one step in direction `dir`. A square that
/// has no neighbour in that direction leaves the board: the two edge files
/// are masked out before the shift, so that no square passes from file H to
/// file A of the next rank or back.
pub fn step(b: Bitboard, dir: Direction) -> (moved: Bitboard)
    ensures
        moved@ == stepped(b@, dir),
{
    let v: u64 = b.v;
    let not_a: u64 = v & !FILE_A;
    let not_h: u64 = v & !FILE_H;
    proof {
        lemma_edge_files();
        lemma_squares_algebra(FILE_A, 0);
        lemma_squares_algebra(FILE_H, 0);
        lemma_squares_algebra(v, !FILE_A);
        lemma_squares_algebra(v, !FILE_H);
        lemma_squares_shift(v, 8);
        lemma_squares_shift(not_h, 1);
        lemma_squares_shift(not_h, 9);
        lemma_squares_shift(not_h, 7);
        lemma_squares_shift(not_a, 1);
        lemma_squares_shift(not_a, 9);
        lemma_squares_shift(not_a, 7);
    }
    let moved = match dir {
        Direction::N => Bitboard { v: v << 8 },
        Direction::NE => Bitboard { v: not_h << 9 },
        Direction::E => Bitboard { v: not_h << 1 },
        Direction::SE => Bitboard { v: not_h >> 7 },
        Direction::S => Bitboard { v: v >> 8 },
        Direction::SW => Bitboard { v: not_a >> 9 },
        Direction::W => Bitboard { v: not_a >> 1 },
        Direction::NW => Bitboard { v: not_a << 7 },
        Direction::Equal => b,
    };
    assert(moved@ =~= stepped(b@, dir));
    moved
}

/// One step from a single square leads to its neighbour, or off the board.
pub proof fn lemma_step_single(s: int, dir: Direction)
    requires
        0 <= s < 64,
    ensures
        stepped(set![s], dir) == neighbor_set(s, dir),
{
    let target = neighbor_set(s, dir);
    assert forall|t: int| stepped(set![s], dir).contains(t) <==> target.contains(t) by {
        if 0 <= t < 64 {
            assert(neighbor(t, dir.reversed()) == Some(s) <==> neighbor(s, dir) == Some(t));
        }
    }
    assert(stepped(set![s], dir) =~= target);
}

/// The squares that a sliding piece on `origin` attacks in direction `dir`:
/// the squares on the way to the edge of the board up to the first occupied
/// square, that square included.
pub fn ray_attacks(origin: Square, dir: Direction, occupied: Bitboard) -> (ray: Bitboard)
    requires
        origin.wf(),
    ensures
        ray@ == ray_from(origin@, dir, occupied@),
{
    let mut ray = Bitboard::empty();
    if dir == Direction::Equal {
        return ray;
    }
    let mut front = Bitboard::get_coord(origin);
    let ghost mut at: int = origin@;
    loop
        invariant
            dir != Direction::Equal,
            0 <= at < 64,
            front@ == set![at],
            ray@.union(ray_from(at, dir, occupied@)) == ray_from(origin@, dir, occupied@),
        decreases room(at, dir),
    {
        proof {
            lemma_step_single(at, dir);
            lemma_room_step(at, dir);
        }
        front = step(front, dir);
        if front.is_empty() {
            proof {
                if neighbor(at, dir) is Some {
                    assert(set![neighbor(at, dir)->0].contains(neighbor(at, dir)->0));
                }
                assert(room(at, dir) == 0);
                assert(ray@.union(Set::<int>::empty()) =~= ray@);
            }
            return ray;
        }
        let ghost next = neighbor(at, dir)->0;
        assert(front@.contains(next));
        let ghost before = ray@;
        ray = ray | front;
        if !front.is_disjoint(occupied) {
            assert(before.union(set![next]) =~= ray@);
            return ray;
        }
        proof {
            assert(before.union(ray_from(next, dir, occupied@).insert(next)) =~= ray@.union(
                ray_from(next, dir, occupied@),
            ));
            at = next;
        }
    }
}

/// The squares that a rook on `origin` attacks.
pub fn rook_attacks(origin: Square, occupied: Bitboard) -> (attacked: Bitboard)
    requires
        origin.wf(),
    ensures
        attacked@ == rook_squares(origin@, occupied@),
{
    ray_attacks(origin, Direction::N, occupied) | ray_attacks(origin, Direction::E, occupied)
        | ray_attacks(origin, Direction::S, occupied) | ray_attacks(
        origin,
        Direction::W,
        occupied,
    )
}

/// The squares that a bishop on `origin` attacks.
pub fn bishop_attacks(origin: Square, occupied: Bitboard) -> (attacked: Bitboard)
    requires
        origin.wf(),
    ensures
        attacked@ == bishop_squares(origin@, occupied@),
{
    ray_attacks(origin, Direction::NE, occupied) | ray_attacks(origin, Direction::SE, occupied)
        | ray_attacks(origin, Direction::SW, occupied) | ray_attacks(
        origin,
        Direction::NW,
        occupied,
    )
}

/// The squares that a queen on `origin` attacks.
pub fn queen_attacks(origin: Square, occupied: Bitboard) -> (attacked: Bitboard)
    requires
        origin.wf(),
    ensures
        attacked@ == queen_squares(origin@, occupied@),
{
    rook_attacks(origin, occupied) | bishop_attacks(origin, occupied)
}

/// The distance between two numbers.
pub open spec fn gap(a: int, b: int) -> int {
    if a >= b {
        a - b
    } else {
        b - a
    }
}

/// The squares next to `s`: one rank or one file away at most, `s` itself
/// left out. A king on `s` attacks them.
pub open spec fn king_squares(s: int) -> Set<int> {
    Set::new(|t: int| 0 <= t < 64 && t != s && gap(t / 8, s / 8) <= 1 && gap(t % 8, s % 8) <= 1)
}

/// The squares a knight's leap from `s`: two ranks and one file away, or one
/// rank and two files.
pub open spec fn knight_squares(s: int) -> Set<int> {
    Set::new(
        |t: int|
            0 <= t < 64 && ((gap(t / 8, s / 8) == 2 && gap(t % 8, s % 8) == 1) || (gap(
                t / 8,
                s / 8,
            ) == 1 && gap(t % 8, s % 8) == 2)),
    )
}

/// The squares on which a pawn of the given side on `s` captures: one rank
/// ahead, as the side sees it, and one file to either side.
pub open spec fn pawn_capture_squares(white: bool, s: int) -> Set<int> {
    Set::new(
        |t: int|
            0 <= t < 64 && gap(t % 8, s % 8) == 1 && t / 8 - s / 8 == if white {
                1int
            } else {
                -1int
            },
    )
}

/// The set that holds the neighbour of `s` in direction `dir`, if there is
/// one.
pub open spec fn neighbor_set(s: int, dir: Direction) -> Set<int> {
    match neighbor(s, dir) {
        Some(t) => set![t],
        None => Set::<int>::empty(),
    }
}

/// The set that holds the square two steps in direction `far` and one step in
/// direction `near` from `s`, if those steps stay on the board.
pub open spec fn leap_set(s: int, far: Direction, near: Direction) -> Set<int> {
    match neighbor(s, far) {
        Some(p) => match neighbor(p, far) {
            Some(q) => neighbor_set(q, near),
            None => Set::<int>::empty(),
        },
        None => Set::<int>::empty(),
    }
}

/// The neighbour of a square in a direction is the square one rank step and
/// one file step away, if that square is on the board.
pub proof fn lemma_neighbor_is(s: int, dir: Direction, t: int)
    requires
        0 <= s < 64,
    ensures
        neighbor_set(s, dir).contains(t) <==> neighbor(s, dir) == Some(t),
        neighbor(s, dir) == Some(t) <==> 0 <= t < 64 && t / 8 == s / 8 + dir.rank_step() && t % 8
            == s % 8 + dir.file_step(),
{
    match dir {
        Direction::N => {},
        Direction::NE => {},
        Direction::E => {},
        Direction::SE => {},
        Direction::S => {},
        Direction::SW => {},
        Direction::W => {},
        Direction::NW => {},
        Direction::Equal => {},
    }
}

/// A leap of two steps along a rank or a file and one step across leads to
/// the square that many ranks and files away, if that square is on the board.
pub proof fn lemma_leap_is(s: int, far: Direction, near: Direction, t: int)
    requires
        0 <= s < 64,
        far.rank_step() == 0 || far.file_step() == 0,
        near.rank_step() == 0 || near.file_step() == 0,
        far.rank_step() == 0 <==> near.rank_step() != 0,
        far != Direction::Equal,
        near != Direction::Equal,
    ensures
        leap_set(s, far, near).contains(t) <==> 0 <= t < 64 && t / 8 == s / 8 + 2
            * far.rank_step() + near.rank_step() && t % 8 == s % 8 + 2 * far.file_step()
            + near.file_step(),
{
    match neighbor(s, far) {
        Some(p) => {
            lemma_neighbor_is(s, far, p);
            match neighbor(p, far) {
                Some(q) => {
                    lemma_neighbor_is(p, far, q);
                    lemma_neighbor_is(q, near, t);
                },
                None => {},
            }
        },
        None => {},
    }
}

/// The neighbours of a square in the eight directions are the squares that a
/// king on it attacks.
pub proof fn lemma_king_neighbors(s: int)
    requires
        0 <= s < 64,
    ensures
        neighbor_set(s, Direction::N).union(neighbor_set(s, Direction::NE)).union(
            neighbor_set(s, Direction::E),
        ).union(neighbor_set(s, Direction::SE)).union(neighbor_set(s, Direction::S)).union(
            neighbor_set(s, Direction::SW),
        ).union(neighbor_set(s, Direction::W)).union(neighbor_set(s, Direction::NW))
            == king_squares(s),
{
    let all = neighbor_set(s, Direction::N).union(neighbor_set(s, Direction::NE)).union(
        neighbor_set(s, Direction::E),
    ).union(neighbor_set(s, Direction::SE)).union(neighbor_set(s, Direction::S)).union(
        neighbor_set(s, Direction::SW),
    ).union(neighbor_set(s, Direction::W)).union(neighbor_set(s, Direction::NW));
    assert forall|t: int| all.contains(t) <==> king_squares(s).contains(t) by {
        lemma_neighbor_is(s, Direction::N, t);
        lemma_neighbor_is(s, Direction::NE, t);
        lemma_neighbor_is(s, Direction::E, t);
        lemma_neighbor_is(s, Direction::SE, t);
        lemma_neighbor_is(s, Direction::S, t);
        lemma_neighbor_is(s, Direction::SW, t);
        lemma_neighbor_is(s, Direction::W, t);
        lemma_neighbor_is(s, Direction::NW, t);
    }
    assert(all =~= king_squares(s));
}

/// The eight leaps from a square lead to the squares that a knight on it
/// attacks.
pub proof fn lemma_knight_leaps(s: int)
    requires
        0 <= s < 64,
    ensures
        leap_set(s, Direction::N, Direction::E).union(leap_set(s, Direction::N, Direction::W))
            .union(leap_set(s, Direction::S, Direction::E)).union(
            leap_set(s, Direction::S, Direction::W),
        ).union(leap_set(s, Direction::E, Direction::N)).union(
            leap_set(s, Direction::E, Direction::S),
        ).union(leap_set(s, Direction::W, Direction::N)).union(
            leap_set(s, Direction::W, Direction::S),
        ) == knight_squares(s),
{
    let all = leap_set(s, Direction::N, Direction::E).union(
        leap_set(s, Direction::N, Direction::W),
    ).union(leap_set(s, Direction::S, Direction::E)).union(
        leap_set(s, Direction::S, Direction::W),
    ).union(leap_set(s, Direction::E, Direction::N)).union(
        leap_set(s, Direction::E, Direction::S),
    ).union(leap_set(s, Direction::W, Direction::N)).union(
        leap_set(s, Direction::W, Direction::S),
    );
    assert forall|t: int| all.contains(t) <==> knight_squares(s).contains(t) by {
        lemma_leap_is(s, Direction::N, Direction::E, t);
        lemma_leap_is(s, Direction::N, Direction::W, t);
        lemma_leap_is(s, Direction::S, Direction::E, t);
        lemma_leap_is(s, Direction::S, Direction::W, t);
        lemma_leap_is(s, Direction::E, Direction::N, t);
        lemma_leap_is(s, Direction::E, Direction::S, t);
        lemma_leap_is(s, Direction::W, Direction::N, t);
        lemma_leap_is(s, Direction::W, Direction::S, t);
    }
    assert(all =~= knight_squares(s));
}

/// Two steps in direction `far` and one step in direction `near` from the
/// square `s`, which the set `from` holds alone.
fn leap(from: Bitboard, far: Direction, near: Direction, Ghost(s): Ghost<int>) -> (to: Bitboard)
    requires
        0 <= s < 64,
        from@ == set![s],
    ensures
        to@ == leap_set(s, far, near),
{
    let once = step(from, far);
    let twice = step(once, far);
    let to = step(twice, near);
    proof {
        lemma_step_single(s, far);
        match neighbor(s, far) {
            Some(p) => {
                lemma_step_single(p, far);
                match neighbor(p, far) {
                    Some(q) => {
                        lemma_step_single(q, near);
                    },
                    None => {
                        assert(stepped(Set::<int>::empty(), near) =~= Set::<int>::empty());
                    },
                }
            },
            None => {
                assert(stepped(Set::<int>::empty(), far) =~= Set::<int>::empty());
                assert(stepped(Set::<int>::empty(), near) =~= Set::<int>::empty());
            },
        }
    }
    to
}

/// The squares that a king on `origin` attacks.
pub fn king_attacks(origin: Square) -> (attacked: Bitboard)
    requires
        origin.wf(),
    ensures
        attacked@ == king_squares(origin@),
{
    let from = Bitboard::get_coord(origin);
    proof {
        lemma_step_single(origin@, Direction::N);
        lemma_step_single(origin@, Direction::NE);
        lemma_step_single(origin@, Direction::E);
        lemma_step_single(origin@, Direction::SE);
        lemma_step_single(origin@, Direction::S);
        lemma_step_single(origin@, Direction::SW);
        lemma_step_single(origin@, Direction::W);
        lemma_step_single(origin@, Direction::NW);
        lemma_king_neighbors(origin@);
    }
    let attacked = step(from, Direction::N) | step(from, Direction::NE) | step(from, Direction::E)
        | step(from, Direction::SE) | step(from, Direction::S) | step(from, Direction::SW) | step(
        from,
        Direction::W,
    ) | step(from, Direction::NW);
    attacked
}

/// The squares that a knight on `origin` attacks.
pub fn knight_attacks(origin: Square) -> (attacked: Bitboard)
    requires
        origin.wf(),
    ensures
        attacked@ == knight_squares(origin@),
{
    let from = Bitboard::get_coord(origin);
    let ghost s = origin@;
    let north = leap(from, Direction::N, Direction::E, Ghost(s)) | leap(
        from,
        Direction::N,
        Direction::W,
        Ghost(s),
    );
    let south = leap(from, Direction::S, Direction::E, Ghost(s)) | leap(
        from,
        Direction::S,
        Direction::W,
        Ghost(s),
    );
    let east = leap(from, Direction::E, Direction::N, Ghost(s)) | leap(
        from,
        Direction::E,
        Direction::S,
        Ghost(s),
    );
    let west = leap(from, Direction::W, Direction::N, Ghost(s)) | leap(
        from,
        Direction::W,
        Direction::S,
        Ghost(s),
    );
    let attacked = north | south | east | west;
    proof {
        lemma_knight_leaps(s);
        assert(attacked@ =~= leap_set(s, Direction::N, Direction::E).union(
            leap_set(s, Direction::N, Direction::W),
        ).union(leap_set(s, Direction::S, Direction::E)).union(
            leap_set(s, Direction::S, Direction::W),
        ).union(leap_set(s, Direction::E, Direction::N)).union(
            leap_set(s, Direction::E, Direction::S),
        ).union(leap_set(s, Direction::W, Direction::N)).union(
            leap_set(s, Direction::W, Direction::S),
        ));
    }
    attacked
}

/// The squares on which a pawn of side `side` on `origin` captures.
pub fn pawn_attacks(side: Side, origin: Square) -> (attacked: Bitboard)
    requires
        origin.wf(),
    ensures
        attacked@ == pawn_capture_squares(side == Side::White, origin@),
{
    let from = Bitboard::get_coord(origin);
    let ghost s = origin@;
    let attacked = match side {
        Side::White => step(from, Direction::NE) | step(from, Direction::NW),
        Side::Black => step(from, Direction::SE) | step(from, Direction::SW),
    };
    proof {
        lemma_step_single(s, Direction::NE);
        lemma_step_single(s, Direction::NW);
        lemma_step_single(s, Direction::SE);
        lemma_step_single(s, Direction::SW);
        assert forall|t: int|
            attacked@.contains(t) <==> pawn_capture_squares(side == Side::White, s).contains(
                t,
            ) by {
            lemma_neighbor_is(s, Direction::NE, t);
            lemma_neighbor_is(s, Direction::NW, t);
            lemma_neighbor_is(s, Direction::SE, t);
            lemma_neighbor_is(s, Direction::SW, t);
        }
        assert(attacked@ =~= pawn_capture_squares(side == Side::White, s));
    }
    attacked
}

/// The square that lies `dist` steps from a square in a direction, if those
/// steps stay on the board.
pub fn direction_to_move(compass: Compass) -> (target: Option<Square>)
    requires
        compass.0.wf(),
    ensures
        match reach(compass.0@, compass.1, compass.2 as int) {
            Some(t) => target == Some(Square { v: t as u8 }),
            None => target is None,
        },
{
    let (s, direction, dist) = compass;
    if dist > 7 {
        proof {
            if direction != Direction::Equal {
                lemma_reach_needs_room(s@, direction, dist as int);
            }
        }
        if direction == Direction::Equal {
            return Some(s);
        }
        return None;
    }
    let rank_step: i8 = match direction {
        Direction::N | Direction::NE | Direction::NW => 1,
        Direction::S | Direction::SE | Direction::SW => -1,
        Direction::E | Direction::W | Direction::Equal => 0,
    };
    let file_step: i8 = match direction {
        Direction::E | Direction::NE | Direction::SE => 1,
        Direction::W | Direction::NW | Direction::SW => -1,
        Direction::N | Direction::S | Direction::Equal => 0,
    };
    let rank: i8 = (s.v / 8) as i8 + steps(dist as i8, rank_step);
    let file: i8 = (s.v % 8) as i8 + steps(dist as i8, file_step);
    if 0 <= rank && rank < 8 && 0 <= file && file < 8 {
        Some(Square { v: (rank * 8 + file) as u8 })
    } else {
        None
    }
}

/// `k` steps of length `step`.
fn steps(k: i8, step: i8) -> (way: i8)
    requires
        0 <= k <= 7,
    ensures
        way == times(k as int, step as int),
{
    if step > 0 {
        k
    } else if step < 0 {
        -k
    } else {
        0
    }
}

/// The squares that a piece of the given kind and side on `s` attacks, given
/// the occupied squares.
pub open spec fn attack_squares(side: Side, piece: Piece, s: int, occupied: Set<int>) -> Set<
    int,
> {
    match piece {
        Piece::P => pawn_capture_squares(side == Side::White, s),
        Piece::N => knight_squares(s),
        Piece::B => bishop_squares(s, occupied),
        Piece::R => rook_squares(s, occupied),
        Piece::Q => queen_squares(s, occupied),
        Piece::K => king_squares(s),
    }
}

/// The squares that pieces of the given kind and side attack from the
/// squares of `sources`.
pub open spec fn attacked_from(
    sources: Set<int>,
    side: Side,
    piece: Piece,
    occupied: Set<int>,
) -> Set<int> {
    Set::new(
        |t: int|
            exists|s: int|
                sources.contains(s) && #[trigger] attack_squares(side, piece, s, occupied).contains(
                    t,
                ),
    )
}

/// The squares that the pieces of a side attack.
pub open spec fn attacked_by(ps: BbPieceState, side: Side) -> Set<int> {
    Set::new(
        |t: int|
            exists|piece: Piece| #[trigger]
                attacked_from(ps.board(side, piece)@, side, piece, ps.occupied()).contains(t),
    )
}

/// The king of the side stands on a square that the other side attacks.
pub open spec fn in_check(ps: BbPieceState, side: Side) -> bool {
    !attacked_by(ps, side.flipped()).disjoint(ps.board(side, Piece::K)@)
}

/// One more source adds the squares that are attacked from it.
pub proof fn lemma_attacked_from_insert(
    sources: Set<int>,
    s: int,
    side: Side,
    piece: Piece,
    occupied: Set<int>,
)
    ensures
        attacked_from(sources.insert(s), side, piece, occupied) == attacked_from(
            sources,
            side,
            piece,
            occupied,
        ).union(attack_squares(side, piece, s, occupied)),
{
    let more = attacked_from(sources.insert(s), side, piece, occupied);
    let sum = attacked_from(sources, side, piece, occupied).union(
        attack_squares(side, piece, s, occupied),
    );
    assert forall|t: int| more.contains(t) <==> sum.contains(t) by {
        if more.contains(t) {
            let from = choose|from: int|
                sources.insert(s).contains(from) && #[trigger] attack_squares(
                    side,
                    piece,
                    from,
                    occupied,
                ).contains(t);
            if from != s {
                assert(sources.contains(from));
            }
        }
        if attacked_from(sources, side, piece, occupied).contains(t) {
            let from = choose|from: int|
                sources.contains(from) && #[trigger] attack_squares(
                    side,
                    piece,
                    from,
                    occupied,
                ).contains(t);
            assert(sources.insert(s).contains(from));
        }
        if attack_squares(side, piece, s, occupied).contains(t) {
            assert(sources.insert(s).contains(s));
        }
    }
    assert(more =~= sum);
}

/// The squares that a piece of the given kind and side on `origin` attacks.
pub fn piece_attacks(side: Side, piece: Piece, origin: Square, occupied: Bitboard) -> (attacked:
    Bitboard)
    requires
        origin.wf(),
    ensures
        attacked@ == attack_squares(side, piece, origin@, occupied@),
{
    match piece {
        Piece::P => pawn_attacks(side, origin),
        Piece::N => knight_attacks(origin),
        Piece::B => bishop_attacks(origin, occupied),
        Piece::R => rook_attacks(origin, occupied),
        Piece::Q => queen_attacks(origin, occupied),
        Piece::K => king_attacks(origin),
    }
}

/// The squares that the pieces of one kind and side attack.
pub fn attacks_of_kind(ps: &BbPieceState, side: Side, piece: Piece, occupied: Bitboard) -> (attacked:
    Bitboard)
    ensures
        attacked@ == attacked_from(ps.board(side, piece)@, side, piece, occupied@),
{
    let all = ps.get(side, piece);
    let mut rest = all;
    let mut attacked = Bitboard::empty();
    proof {
        assert(all@.difference(rest@) =~= Set::<int>::empty());
        assert(attacked_from(Set::<int>::empty(), side, piece, occupied@) =~= Set::<int>::empty());
        lemma_squares_len(rest.v);
    }
    loop
        invariant
            rest@.subset_of(all@),
            rest@.finite(),
            all == ps.board(side, piece),
            attacked@ == attacked_from(all@.difference(rest@), side, piece, occupied@),
        decreases rest@.len(),
    {
        let origin = match rest.first_square() {
            Some(origin) => origin,
            None => {
                assert(all@.difference(rest@) =~= all@);
                return attacked;
            },
        };
        proof {
            lemma_attacked_from_insert(all@.difference(rest@), origin@, side, piece, occupied@);
            assert(all@.difference(rest@.remove(origin@)) =~= all@.difference(rest@).insert(
                origin@,
            ));
        }
        attacked = attacked | piece_attacks(side, piece, origin, occupied);
        rest = rest.without_square(origin);
    }
}

/// The squares that the pieces of a side attack.
pub fn attacked_squares(ps: &BbPieceState, side: Side) -> (attacked: Bitboard)
    ensures
        attacked@ == attacked_by(*ps, side),
{
    let occupied = ps.occupancy();
    let pawns = attacks_of_kind(ps, side, Piece::P, occupied);
    let knights = attacks_of_kind(ps, side, Piece::N, occupied);
    let bishops = attacks_of_kind(ps, side, Piece::B, occupied);
    let rooks = attacks_of_kind(ps, side, Piece::R, occupied);
    let queens = attacks_of_kind(ps, side, Piece::Q, occupied);
    let kings = attacks_of_kind(ps, side, Piece::K, occupied);
    let attacked = pawns | knights | bishops | rooks | queens | kings;
    proof {
        assert forall|t: int| attacked@.contains(t) <==> attacked_by(*ps, side).contains(t) by {
            if attacked_by(*ps, side).contains(t) {
                let piece = choose|piece: Piece| #[trigger]
                    attacked_from(ps.board(side, piece)@, side, piece, ps.occupied()).contains(t);
                match piece {
                    Piece::P => {},
                    Piece::N => {},
                    Piece::B => {},
                    Piece::R => {},
                    Piece::Q => {},
                    Piece::K => {},
                }
            }
            if attacked@.contains(t) {
                if pawns@.contains(t) {
                    assert(attacked_from(
                        ps.board(side, Piece::P)@,
                        side,
                        Piece::P,
                        ps.occupied(),
                    ).contains(t));
                } else if knights@.contains(t) {
                    assert(attacked_from(
                        ps.board(side, Piece::N)@,
                        side,
                        Piece::N,
                        ps.occupied(),
                    ).contains(t));
                } else if bishops@.contains(t) {
                    assert(attacked_from(
                        ps.board(side, Piece::B)@,
                        side,
                        Piece::B,
                        ps.occupied(),
                    ).contains(t));
                } else if rooks@.contains(t) {
                    assert(attacked_from(
                        ps.board(side, Piece::R)@,
                        side,
                        Piece::R,
                        ps.occupied(),
                    ).contains(t));
                } else if queens@.contains(t) {
                    assert(attacked_from(
                        ps.board(side, Piece::Q)@,
                        side,
                        Piece::Q,
                        ps.occupied(),
                    ).contains(t));
                } else {
                    assert(attacked_from(
                        ps.board(side, Piece::K)@,
                        side,
                        Piece::K,
                        ps.occupied(),
                    ).contains(t));
                }
            }
        }
        assert(attacked@ =~= attacked_by(*ps, side));
    }
    attacked
}

/// Whether the king of the side stands on a square that the other side
/// attacks.
pub fn is_in_check(ps: &BbPieceState, side: Side) -> (check: bool)
    ensures
        check == in_check(*ps, side),
{
    let attacked = attacked_squares(ps, side.opponent());
    !attacked.is_disjoint(ps.get(side, Piece::K))
}

/// The squares to which a pawn of the given side on `s` advances: the square
/// ahead if it is empty, and from the rank on which the pawns start the
/// square beyond it too, if both are empty.
pub open spec fn pawn_push_squares(white: bool, s: int, occupied: Set<int>) -> Set<int> {
    let ahead: int = if white {
        8
    } else {
        -8
    };
    let start: int = if white {
        1
    } else {
        6
    };
    Set::new(
        |t: int|
            0 <= s < 64 && 0 <= t < 64 && !occupied.contains(t) && (t == s + ahead || (s / 8
                == start && t == s + 2 * ahead && !occupied.contains(s + ahead))),
    )
}

/// The squares to which the piece on `s` may go as far as the way it moves
/// and the other pieces allow: for a pawn, the empty squares to which it
/// advances and the squares of pieces of the other side on which it captures;
/// for any other piece, the squares that it attacks and that hold no piece of
/// its own side. The square of the other side's king is left out: a king is
/// never taken. A capture in passing, castling and the safety of the king are
/// not looked at.
pub open spec fn destination_squares(ps: BbPieceState, s: int) -> Set<int> {
    match ps.piece_at(s) {
        None => Set::empty(),
        Some((side, piece)) => (if piece == Piece::P {
            pawn_push_squares(side == Side::White, s, ps.occupied()).union(
                pawn_capture_squares(side == Side::White, s).intersect(
                    ps.side_squares(side.flipped()),
                ),
            )
        } else {
            attack_squares(side, piece, s, ps.occupied()).difference(ps.side_squares(side))
        }).difference(ps.board(side.flipped(), Piece::K)@),
    }
}

/// The squares to which a pawn of the given side on `origin` advances.
pub fn pawn_pushes(side: Side, origin: Square, occupied: Bitboard) -> (pushes: Bitboard)
    requires
        origin.wf(),
    ensures
        pushes@ == pawn_push_squares(side == Side::White, origin@, occupied@),
{
    let from = Bitboard::get_coord(origin);
    let ahead = match side {
        Side::White => Direction::N,
        Side::Black => Direction::S,
    };
    let start: u8 = match side {
        Side::White => 1,
        Side::Black => 6,
    };
    let free = occupied.not();
    let ghost s = origin@;
    proof {
        lemma_step_single(s, ahead);
    }
    let one = step(from, ahead) & free;
    let two = if origin.v / 8 == start {
        proof {
            lemma_neighbor_is(s, ahead, s + ahead.offset());
            lemma_step_single(s + ahead.offset(), ahead);
            if one@.contains(s + ahead.offset()) {
                assert(one@ =~= set![s + ahead.offset()]);
            } else {
                assert(one@ =~= Set::<int>::empty());
                assert(stepped(Set::<int>::empty(), ahead) =~= Set::<int>::empty());
            }
        }
        step(one, ahead) & free
    } else {
        Bitboard::empty()
    };
    let pushes = one | two;
    proof {
        assert forall|t: int|
            pushes@.contains(t) <==> pawn_push_squares(side == Side::White, s, occupied@).contains(
                t,
            ) by {
            lemma_neighbor_is(s, ahead, t);
            if origin.v / 8 == start {
                lemma_neighbor_is(s, ahead, s + ahead.offset());
                lemma_neighbor_is(s + ahead.offset(), ahead, t);
            }
        }
        assert(pushes@ =~= pawn_push_squares(side == Side::White, s, occupied@));
    }
    pushes
}

/// The squares to which the piece on `origin` may go as far as the way it
/// moves and the other pieces allow.
pub fn destinations(ps: &BbPieceState, origin: Square) -> (targets: Bitboard)
    requires
        origin.wf(),
    ensures
        targets@ == destination_squares(*ps, origin@),
{
    let (side, piece) = match ps.piece_on(origin) {
        Some(found) => found,
        None => {
            return Bitboard::empty();
        },
    };
    let occupied = ps.occupancy();
    let reached = match piece {
        Piece::P => {
            let enemies = ps.side_occupancy(side.opponent());
            pawn_pushes(side, origin, occupied) | (pawn_attacks(side, origin) & enemies)
        },
        _ => {
            let own = ps.side_occupancy(side);
            let attacked = piece_attacks(side, piece, origin, occupied);
            let free = attacked & own.not();
            proof {
                lemma_attack_on_board(side, piece, origin@, occupied@);
                assert(free@ =~= attacked@.difference(own@));
            }
            free
        },
    };
    let king = ps.get(side.opponent(), Piece::K);
    let targets = reached & king.not();
    proof {
        lemma_squares_len(reached.v);
        assert(targets@ =~= reached@.difference(king@));
    }
    targets
}

/// Every attacked square lies on the board.
pub proof fn lemma_attack_on_board(side: Side, piece: Piece, s: int, occupied: Set<int>)
    requires
        0 <= s < 64,
    ensures
        forall|t: int| #[trigger]
            attack_squares(side, piece, s, occupied).contains(t) ==> 0 <= t < 64,
{
    assert forall|t: int| #[trigger]
        attack_squares(side, piece, s, occupied).contains(t) implies 0 <= t < 64 by {
        match piece {
            Piece::R => {
                lemma_rook_stays_on_its_lines(s, occupied, t);
            },
            Piece::B => {
                lemma_bishop_stays_on_its_lines(s, occupied, t);
            },
            Piece::Q => {
                if rook_squares(s, occupied).contains(t) {
                    lemma_rook_stays_on_its_lines(s, occupied, t);
                } else {
                    lemma_bishop_stays_on_its_lines(s, occupied, t);
                }
            },
            _ => {},
        }
    }
}

/// The squares to which a rook may go are squares that it attacks: none of
/// them lies beyond the first occupied square of a ray, and none off the
/// rook's rank and file.
pub proof fn lemma_rook_destinations_are_attacked(ps: BbPieceState, s: int, t: int)
    requires
        0 <= s < 64,
        ps.piece_at(s) matches Some((_, piece)) && piece == Piece::R,
        destination_squares(ps, s).contains(t),
    ensures
        rook_squares(s, ps.occupied()).contains(t),
        0 <= t < 64,
        t != s,
        t / 8 == s / 8 || t % 8 == s % 8,
{
    assert(rook_squares(s, ps.occupied()).contains(t));
    lemma_rook_stays_on_its_lines(s, ps.occupied(), t);
}

/// The squares that a piece of the given kind and side attacks from each
/// square of an empty board, the squares in the order of their numbers. For
/// a pawn, a knight or a king, whose attacks do not depend on the other
/// pieces, these are the squares that `piece_attacks` gives on any board; for
/// a rook, a bishop or a queen they are the whole lines of the piece. A
/// caller that asks for the same attacks again and again may make the table
/// once and keep it; the functions of this module do not keep one and
/// compute the attacks at each call.
pub fn attack_table(side: Side, piece: Piece) -> (table: [Bitboard; 64])
    ensures
        forall|s: int|
            0 <= s < 64 ==> (#[trigger] table[s])@ == attack_squares(
                side,
                piece,
                s,
                Set::<int>::empty(),
            ),
{
    let none = Bitboard::empty();
    let mut table: [Bitboard; 64] = [none; 64];
    let mut n: u8 = 0;
    while n < 64
        invariant
            n <= 64,
            none@ == Set::<int>::empty(),
            forall|s: int|
                0 <= s < n ==> (#[trigger] table[s])@ == attack_squares(
                    side,
                    piece,
                    s,
                    Set::<int>::empty(),
                ),
        decreases 64 - n,
    {
        table[n as usize] = piece_attacks(side, piece, Square::new(n), none);
        n += 1;
    }
    table
}

} // verus!
