use crate::api::Square;
use crate::enums::{File, Rank};
use crate::utils::{
    bit_is_set, count_bits, count_low_bits, count_ones, lemma_bit_algebra, lemma_bit_shift,
    lemma_bits_determine_word,
};
use std::ops::{
    BitAnd, BitAndAssign, BitOr, BitOrAssign, BitXor, BitXorAssign, Not, Shl, ShlAssign, Shr,
    ShrAssign,
};
use vstd::prelude::*;
use vstd::set_lib::{lemma_int_range, lemma_len_subset, set_int_range};
use vstd::std_specs::ops::{
    BitAndSpecImpl, BitOrSpecImpl, BitXorSpecImpl, NotSpecImpl, ShlSpecImpl, ShrSpecImpl,
};
use vstd::string::StringExecFns;

verus! {

/// The squares whose bits are set in `v`: square `s` is bit `s`.
pub open spec fn squares_of(v: u64) -> Set<int> {
    Set::new(|s: int| 0 <= s < 64 && bit_is_set(v, s as u64))
}

/// The 64 squares of the board.
pub open spec fn all_squares() -> Set<int> {
    set_int_range(0, 64)
}

/// The squares of `set` moved up by `n` square numbers; what passes square 63
/// leaves the board.
pub open spec fn moved_up(set: Set<int>, n: int) -> Set<int> {
    Set::new(|s: int| 0 <= s < 64 && set.contains(s - n))
}

/// The squares of `set` moved down by `n` square numbers; what passes square 0
/// leaves the board.
pub open spec fn moved_down(set: Set<int>, n: int) -> Set<int> {
    Set::new(|s: int| 0 <= s < 64 && set.contains(s + n))
}

/// The squares that belong to exactly one of the two sets.
pub open spec fn either_not_both(a: Set<int>, b: Set<int>) -> Set<int> {
    a.difference(b).union(b.difference(a))
}

/// The squares of rank `r`.
pub open spec fn rank_squares(r: int) -> Set<int> {
    Set::new(|s: int| 0 <= s < 64 && s / 8 == r)
}

/// The squares of file `f`.
pub open spec fn file_squares(f: int) -> Set<int> {
    Set::new(|s: int| 0 <= s < 64 && s % 8 == f)
}

/// The eight bits of `v` that belong to rank `r`, file A in bit 0.
pub open spec fn rank_slice(v: u64, r: int) -> u8 {
    ((v >> ((r * 8) as u64)) & 0xff) as u8
}

/// The square that stands at place `i` of a board printed in eight lines of
/// eight squares and a line feed, rank 8 first and file A first in each line.
pub open spec fn printed_square(i: int) -> int {
    (7 - i / 9) * 8 + i % 9
}

/// The square that comes at place `n` when the squares are told off from a8
/// to h8, then from a7 to h7, and so on down to h1.
pub open spec fn top_left_square(n: int) -> int {
    (7 - n / 8) * 8 + n % 8
}

/// A set of squares printed as eight lines, rank 8 first and file A first in
/// each line: `1` for a square of the set, `0` for any other, and a line feed
/// after each rank.
pub open spec fn render_bits(squares: Set<int>) -> Seq<char> {
    Seq::new(
        72,
        |i: int|
            if i % 9 == 8 {
                '\n'
            } else if squares.contains(printed_square(i)) {
                '1'
            } else {
                '0'
            },
    )
}

/// Bit mask of file A.
pub const FILE_A: u64 = 0x0101_0101_0101_0101;

/// Bit mask of file H.
pub const FILE_H: u64 = 0x8080_8080_8080_8080;

/// Bit mask of rank 1.
pub const RANK_1: u64 = 0xff;

/// A set of squares, one bit for each square of the board.
#[derive(Debug, Default, Copy, Clone, PartialEq, Eq, Structural)]
pub struct Bitboard {
    pub v: u64,
}

impl View for Bitboard {
    type V = Set<int>;

    open spec fn view(&self) -> Set<int> {
        squares_of(self.v)
    }
}

/// A set of squares of the board is finite, and as many squares belong to it
/// as bits are set in its word.
pub proof fn lemma_squares_len(v: u64)
    ensures
        squares_of(v).finite(),
        squares_of(v).len() == count_ones(v),
        squares_of(v).subset_of(all_squares()),
        squares_of(v).len() <= 64,
{
    lemma_squares_below_len(v, 64);
    assert(squares_of(v) =~= squares_below(v, 64));
    lemma_int_range(0, 64);
    lemma_len_subset(squares_of(v), all_squares());
}

/// The squares below square `k` that the word `v` holds.
spec fn squares_below(v: u64, k: int) -> Set<int> {
    Set::new(|s: int| 0 <= s < k && s < 64 && bit_is_set(v, s as u64))
}

/// As many squares below square `k` belong to the word as bits are set among
/// its lowest `k` bits.
proof fn lemma_squares_below_len(v: u64, k: nat)
    requires
        k <= 64,
    ensures
        squares_below(v, k as int).finite(),
        squares_below(v, k as int).len() == count_low_bits(v, k),
    decreases k,
{
    if k == 0 {
        assert(squares_below(v, 0) =~= Set::empty());
    } else {
        lemma_squares_below_len(v, (k - 1) as nat);
        if bit_is_set(v, (k - 1) as u64) {
            assert(squares_below(v, k as int) =~= squares_below(v, k - 1).insert(k - 1));
        } else {
            assert(squares_below(v, k as int) =~= squares_below(v, k - 1));
        }
    }
}

/// The bitwise operations on words are the set operations on their squares.
pub proof fn lemma_squares_algebra(a: u64, b: u64)
    ensures
        squares_of(a & b) == squares_of(a).intersect(squares_of(b)),
        squares_of(a | b) == squares_of(a).union(squares_of(b)),
        squares_of(a ^ b) == either_not_both(squares_of(a), squares_of(b)),
        squares_of(!a) == all_squares().difference(squares_of(a)),
        squares_of(0) == Set::<int>::empty(),
        squares_of(0xffff_ffff_ffff_ffff) == all_squares(),
{
    assert forall|s: int| 0 <= s < 64 implies #[trigger] squares_of(a & b).contains(s) == (
    squares_of(a).contains(s) && squares_of(b).contains(s)) by {
        lemma_bit_algebra(a, b, s as u64);
    }
    assert forall|s: int| 0 <= s < 64 implies #[trigger] squares_of(a | b).contains(s) == (
    squares_of(a).contains(s) || squares_of(b).contains(s)) by {
        lemma_bit_algebra(a, b, s as u64);
    }
    assert forall|s: int| 0 <= s < 64 implies #[trigger] squares_of(a ^ b).contains(s) == (
    squares_of(a).contains(s) != squares_of(b).contains(s)) by {
        lemma_bit_algebra(a, b, s as u64);
    }
    assert forall|s: int| 0 <= s < 64 implies #[trigger] squares_of(!a).contains(s)
        == !squares_of(a).contains(s) by {
        lemma_bit_algebra(a, b, s as u64);
    }
    assert forall|s: int| 0 <= s < 64 implies !#[trigger] squares_of(0).contains(s) by {
        lemma_bit_algebra(a, b, s as u64);
    }
    assert forall|s: int| 0 <= s < 64 implies #[trigger] squares_of(
        0xffff_ffff_ffff_ffff,
    ).contains(s) by {
        lemma_bit_algebra(a, b, s as u64);
    }
    assert(squares_of(a & b) =~= squares_of(a).intersect(squares_of(b)));
    assert(squares_of(a | b) =~= squares_of(a).union(squares_of(b)));
    assert(squares_of(a ^ b) =~= either_not_both(squares_of(a), squares_of(b)));
    assert(squares_of(!a) =~= all_squares().difference(squares_of(a)));
    assert(squares_of(0) =~= Set::<int>::empty());
    assert(squares_of(0xffff_ffff_ffff_ffff) =~= all_squares());
}

/// A shift of a word moves its squares, and `1 << n` holds square `n` alone.
pub proof fn lemma_squares_shift(a: u64, n: u64)
    requires
        n < 64,
    ensures
        squares_of(a << n) == moved_up(squares_of(a), n as int),
        squares_of(a >> n) == moved_down(squares_of(a), n as int),
        squares_of(1u64 << n) == set![n as int],
{
    assert forall|s: int| 0 <= s < 64 implies #[trigger] squares_of(a << n).contains(s)
        == squares_of(a).contains(s - n) by {
        lemma_bit_shift(a, n, s as u64);
    }
    assert forall|s: int| 0 <= s < 64 implies #[trigger] squares_of(a >> n).contains(s)
        == squares_of(a).contains(s + n) by {
        lemma_bit_shift(a, n, s as u64);
    }
    assert forall|s: int| 0 <= s < 64 implies #[trigger] squares_of(1u64 << n).contains(s) == (s
        == n) by {
        lemma_bit_shift(a, n, s as u64);
    }
    assert(squares_of(a << n) =~= moved_up(squares_of(a), n as int));
    assert(squares_of(a >> n) =~= moved_down(squares_of(a), n as int));
    assert(squares_of(1u64 << n) =~= set![n as int]);
}

/// Two words that hold the same squares are the same word.
pub proof fn lemma_squares_determine_word(a: u64, b: u64)
    requires
        squares_of(a) == squares_of(b),
    ensures
        a == b,
{
    assert forall|i: u64| i < 64 implies (bit_is_set(a, i) <==> bit_is_set(b, i)) by {
        assert(squares_of(a).contains(i as int) <==> bit_is_set(a, i as int as u64));
        assert(squares_of(b).contains(i as int) <==> bit_is_set(b, i as int as u64));
    }
    lemma_bits_determine_word(a, b);
}

/// A set made of a single square holds exactly one square: one bit is set in
/// its word.
pub proof fn lemma_single_square_count(s: Square)
    requires
        s.wf(),
    ensures
        (Bitboard { v: 1u64 << s.v })@ == set![s@],
        (Bitboard { v: 1u64 << s.v })@.len() == 1,
        count_ones(1u64 << s.v) == 1,
{
    lemma_squares_shift(0, s.v as u64);
    lemma_squares_len(1u64 << s.v);
}

/// Two sets are disjoint exactly when their intersection is the empty set.
pub proof fn lemma_disjoint_iff_intersection_empty(a: Bitboard, b: Bitboard)
    ensures
        a@.disjoint(b@) <==> a.common(b) == (Bitboard { v: 0 }),
        a@.disjoint(b@) <==> a@.intersect(b@) == Set::<int>::empty(),
        a.common(b)@ == a@.intersect(b@),
{
    lemma_squares_algebra(a.v, b.v);
    if a@.disjoint(b@) {
        assert(a@.intersect(b@) =~= Set::<int>::empty());
        lemma_squares_determine_word(a.v & b.v, 0);
    }
    if a@.intersect(b@) == Set::<int>::empty() {
        assert forall|s: int| a@.contains(s) implies !b@.contains(s) by {
            assert(!a@.intersect(b@).contains(s));
        }
    }
}

/// One set is a subset of another exactly when their intersection is the
/// first set.
pub proof fn lemma_subset_iff_intersection_is_self(a: Bitboard, b: Bitboard)
    ensures
        a@.subset_of(b@) <==> a.common(b) == a,
        a@.subset_of(b@) <==> a@.intersect(b@) == a@,
{
    lemma_squares_algebra(a.v, b.v);
    if a@.subset_of(b@) {
        assert(a@.intersect(b@) =~= a@);
        lemma_squares_determine_word(a.v & b.v, a.v);
    }
    if a@.intersect(b@) == a@ {
        assert forall|s: int| a@.contains(s) implies b@.contains(s) by {
            assert(a@.intersect(b@).contains(s));
        }
    }
}

/// The word that holds the squares of `set` that lie below square `k`.
pub open spec fn word_below(set: Set<int>, k: nat) -> u64
    decreases k,
{
    if k == 0 {
        0
    } else if set.contains(k - 1) {
        word_below(set, (k - 1) as nat) | (1u64 << ((k - 1) as u64))
    } else {
        word_below(set, (k - 1) as nat)
    }
}

/// The word of a set holds the squares of the set, as far as they lie below
/// square `k`.
pub proof fn lemma_word_below(set: Set<int>, k: nat)
    requires
        k <= 64,
    ensures
        squares_of(word_below(set, k)) == Set::new(|s: int| 0 <= s < k && set.contains(s)),
    decreases k,
{
    let target = Set::new(|s: int| 0 <= s < k && set.contains(s));
    if k == 0 {
        lemma_squares_algebra(0, 0);
        assert(squares_of(0) =~= target);
    } else {
        let rest = word_below(set, (k - 1) as nat);
        lemma_word_below(set, (k - 1) as nat);
        if set.contains(k - 1) {
            lemma_squares_algebra(rest, 1u64 << ((k - 1) as u64));
            lemma_squares_shift(0, (k - 1) as u64);
            assert(squares_of(rest | (1u64 << ((k - 1) as u64))) =~= target);
        } else {
            assert(squares_of(rest) =~= target);
        }
    }
}

/// Every set of squares of the board is the set of some word.
pub proof fn lemma_set_has_word(set: Set<int>)
    requires
        set.subset_of(all_squares()),
    ensures
        (Bitboard { v: word_below(set, 64) })@ == set,
{
    lemma_word_below(set, 64);
    assert(Set::new(|s: int| 0 <= s < 64 && set.contains(s)) =~= set);
}

/// The empty set changes no set that it is united with, and the full set
/// changes no set that it is intersected with.
pub proof fn lemma_identity_elements(a: Bitboard)
    ensures
        (Bitboard { v: a.v | 0 }) == a,
        (Bitboard { v: a.v & 0xffff_ffff_ffff_ffff }) == a,
        a@.union(Set::<int>::empty()) == a@,
        a@.intersect(all_squares()) == a@,
{
    lemma_squares_algebra(a.v, 0);
    lemma_squares_algebra(a.v, 0xffff_ffff_ffff_ffff);
    lemma_squares_len(a.v);
    assert(a@.union(Set::<int>::empty()) =~= a@);
    assert(a@.intersect(all_squares()) =~= a@);
    lemma_squares_determine_word(a.v | 0, a.v);
    lemma_squares_determine_word(a.v & 0xffff_ffff_ffff_ffff, a.v);
}

/// The empty word has no bit set, and the full word has all 64.
pub proof fn lemma_count_ones_ends()
    ensures
        count_ones(0) == 0,
        count_ones(0xffff_ffff_ffff_ffff) == 64,
{
    lemma_squares_algebra(0, 0);
    lemma_squares_len(0);
    lemma_squares_len(0xffff_ffff_ffff_ffff);
    lemma_int_range(0, 64);
}

/// The digits of a word in base two, the highest first, without leading
/// zeros; the word 0 is the digit `0`.
pub open spec fn binary_text(v: u64) -> Seq<char>
    decreases v,
{
    if v < 2 {
        seq![if v == 1 {
            '1'
        } else {
            '0'
        }]
    } else {
        binary_text(v / 2).push(if v % 2 == 1 {
            '1'
        } else {
            '0'
        })
    }
}

/// Two sets of squares are the same set exactly when their words are equal.
pub proof fn lemma_same_squares_same_set(a: Bitboard, b: Bitboard)
    ensures
        a@ == b@ <==> a == b,
{
    if a@ == b@ {
        lemma_squares_determine_word(a.v, b.v);
    }
}

/// Bit `f` of the byte of rank `r` is the bit of the square of file `f` on that
/// rank.
proof fn lemma_rank_slice_bits(v: u64, r: u64, f: u64)
    by (bit_vector)
    requires
        r < 8,
        f < 64,
    ensures
        bit_is_set((((v >> ((r * 8) as u64)) & 0xff) as u8) as u64, f) <==> f < 8 && bit_is_set(
            v,
            (r * 8 + f) as u64,
        ),
        ((v >> ((r * 8) as u64)) & 0xff) as u8 == (v >> ((r * 8) as u64)) as u8,
{
}

/// Which squares the masks of a rank, of a file and of the two edge files
/// hold.
proof fn lemma_line_masks(r: u64, f: u64, i: u64)
    by (bit_vector)
    requires
        r < 8,
        f < 8,
        i < 64,
    ensures
        bit_is_set(0xffu64 << ((r * 8) as u64), i) <==> i / 8 == r,
        bit_is_set(0x0101_0101_0101_0101u64 << f, i) <==> i % 8 == f,
        bit_is_set(0x8080_8080_8080_8080u64, i) <==> i % 8 == 7,
        bit_is_set(0x0101_0101_0101_0101u64, i) <==> i % 8 == 0,
{
}

/// The masks of the two edge files hold the squares of those files.
pub proof fn lemma_edge_files()
    ensures
        squares_of(FILE_A) == file_squares(0),
        squares_of(FILE_H) == file_squares(7),
{
    assert forall|s: int| 0 <= s < 64 implies (#[trigger] bit_is_set(FILE_A, s as u64) <==> s % 8
        == 0) by {
        lemma_line_masks(0, 0, s as u64);
    }
    assert forall|s: int| 0 <= s < 64 implies (#[trigger] bit_is_set(FILE_H, s as u64) <==> s % 8
        == 7) by {
        lemma_line_masks(0, 0, s as u64);
    }
    assert(squares_of(FILE_A) =~= file_squares(0));
    assert(squares_of(FILE_H) =~= file_squares(7));
}

/// The square that comes at place `n` when the squares are told off from the
/// top left of the board as White sees it: from a8 to h8, then from a7 to h7,
/// and so on down to h1.
pub fn top_left(n: u8) -> (s: Square)
    requires
        n < 64,
    ensures
        s.wf(),
        s@ == top_left_square(n as int),
{
    Square::new((7 - n / 8) * 8 + n % 8)
}

impl Bitboard {
    /// The set of the squares that belong to both sets: what `&` computes.
    pub open spec fn common(self, rhs: Bitboard) -> Bitboard {
        Bitboard { v: self.v & rhs.v }
    }

    /// The set of squares that the word `v` holds.
    pub fn new(v: u64) -> (b: Bitboard)
        ensures
            b.v == v,
            b@ == squares_of(v),
    {
        Bitboard { v }
    }

    /// The empty set of squares.
    pub fn empty() -> (b: Bitboard)
        ensures
            b.v == 0,
            b@ == Set::<int>::empty(),
    {
        proof {
            lemma_squares_algebra(0, 0);
        }
        Bitboard { v: 0 }
    }

    /// The set of all 64 squares.
    pub fn full() -> (b: Bitboard)
        ensures
            b.v == 0xffff_ffff_ffff_ffff,
            b@ == all_squares(),
    {
        proof {
            lemma_squares_algebra(0, 0);
        }
        Bitboard { v: 0xffff_ffff_ffff_ffff }
    }

    /// The eight squares of rank `r`.
    pub fn rank(r: Rank) -> (b: Bitboard)
        ensures
            b@ == rank_squares(r.ord()),
    {
        let shift: u64 = r.index() as u64 * 8;
        let b = Bitboard { v: RANK_1 << shift };
        proof {
            assert forall|s: int| 0 <= s < 64 implies (#[trigger] bit_is_set(b.v, s as u64) <==> s
                / 8 == r.ord()) by {
                lemma_line_masks(r.ord() as u64, 0, s as u64);
            }
            assert(b@ =~= rank_squares(r.ord()));
        }
        b
    }

    /// The eight squares of file `f`.
    pub fn file(f: File) -> (b: Bitboard)
        ensures
            b@ == file_squares(f.ord()),
    {
        let b = Bitboard { v: FILE_A << f.index() };
        proof {
            assert forall|s: int| 0 <= s < 64 implies (#[trigger] bit_is_set(b.v, s as u64) <==> s
                % 8 == f.ord()) by {
                lemma_line_masks(0, f.ord() as u64, s as u64);
            }
            assert(b@ =~= file_squares(f.ord()));
        }
        b
    }

    /// Every square moved one file towards file H. A square of file H leaves
    /// the board: it does not come back on file A of the next rank.
    pub fn shift_h(&self) -> (b: Bitboard)
        ensures
            b@ == Set::new(|s: int| 0 <= s < 64 && s % 8 != 0 && self@.contains(s - 1)),
    {
        let kept = Bitboard { v: self.v & !FILE_H };
        let b = Bitboard { v: kept.v << 1 };
        proof {
            lemma_squares_algebra(self.v, !FILE_H);
            lemma_squares_algebra(FILE_H, 0);
            lemma_squares_shift(kept.v, 1);
            lemma_edge_files();
            assert(b@ =~= Set::new(|s: int| 0 <= s < 64 && s % 8 != 0 && self@.contains(s - 1)));
        }
        b
    }

    /// Every square moved one rank towards rank 8. A square of rank 8 leaves
    /// the board.
    pub fn shift_v(&self) -> (b: Bitboard)
        ensures
            b@ == moved_up(self@, 8),
    {
        proof {
            lemma_squares_shift(self.v, 8);
        }
        Bitboard { v: self.v << 8 }
    }

    /// The set that holds the square `s` and no other.
    pub fn get_coord(s: Square) -> (b: Bitboard)
        requires
            s.wf(),
        ensures
            b.v == 1u64 << s.v,
            b@ == set![s@],
            b@.len() == 1,
    {
        proof {
            lemma_squares_shift(0, s.v as u64);
        }
        Bitboard { v: 1u64 << s.v }
    }

    /// Whether the square `s` belongs to the set.
    pub fn contains(&self, s: Square) -> (found: bool)
        requires
            s.wf(),
        ensures
            found == self@.contains(s@),
    {
        (self.v >> s.v) & 1 == 1
    }

    /// The set with the square `s` added.
    pub fn with_square(&self, s: Square) -> (b: Bitboard)
        requires
            s.wf(),
        ensures
            b@ == self@.insert(s@),
    {
        let b = Bitboard { v: self.v | (1u64 << s.v) };
        proof {
            lemma_squares_algebra(self.v, 1u64 << s.v);
            lemma_squares_shift(0, s.v as u64);
            assert(b@ =~= self@.insert(s@));
        }
        b
    }

    /// The set with the square `s` taken out.
    pub fn without_square(&self, s: Square) -> (b: Bitboard)
        requires
            s.wf(),
        ensures
            b@ == self@.remove(s@),
    {
        let b = Bitboard { v: self.v & !(1u64 << s.v) };
        proof {
            lemma_squares_algebra(self.v, !(1u64 << s.v));
            lemma_squares_algebra(1u64 << s.v, 0);
            lemma_squares_shift(0, s.v as u64);
            lemma_squares_len(self.v);
            assert(b@ =~= self@.remove(s@));
        }
        b
    }

    /// The square of the set with the lowest number, if the set has a square.
    pub fn first_square(&self) -> (first: Option<Square>)
        ensures
            first is None <==> self@ == Set::<int>::empty(),
            first is Some ==> first->0.wf() && self@.contains(first->0@) && forall|s: int|
                self@.contains(s) ==> first->0@ <= s,
    {
        proof {
            vstd::std_specs::bits::axiom_u64_trailing_zeros(self.v);
            lemma_squares_algebra(0, 0);
            if self@ == Set::<int>::empty() {
                lemma_squares_determine_word(self.v, 0);
            }
        }
        if self.v == 0 {
            None
        } else {
            let low: u32 = self.v.trailing_zeros();
            let first = Square { v: low as u8 };
            proof {
                assert forall|s: int| self@.contains(s) implies first@ <= s by {
                    if s < first@ {
                        assert((self.v >> (s as u64)) & 1u64 == 0u64);
                    }
                }
            }
            Some(first)
        }
    }

    /// Whether no square belongs to the set.
    pub fn is_empty(&self) -> (none: bool)
        ensures
            none == (self@ == Set::<int>::empty()),
            none == (self.v == 0),
    {
        proof {
            lemma_squares_algebra(0, 0);
            if self@ == Set::<int>::empty() {
                lemma_squares_determine_word(self.v, 0);
            }
        }
        self.v == 0
    }

    /// Number of squares in the set.
    pub fn count_bits(&self) -> (n: u8)
        ensures
            n == self@.len(),
            n == count_ones(self.v),
            n <= 64,
    {
        proof {
            lemma_squares_len(self.v);
        }
        count_bits(self.v)
    }

    /// Whether every square of this set belongs to `rhs` too.
    pub fn is_subset(&self, rhs: Bitboard) -> (within: bool)
        ensures
            within == self@.subset_of(rhs@),
            within == (self.common(rhs) == *self),
    {
        proof {
            lemma_squares_algebra(self.v, rhs.v);
            if self@.subset_of(rhs@) {
                assert(self@.intersect(rhs@) =~= self@);
                lemma_squares_determine_word(self.v & rhs.v, self.v);
            }
            if self.v & rhs.v == self.v {
                assert(self@.intersect(rhs@) == self@);
                assert(self@.subset_of(rhs@));
            }
        }
        self.v & rhs.v == self.v
    }

    /// Whether the two sets have no square in common.
    pub fn is_disjoint(&self, rhs: Bitboard) -> (apart: bool)
        ensures
            apart == self@.disjoint(rhs@),
            apart == (self.common(rhs) == (Bitboard { v: 0 })),
    {
        proof {
            lemma_squares_algebra(self.v, rhs.v);
            if self@.disjoint(rhs@) {
                assert(self@.intersect(rhs@) =~= Set::<int>::empty());
                lemma_squares_determine_word(self.v & rhs.v, 0);
            }
            if self.v & rhs.v == 0 {
                assert(self@.intersect(rhs@) == Set::<int>::empty());
                assert forall|s: int| self@.contains(s) implies !rhs@.contains(s) by {
                    assert(!self@.intersect(rhs@).contains(s));
                }
            }
        }
        self.v & rhs.v == 0
    }

    /// The eight squares of one rank as a byte: bit `f` of the byte is set
    /// when the square of file `f` on that rank belongs to the set.
    pub fn get_rank(&self, rank: Rank) -> (bits: u8)
        ensures
            bits == rank_slice(self.v, rank.ord()),
            forall|f: int|
                0 <= f < 8 ==> (bit_is_set(bits as u64, f as u64) <==> #[trigger] self@.contains(
                    rank.ord() * 8 + f,
                )),
    {
        let shift: u64 = rank.index() as u64 * 8;
        let bits: u8 = #[verifier::truncate]
        ((self.v >> shift) as u8);
        proof {
            lemma_rank_slice_bits(self.v, rank.ord() as u64, 0);
            assert forall|f: int| 0 <= f < 8 implies (bit_is_set(bits as u64, f as u64)
                <==> #[trigger] self@.contains(rank.ord() * 8 + f)) by {
                lemma_rank_slice_bits(self.v, rank.ord() as u64, f as u64);
            }
        }
        bits
    }

    /// The word of the set in base two, the highest digit first, without
    /// leading zeros.
    pub fn binary_string(&self) -> (text: String)
        ensures
            text@ == binary_text(self.v),
    {
        let mut text = String::new();
        append_binary(&mut text, self.v);
        assert(Seq::<char>::empty() + binary_text(self.v) =~= binary_text(self.v));
        text
    }

    /// The set printed as eight lines of eight digits, rank 8 first and file
    /// A first in each line, `1` for a square of the set and `0` for any
    /// other, each line closed by a line feed.
    pub fn pretty_string(&self) -> (text: String)
        ensures
            text@ == render_bits(self@),
    {
        let mut text = String::new();
        let mut row: u8 = 0;
        while row < 8
            invariant
                row <= 8,
                text@.len() == 9 * row,
                forall|i: int| 0 <= i < 9 * row ==> text@[i] == render_bits(self@)[i],
            decreases 8 - row,
        {
            let mut col: u8 = 0;
            while col < 8
                invariant
                    row < 8,
                    col <= 8,
                    text@.len() == 9 * row + col,
                    forall|i: int| 0 <= i < 9 * row + col ==> text@[i] == render_bits(self@)[i],
                decreases 8 - col,
            {
                let square = top_left(row * 8 + col);
                let ghost i: int = 9 * row + col;
                assert(i / 9 == row && i % 9 == col);
                proof {
                    reveal_strlit("1");
                    reveal_strlit("0");
                }
                if self.contains(square) {
                    text.append("1");
                } else {
                    text.append("0");
                }
                col += 1;
            }
            let ghost i: int = 9 * row + 8;
            assert(i / 9 == row && i % 9 == 8);
            proof {
                reveal_strlit("\n");
            }
            text.append("\n");
            row += 1;
        }
        assert(text@ =~= render_bits(self@));
        text
    }
}

impl BitAnd for Bitboard {
    type Output = Bitboard;

    /// The squares that belong to both sets.
    fn bitand(self, rhs: Self) -> (b: Bitboard)
        ensures
            b == self.common(rhs),
            b@ == self@.intersect(rhs@),
    {
        proof {
            lemma_squares_algebra(self.v, rhs.v);
        }
        Bitboard { v: self.v & rhs.v }
    }
}

impl BitAndSpecImpl for Bitboard {
    open spec fn obeys_bitand_spec() -> bool {
        true
    }

    open spec fn bitand_req(self, rhs: Self) -> bool {
        true
    }

    open spec fn bitand_spec(self, rhs: Self) -> Bitboard {
        Bitboard { v: self.v & rhs.v }
    }
}

impl BitOr for Bitboard {
    type Output = Bitboard;

    /// The squares that belong to either set.
    fn bitor(self, rhs: Self) -> (b: Bitboard)
        ensures
            b@ == self@.union(rhs@),
    {
        proof {
            lemma_squares_algebra(self.v, rhs.v);
        }
        Bitboard { v: self.v | rhs.v }
    }
}

impl BitOrSpecImpl for Bitboard {
    open spec fn obeys_bitor_spec() -> bool {
        true
    }

    open spec fn bitor_req(self, rhs: Self) -> bool {
        true
    }

    open spec fn bitor_spec(self, rhs: Self) -> Bitboard {
        Bitboard { v: self.v | rhs.v }
    }
}

impl BitXor for Bitboard {
    type Output = Bitboard;

    /// The squares that belong to exactly one of the two sets.
    fn bitxor(self, rhs: Self) -> (b: Bitboard)
        ensures
            b@ == either_not_both(self@, rhs@),
    {
        proof {
            lemma_squares_algebra(self.v, rhs.v);
        }
        Bitboard { v: self.v ^ rhs.v }
    }
}

impl BitXorSpecImpl for Bitboard {
    open spec fn obeys_bitxor_spec() -> bool {
        true
    }

    open spec fn bitxor_req(self, rhs: Self) -> bool {
        true
    }

    open spec fn bitxor_spec(self, rhs: Self) -> Bitboard {
        Bitboard { v: self.v ^ rhs.v }
    }
}

impl Not for Bitboard {
    type Output = Bitboard;

    /// The squares of the board that do not belong to the set.
    fn not(self) -> (b: Bitboard)
        ensures
            b@ == all_squares().difference(self@),
    {
        proof {
            lemma_squares_algebra(self.v, 0);
        }
        Bitboard { v: !self.v }
    }
}

impl NotSpecImpl for Bitboard {
    open spec fn obeys_not_spec() -> bool {
        true
    }

    open spec fn not_req(self) -> bool {
        true
    }

    open spec fn not_spec(self) -> Bitboard {
        Bitboard { v: !self.v }
    }
}

impl Shl<u8> for Bitboard {
    type Output = Bitboard;

    /// Every square moved up by `rhs` square numbers; what passes square 63
    /// is dropped.
    fn shl(self, rhs: u8) -> (b: Bitboard)
        ensures
            b@ == moved_up(self@, rhs as int),
    {
        proof {
            lemma_squares_shift(self.v, rhs as u64);
        }
        Bitboard { v: self.v << rhs }
    }
}

impl ShlSpecImpl<u8> for Bitboard {
    open spec fn obeys_shl_spec() -> bool {
        true
    }

    open spec fn shl_req(self, rhs: u8) -> bool {
        rhs < 64
    }

    open spec fn shl_spec(self, rhs: u8) -> Bitboard {
        Bitboard { v: self.v << rhs }
    }
}

impl Shr<u8> for Bitboard {
    type Output = Bitboard;

    /// Every square moved down by `rhs` square numbers; what passes square 0
    /// is dropped.
    fn shr(self, rhs: u8) -> (b: Bitboard)
        ensures
            b@ == moved_down(self@, rhs as int),
    {
        proof {
            lemma_squares_shift(self.v, rhs as u64);
        }
        Bitboard { v: self.v >> rhs }
    }
}

impl ShrSpecImpl<u8> for Bitboard {
    open spec fn obeys_shr_spec() -> bool {
        true
    }

    open spec fn shr_req(self, rhs: u8) -> bool {
        rhs < 64
    }

    open spec fn shr_spec(self, rhs: u8) -> Bitboard {
        Bitboard { v: self.v >> rhs }
    }
}

impl BitAnd<u64> for Bitboard {
    type Output = Bitboard;

    /// The squares of the set that the word `rhs` holds too.
    fn bitand(self, rhs: u64) -> (b: Bitboard)
        ensures
            b@ == self@.intersect(squares_of(rhs)),
    {
        proof {
            lemma_squares_algebra(self.v, rhs);
        }
        Bitboard { v: self.v & rhs }
    }
}

impl BitAndSpecImpl<u64> for Bitboard {
    open spec fn obeys_bitand_spec() -> bool {
        true
    }

    open spec fn bitand_req(self, rhs: u64) -> bool {
        true
    }

    open spec fn bitand_spec(self, rhs: u64) -> Bitboard {
        Bitboard { v: self.v & rhs }
    }
}

impl BitOr<u64> for Bitboard {
    type Output = Bitboard;

    /// The squares of the set together with those that the word `rhs` holds.
    fn bitor(self, rhs: u64) -> (b: Bitboard)
        ensures
            b@ == self@.union(squares_of(rhs)),
    {
        proof {
            lemma_squares_algebra(self.v, rhs);
        }
        Bitboard { v: self.v | rhs }
    }
}

impl BitOrSpecImpl<u64> for Bitboard {
    open spec fn obeys_bitor_spec() -> bool {
        true
    }

    open spec fn bitor_req(self, rhs: u64) -> bool {
        true
    }

    open spec fn bitor_spec(self, rhs: u64) -> Bitboard {
        Bitboard { v: self.v | rhs }
    }
}

impl BitXor<u64> for Bitboard {
    type Output = Bitboard;

    /// The squares that belong to exactly one of the set and the word `rhs`.
    fn bitxor(self, rhs: u64) -> (b: Bitboard)
        ensures
            b@ == either_not_both(self@, squares_of(rhs)),
    {
        proof {
            lemma_squares_algebra(self.v, rhs);
        }
        Bitboard { v: self.v ^ rhs }
    }
}

impl BitXorSpecImpl<u64> for Bitboard {
    open spec fn obeys_bitxor_spec() -> bool {
        true
    }

    open spec fn bitxor_req(self, rhs: u64) -> bool {
        true
    }

    open spec fn bitxor_spec(self, rhs: u64) -> Bitboard {
        Bitboard { v: self.v ^ rhs }
    }
}

impl BitAndAssign for Bitboard {
    /// Keeps the squares that belong to `rhs` too.
    fn bitand_assign(&mut self, rhs: Self)
        ensures
            final(self).v == old(self).v & rhs.v,
            final(self)@ == old(self)@.intersect(rhs@),
    {
        proof {
            lemma_squares_algebra(self.v, rhs.v);
        }
        self.v = self.v & rhs.v;
    }
}

impl BitAndAssign<u64> for Bitboard {
    /// Keeps the squares that the word `rhs` holds too.
    fn bitand_assign(&mut self, rhs: u64)
        ensures
            final(self).v == old(self).v & rhs,
            final(self)@ == old(self)@.intersect(squares_of(rhs)),
    {
        proof {
            lemma_squares_algebra(self.v, rhs);
        }
        self.v = self.v & rhs;
    }
}

impl BitOrAssign for Bitboard {
    /// Adds the squares of `rhs`.
    fn bitor_assign(&mut self, rhs: Self)
        ensures
            final(self).v == old(self).v | rhs.v,
            final(self)@ == old(self)@.union(rhs@),
    {
        proof {
            lemma_squares_algebra(self.v, rhs.v);
        }
        self.v = self.v | rhs.v;
    }
}

impl BitOrAssign<u64> for Bitboard {
    /// Adds the squares that the word `rhs` holds.
    fn bitor_assign(&mut self, rhs: u64)
        ensures
            final(self).v == old(self).v | rhs,
            final(self)@ == old(self)@.union(squares_of(rhs)),
    {
        proof {
            lemma_squares_algebra(self.v, rhs);
        }
        self.v = self.v | rhs;
    }
}

impl BitXorAssign for Bitboard {
    /// Keeps the squares that belong to exactly one of the set and `rhs`.
    fn bitxor_assign(&mut self, rhs: Self)
        ensures
            final(self).v == old(self).v ^ rhs.v,
            final(self)@ == either_not_both(old(self)@, rhs@),
    {
        proof {
            lemma_squares_algebra(self.v, rhs.v);
        }
        self.v = self.v ^ rhs.v;
    }
}

impl BitXorAssign<u64> for Bitboard {
    /// Keeps the squares that belong to exactly one of the set and the word `rhs`.
    fn bitxor_assign(&mut self, rhs: u64)
        ensures
            final(self).v == old(self).v ^ rhs,
            final(self)@ == either_not_both(old(self)@, squares_of(rhs)),
    {
        proof {
            lemma_squares_algebra(self.v, rhs);
        }
        self.v = self.v ^ rhs;
    }
}

impl ShlAssign<u8> for Bitboard {
    /// Moves every square up by `rhs` square numbers; what passes square 63 is dropped.
    fn shl_assign(&mut self, rhs: u8)
        requires
            rhs < 64,
        ensures
            final(self).v == old(self).v << rhs,
            final(self)@ == moved_up(old(self)@, rhs as int),
    {
        proof {
            lemma_squares_shift(self.v, rhs as u64);
        }
        self.v = self.v << rhs;
    }
}

impl ShrAssign<u8> for Bitboard {
    /// Moves every square down by `rhs` square numbers; what passes square 0 is dropped.
    fn shr_assign(&mut self, rhs: u8)
        requires
            rhs < 64,
        ensures
            final(self).v == old(self).v >> rhs,
            final(self)@ == moved_down(old(self)@, rhs as int),
    {
        proof {
            lemma_squares_shift(self.v, rhs as u64);
        }
        self.v = self.v >> rhs;
    }
}

/// Writes the word `v` in base two at the end of the text.
fn append_binary(text: &mut String, v: u64)
    ensures
        final(text)@ == old(text)@ + binary_text(v),
    decreases v,
{
    if v >= 2 {
        append_binary(text, v / 2);
    }
    proof {
        reveal_strlit("1");
        reveal_strlit("0");
    }
    if v % 2 == 1 {
        text.append("1");
    } else {
        text.append("0");
    }
    assert(final(text)@ =~= old(text)@ + binary_text(v));
}

} // verus!
