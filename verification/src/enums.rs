use vstd::prelude::*;

verus! {

/// The two players.
#[derive(Debug, Default, Clone, Copy, PartialEq, Eq, Structural)]
pub enum Side {
    #[default]
    White,
    Black,
}

/// The six kinds of chess piece.
#[derive(Debug, Clone, Copy, PartialEq, Eq, Structural)]
pub enum Piece {
    P,
    N,
    B,
    R,
    Q,
    K,
}

/// The eight ranks of the board, from White's back rank upwards.
#[derive(Debug, Clone, Copy, PartialEq, Eq, Structural)]
pub enum Rank {
    R1,
    R2,
    R3,
    R4,
    R5,
    R6,
    R7,
    R8,
}

/// The eight files of the board, from the queenside to the kingside.
#[derive(Debug, Clone, Copy, PartialEq, Eq, Structural)]
pub enum File {
    A,
    B,
    C,
    D,
    E,
    F,
    G,
    H,
}

/// A set of sides.
#[derive(Debug, Default, Clone, Copy, PartialEq, Eq, Structural)]
pub enum SideSet {
    #[default]
    Neither,
    White,
    Black,
    Both,
}

/// The two wings of the board, named after the piece that starts there.
#[derive(Debug, Clone, Copy, PartialEq, Eq, Structural)]
pub enum BoardSide {
    QueenSide,
    KingSide,
}

impl Side {
    /// The other player.
    pub open spec fn flipped(self) -> Side {
        match self {
            Side::White => Side::Black,
            Side::Black => Side::White,
        }
    }

    /// The other player.
    pub fn opponent(self) -> (other: Side)
        ensures
            other == self.flipped(),
    {
        match self {
            Side::White => Side::Black,
            Side::Black => Side::White,
        }
    }
}

impl Piece {
    /// Position of the piece kind in the order pawn, knight, bishop, rook,
    /// queen, king.
    pub open spec fn ord(self) -> int {
        match self {
            Piece::P => 0,
            Piece::N => 1,
            Piece::B => 2,
            Piece::R => 3,
            Piece::Q => 4,
            Piece::K => 5,
        }
    }

    /// Position of the piece kind in the order pawn, knight, bishop, rook,
    /// queen, king.
    pub fn index(self) -> (i: u8)
        ensures
            i == self.ord(),
    {
        match self {
            Piece::P => 0,
            Piece::N => 1,
            Piece::B => 2,
            Piece::R => 3,
            Piece::Q => 4,
            Piece::K => 5,
        }
    }
}

impl Rank {
    /// Number of the rank, counted from 0 for rank 1.
    pub open spec fn ord(self) -> int {
        match self {
            Rank::R1 => 0,
            Rank::R2 => 1,
            Rank::R3 => 2,
            Rank::R4 => 3,
            Rank::R5 => 4,
            Rank::R6 => 5,
            Rank::R7 => 6,
            Rank::R8 => 7,
        }
    }

    /// The rank with the given number, rank 8 for any number above 6.
    pub open spec fn of(i: int) -> Rank {
        if i <= 0 {
            Rank::R1
        } else if i == 1 {
            Rank::R2
        } else if i == 2 {
            Rank::R3
        } else if i == 3 {
            Rank::R4
        } else if i == 4 {
            Rank::R5
        } else if i == 5 {
            Rank::R6
        } else if i == 6 {
            Rank::R7
        } else {
            Rank::R8
        }
    }

    /// Number of the rank, counted from 0 for rank 1.
    pub fn index(self) -> (i: u8)
        ensures
            i == self.ord(),
            i < 8,
    {
        match self {
            Rank::R1 => 0,
            Rank::R2 => 1,
            Rank::R3 => 2,
            Rank::R4 => 3,
            Rank::R5 => 4,
            Rank::R6 => 5,
            Rank::R7 => 6,
            Rank::R8 => 7,
        }
    }

    /// The rank with number `i`.
    pub fn from_index(i: u8) -> (r: Rank)
        requires
            i < 8,
        ensures
            r == Rank::of(i as int),
            r.ord() == i,
    {
        if i == 0 {
            Rank::R1
        } else if i == 1 {
            Rank::R2
        } else if i == 2 {
            Rank::R3
        } else if i == 3 {
            Rank::R4
        } else if i == 4 {
            Rank::R5
        } else if i == 5 {
            Rank::R6
        } else if i == 6 {
            Rank::R7
        } else {
            Rank::R8
        }
    }
}

impl File {
    /// Number of the file, counted from 0 for file A.
    pub open spec fn ord(self) -> int {
        match self {
            File::A => 0,
            File::B => 1,
            File::C => 2,
            File::D => 3,
            File::E => 4,
            File::F => 5,
            File::G => 6,
            File::H => 7,
        }
    }

    /// The file with the given number, file H for any number above 6.
    pub open spec fn of(i: int) -> File {
        if i <= 0 {
            File::A
        } else if i == 1 {
            File::B
        } else if i == 2 {
            File::C
        } else if i == 3 {
            File::D
        } else if i == 4 {
            File::E
        } else if i == 5 {
            File::F
        } else if i == 6 {
            File::G
        } else {
            File::H
        }
    }

    /// The file that a lower-case letter from `a` to `h` names.
    pub open spec fn of_letter(c: char) -> Option<File> {
        if 'a' <= c <= 'h' {
            Some(File::of(c as int - 'a' as int))
        } else {
            None
        }
    }

    /// The lower-case letter that names the file.
    pub open spec fn letter(self) -> char {
        match self {
            File::A => 'a',
            File::B => 'b',
            File::C => 'c',
            File::D => 'd',
            File::E => 'e',
            File::F => 'f',
            File::G => 'g',
            File::H => 'h',
        }
    }

    /// Number of the file, counted from 0 for file A.
    pub fn index(self) -> (i: u8)
        ensures
            i == self.ord(),
            i < 8,
    {
        match self {
            File::A => 0,
            File::B => 1,
            File::C => 2,
            File::D => 3,
            File::E => 4,
            File::F => 5,
            File::G => 6,
            File::H => 7,
        }
    }

    /// The file with number `i`.
    pub fn from_index(i: u8) -> (f: File)
        requires
            i < 8,
        ensures
            f == File::of(i as int),
            f.ord() == i,
    {
        if i == 0 {
            File::A
        } else if i == 1 {
            File::B
        } else if i == 2 {
            File::C
        } else if i == 3 {
            File::D
        } else if i == 4 {
            File::E
        } else if i == 5 {
            File::F
        } else if i == 6 {
            File::G
        } else {
            File::H
        }
    }

    /// The file that the letter `c` names, if it is one of `a` to `h`.
    pub fn from_char(c: char) -> (f: Option<File>)
        ensures
            f == File::of_letter(c),
    {
        match c {
            'a' => Some(File::A),
            'b' => Some(File::B),
            'c' => Some(File::C),
            'd' => Some(File::D),
            'e' => Some(File::E),
            'f' => Some(File::F),
            'g' => Some(File::G),
            'h' => Some(File::H),
            _ => None,
        }
    }
}

/// A file and its number name each other, and so do a file and its letter.
pub proof fn lemma_file_round_trip(f: File)
    ensures
        File::of(f.ord()) == f,
        File::of_letter(f.letter()) == Some(f),
        0 <= f.ord() < 8,
{
}

/// A rank and its number name each other.
pub proof fn lemma_rank_round_trip(r: Rank)
    ensures
        Rank::of(r.ord()) == r,
        0 <= r.ord() < 8,
{
}

} // verus!
