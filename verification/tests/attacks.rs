use bitboard_chess::api::Square;
use bitboard_chess::api::PieceState;
use bitboard_chess::attacks::{
    attack_table, bishop_attacks, destinations, direction_to_move, king_attacks, knight_attacks, pawn_attacks,
    pawn_pushes, piece_attacks, queen_attacks, ray_attacks, rook_attacks, step, Direction,
};
use bitboard_chess::bitboard::Bitboard;
use bitboard_chess::board::BbPieceState;
use bitboard_chess::enums::{File, Piece, Rank, Side};
use bitboard_chess::fen::parse_fen;

fn sq(r: Rank, f: File) -> Square {
    Square::from_rank_file(r, f)
}

fn set(squares: &[Square]) -> u64 {
    let mut v = 0u64;
    for s in squares {
        v |= 1u64 << s.v;
    }
    v
}

const DIRECTIONS: [Direction; 8] = [
    Direction::N,
    Direction::NE,
    Direction::E,
    Direction::SE,
    Direction::S,
    Direction::SW,
    Direction::W,
    Direction::NW,
];

fn steps_of(d: Direction) -> (i32, i32) {
    match d {
        Direction::N => (1, 0),
        Direction::NE => (1, 1),
        Direction::E => (0, 1),
        Direction::SE => (-1, 1),
        Direction::S => (-1, 0),
        Direction::SW => (-1, -1),
        Direction::W => (0, -1),
        Direction::NW => (1, -1),
        Direction::Equal => (0, 0),
    }
}

#[test]
fn direction_deltas() {
    assert_eq!(Direction::N.delta(), 8);
    assert_eq!(Direction::NE.delta(), 9);
    assert_eq!(Direction::E.delta(), 1);
    assert_eq!(Direction::SE.delta(), -7);
    assert_eq!(Direction::S.delta(), -8);
    assert_eq!(Direction::SW.delta(), -9);
    assert_eq!(Direction::W.delta(), -1);
    assert_eq!(Direction::NW.delta(), 7);
    assert_eq!(Direction::Equal.delta(), 0);
    for d in DIRECTIONS {
        assert_eq!(d.opposite().delta(), -d.delta());
        assert_eq!(d.opposite().opposite(), d);
    }
}

#[test]
fn step_east_from_file_h_leaves_the_board() {
    let h4 = Bitboard::get_coord(sq(Rank::R4, File::H));
    assert_eq!(step(h4, Direction::E).v, 0);
    assert_eq!(step(h4, Direction::NE).v, 0);
    assert_eq!(step(h4, Direction::SE).v, 0);
    assert_eq!(step(h4, Direction::W).v, set(&[sq(Rank::R4, File::G)]));
    let a4 = Bitboard::get_coord(sq(Rank::R4, File::A));
    assert_eq!(step(a4, Direction::W).v, 0);
    assert_eq!(step(a4, Direction::NW).v, 0);
    assert_eq!(step(a4, Direction::SW).v, 0);
    assert_eq!(step(a4, Direction::N).v, set(&[sq(Rank::R5, File::A)]));
    assert_eq!(step(a4, Direction::Equal).v, a4.v);
}

#[test]
fn step_agrees_with_rank_and_file_arithmetic() {
    for v in 0u8..64 {
        for d in DIRECTIONS {
            let (dr, df) = steps_of(d);
            let r = (v / 8) as i32 + dr;
            let f = (v % 8) as i32 + df;
            let expected = if (0..8).contains(&r) && (0..8).contains(&f) {
                1u64 << (r * 8 + f)
            } else {
                0
            };
            assert_eq!(step(Bitboard::new(1u64 << v), d).v, expected);
        }
    }
}

#[test]
fn rook_on_an_empty_board() {
    let d4 = sq(Rank::R4, File::D);
    let attacked = rook_attacks(d4, Bitboard::empty());
    let expected = (0x0808_0808_0808_0808u64 | 0xff00_0000) & !(1u64 << d4.v);
    assert_eq!(attacked.v, expected);
    assert_eq!(attacked.count_bits(), 14);
}

#[test]
fn rook_ray_stops_at_the_first_blocker() {
    let a1 = sq(Rank::R1, File::A);
    let occupied = Bitboard::new(set(&[
        sq(Rank::R1, File::D),
        sq(Rank::R1, File::F),
        sq(Rank::R3, File::A),
    ]));
    let attacked = rook_attacks(a1, occupied);
    assert_eq!(
        attacked.v,
        set(&[
            sq(Rank::R1, File::B),
            sq(Rank::R1, File::C),
            sq(Rank::R1, File::D),
            sq(Rank::R2, File::A),
            sq(Rank::R3, File::A),
        ])
    );
}

#[test]
fn rook_ray_does_not_wrap_round_the_board() {
    let h1 = sq(Rank::R1, File::H);
    let east = ray_attacks(h1, Direction::E, Bitboard::empty());
    assert_eq!(east.v, 0);
    let h4 = sq(Rank::R4, File::H);
    let attacked = rook_attacks(h4, Bitboard::empty());
    assert!(!attacked.contains(sq(Rank::R5, File::A)));
    assert!(!attacked.contains(sq(Rank::R3, File::A)));
    assert_eq!(attacked.count_bits(), 14);
    for v in 0u8..64 {
        let attacked = rook_attacks(Square::new(v), Bitboard::empty());
        for t in 0u8..64 {
            if attacked.contains(Square::new(t)) {
                assert!(t / 8 == v / 8 || t % 8 == v % 8);
                assert!(t != v);
            }
        }
    }
}

#[test]
fn ray_agrees_with_a_walk_over_the_squares() {
    let occupied = Bitboard::new(0x0042_2400_1800_4281);
    for v in 0u8..64 {
        for d in DIRECTIONS {
            let (dr, df) = steps_of(d);
            let mut expected = 0u64;
            let mut r = (v / 8) as i32 + dr;
            let mut f = (v % 8) as i32 + df;
            while (0..8).contains(&r) && (0..8).contains(&f) {
                let t = (r * 8 + f) as u8;
                expected |= 1u64 << t;
                if occupied.contains(Square::new(t)) {
                    break;
                }
                r += dr;
                f += df;
            }
            assert_eq!(ray_attacks(Square::new(v), d, occupied).v, expected);
        }
        assert_eq!(
            ray_attacks(Square::new(v), Direction::Equal, occupied).v,
            0
        );
    }
}

#[test]
fn bishop_and_queen_attacks() {
    let c1 = sq(Rank::R1, File::C);
    let occupied = Bitboard::new(set(&[sq(Rank::R3, File::E), sq(Rank::R2, File::B)]));
    let bishop = bishop_attacks(c1, occupied);
    assert_eq!(
        bishop.v,
        set(&[
            sq(Rank::R2, File::D),
            sq(Rank::R3, File::E),
            sq(Rank::R2, File::B),
        ])
    );
    let queen = queen_attacks(c1, occupied);
    assert_eq!(queen.v, bishop.v | rook_attacks(c1, occupied).v);
    assert_eq!(
        bishop_attacks(sq(Rank::R4, File::D), Bitboard::empty()).count_bits(),
        13
    );
    assert_eq!(
        queen_attacks(sq(Rank::R4, File::D), Bitboard::empty()).count_bits(),
        27
    );
}

#[test]
fn king_attacks_in_the_corner_and_in_the_middle() {
    assert_eq!(
        king_attacks(sq(Rank::R1, File::A)).v,
        set(&[
            sq(Rank::R1, File::B),
            sq(Rank::R2, File::A),
            sq(Rank::R2, File::B),
        ])
    );
    assert_eq!(king_attacks(sq(Rank::R4, File::E)).count_bits(), 8);
    assert_eq!(king_attacks(sq(Rank::R8, File::H)).count_bits(), 3);
    assert_eq!(king_attacks(sq(Rank::R1, File::E)).count_bits(), 5);
}

#[test]
fn knight_attacks_in_the_corner_and_in_the_middle() {
    assert_eq!(
        knight_attacks(sq(Rank::R1, File::A)).v,
        set(&[sq(Rank::R2, File::C), sq(Rank::R3, File::B)])
    );
    assert_eq!(
        knight_attacks(sq(Rank::R1, File::G)).v,
        set(&[
            sq(Rank::R2, File::E),
            sq(Rank::R3, File::F),
            sq(Rank::R3, File::H),
        ])
    );
    assert_eq!(knight_attacks(sq(Rank::R4, File::D)).count_bits(), 8);
    assert_eq!(knight_attacks(sq(Rank::R8, File::H)).count_bits(), 2);
}

#[test]
fn pawn_attacks_by_side() {
    assert_eq!(
        pawn_attacks(Side::White, sq(Rank::R2, File::E)).v,
        set(&[sq(Rank::R3, File::D), sq(Rank::R3, File::F)])
    );
    assert_eq!(
        pawn_attacks(Side::Black, sq(Rank::R7, File::E)).v,
        set(&[sq(Rank::R6, File::D), sq(Rank::R6, File::F)])
    );
    assert_eq!(
        pawn_attacks(Side::White, sq(Rank::R2, File::A)).v,
        set(&[sq(Rank::R3, File::B)])
    );
    assert_eq!(
        pawn_attacks(Side::Black, sq(Rank::R7, File::H)).v,
        set(&[sq(Rank::R6, File::G)])
    );
    assert_eq!(pawn_attacks(Side::White, sq(Rank::R8, File::D)).v, 0);
    assert_eq!(pawn_attacks(Side::Black, sq(Rank::R1, File::D)).v, 0);
}

#[test]
fn compass_steps() {
    let d4 = sq(Rank::R4, File::D);
    assert_eq!(
        direction_to_move((d4, Direction::N, 4)),
        Some(sq(Rank::R8, File::D))
    );
    assert_eq!(direction_to_move((d4, Direction::N, 5)), None);
    assert_eq!(
        direction_to_move((d4, Direction::SW, 3)),
        Some(sq(Rank::R1, File::A))
    );
    assert_eq!(direction_to_move((d4, Direction::SW, 4)), None);
    assert_eq!(
        direction_to_move((d4, Direction::E, 4)),
        Some(sq(Rank::R4, File::H))
    );
    assert_eq!(direction_to_move((d4, Direction::E, 5)), None);
    assert_eq!(direction_to_move((d4, Direction::E, 200)), None);
    assert_eq!(direction_to_move((d4, Direction::Equal, 3)), Some(d4));
    assert_eq!(direction_to_move((d4, Direction::Equal, 200)), Some(d4));
    assert_eq!(direction_to_move((d4, Direction::NW, 0)), Some(d4));
}

#[test]
fn pawn_pushes_by_side() {
    let none = Bitboard::empty();
    assert_eq!(
        pawn_pushes(Side::White, sq(Rank::R2, File::E), none).v,
        set(&[sq(Rank::R3, File::E), sq(Rank::R4, File::E)])
    );
    assert_eq!(
        pawn_pushes(Side::White, sq(Rank::R3, File::E), none).v,
        set(&[sq(Rank::R4, File::E)])
    );
    assert_eq!(
        pawn_pushes(Side::Black, sq(Rank::R7, File::A), none).v,
        set(&[sq(Rank::R6, File::A), sq(Rank::R5, File::A)])
    );
    assert_eq!(
        pawn_pushes(Side::Black, sq(Rank::R2, File::H), none).v,
        set(&[sq(Rank::R1, File::H)])
    );
    let ahead = Bitboard::get_coord(sq(Rank::R3, File::E));
    assert_eq!(pawn_pushes(Side::White, sq(Rank::R2, File::E), ahead).v, 0);
    let beyond = Bitboard::get_coord(sq(Rank::R4, File::E));
    assert_eq!(
        pawn_pushes(Side::White, sq(Rank::R2, File::E), beyond).v,
        set(&[sq(Rank::R3, File::E)])
    );
    assert_eq!(pawn_pushes(Side::White, sq(Rank::R8, File::E), none).v, 0);
    assert_eq!(pawn_pushes(Side::Black, sq(Rank::R1, File::E), none).v, 0);
}

#[test]
fn piece_attacks_by_kind() {
    let d4 = sq(Rank::R4, File::D);
    let none = Bitboard::empty();
    assert_eq!(
        piece_attacks(Side::White, Piece::R, d4, none),
        rook_attacks(d4, none)
    );
    assert_eq!(
        piece_attacks(Side::White, Piece::B, d4, none),
        bishop_attacks(d4, none)
    );
    assert_eq!(
        piece_attacks(Side::Black, Piece::Q, d4, none),
        queen_attacks(d4, none)
    );
    assert_eq!(piece_attacks(Side::Black, Piece::N, d4, none), knight_attacks(d4));
    assert_eq!(piece_attacks(Side::Black, Piece::K, d4, none), king_attacks(d4));
    assert_eq!(
        piece_attacks(Side::Black, Piece::P, d4, none),
        pawn_attacks(Side::Black, d4)
    );
}

#[test]
fn destinations_at_the_start() {
    let start = BbPieceState::start();
    assert_eq!(destinations(&start, sq(Rank::R1, File::A)).v, 0);
    assert_eq!(destinations(&start, sq(Rank::R4, File::A)).v, 0);
    assert_eq!(
        destinations(&start, sq(Rank::R1, File::B)).v,
        set(&[sq(Rank::R3, File::A), sq(Rank::R3, File::C)])
    );
    assert_eq!(
        destinations(&start, sq(Rank::R2, File::E)).v,
        set(&[sq(Rank::R3, File::E), sq(Rank::R4, File::E)])
    );
    assert_eq!(
        destinations(&start, sq(Rank::R7, File::E)).v,
        set(&[sq(Rank::R6, File::E), sq(Rank::R5, File::E)])
    );
}

#[test]
fn ray_holds_the_blocker_only_as_a_capture() {
    let ps = parse_fen("4k3/8/8/8/8/p7/8/R2NK3 w - - 0 1".to_string())
        .unwrap()
        .pieces;
    let rook = sq(Rank::R1, File::A);
    assert_eq!(
        rook_attacks(rook, ps.occupancy()).v,
        set(&[
            sq(Rank::R2, File::A),
            sq(Rank::R3, File::A),
            sq(Rank::R1, File::B),
            sq(Rank::R1, File::C),
            sq(Rank::R1, File::D),
        ])
    );
    assert_eq!(
        destinations(&ps, rook).v,
        set(&[
            sq(Rank::R2, File::A),
            sq(Rank::R3, File::A),
            sq(Rank::R1, File::B),
            sq(Rank::R1, File::C),
        ])
    );
}

#[test]
fn pawn_captures_only_pieces_of_the_other_side() {
    let ps = parse_fen("4k3/8/8/8/8/3p1P2/4P3/4K3 w - - 0 1".to_string())
        .unwrap()
        .pieces;
    assert_eq!(
        destinations(&ps, sq(Rank::R2, File::E)).v,
        set(&[
            sq(Rank::R3, File::E),
            sq(Rank::R4, File::E),
            sq(Rank::R3, File::D),
        ])
    );
    assert_eq!(ps.side_occupancy(Side::White).v, set(&[
        sq(Rank::R1, File::E),
        sq(Rank::R2, File::E),
        sq(Rank::R3, File::F),
    ]));
    assert_eq!(ps.side_occupancy(Side::Black).v, set(&[
        sq(Rank::R8, File::E),
        sq(Rank::R3, File::D),
    ]));
}

#[test]
fn tables_hold_the_attacks_on_an_empty_board() {
    let knights = attack_table(Side::White, Piece::N);
    let kings = attack_table(Side::Black, Piece::K);
    let pawns = attack_table(Side::Black, Piece::P);
    let rooks = attack_table(Side::White, Piece::R);
    for v in 0u8..64 {
        let s = Square::new(v);
        assert_eq!(knights[v as usize], knight_attacks(s));
        assert_eq!(kings[v as usize], king_attacks(s));
        assert_eq!(pawns[v as usize], pawn_attacks(Side::Black, s));
        assert_eq!(rooks[v as usize], rook_attacks(s, Bitboard::empty()));
        assert_eq!(rooks[v as usize].count_bits(), 14);
    }
    assert_eq!(knights[0].v, (1 << 10) | (1 << 17));
}

#[test]
fn destinations_leave_out_the_square_of_the_other_king() {
    let ps = parse_fen("4k3/8/8/8/8/8/8/4R2K w - - 0 1".to_string())
        .unwrap()
        .pieces;
    let rook = sq(Rank::R1, File::E);
    assert!(rook_attacks(rook, ps.occupancy()).contains(sq(Rank::R8, File::E)));
    let targets = destinations(&ps, rook);
    assert!(!targets.contains(sq(Rank::R8, File::E)));
    assert!(targets.contains(sq(Rank::R7, File::E)));
    assert!(!targets.contains(sq(Rank::R1, File::H)));
    assert!(targets.contains(sq(Rank::R1, File::G)));
}
