use chess::bitboard::{Bitboard, Direction, Square};
use chess::constants::{
    castle_masks, generate_files, generate_main_diags, generate_ranks, generate_second_diags,
    generate_slide_horizontal, generate_slide_main_diagonal, generate_slide_second_diagonal,
    generate_slide_vertical, king_moves, knight_moves, pawn_attacks, Line, Tables,
};
use chess::pieces::{Piece, Pieces};
use chess::position::{
    between, bishop_attack, intersects, king_attack, knight_attack, pawn_attack, queen_attack,
    rook_attack,
};
use chess::repr::{CastlingRights, Color, Colored};

fn mask(cells: &[Square]) -> u64 {
    cells.iter().fold(0, |m, sq| m | (1u64 << sq.index()))
}

#[test]
fn bitboard_sets_and_clears_cells() {
    let mut b = Bitboard::empty();
    assert_eq!(b, Bitboard(0));
    b.set(Square::C3);
    b.set(Square::H8);
    assert!(b.at(Square::C3) && b.at(Square::H8) && !b.at(Square::A1));
    assert_eq!(b.count(), 2);
    b.unset(Square::C3);
    assert_eq!(b, Bitboard(1 << 63));
    assert_eq!(Bitboard::full(), Bitboard(u64::MAX));
    assert_eq!(Bitboard::full().count(), 64);
    assert_eq!(Square::D2.to_bitboard(), Bitboard(1 << 11));
}

#[test]
fn bitboard_hands_out_its_cells_in_order() {
    let mut cells = Bitboard(mask(&[Square::H8, Square::A1, Square::D4])).squares();
    assert_eq!(cells.next(), Some(Square::A1));
    assert_eq!(cells.next(), Some(Square::D4));
    assert_eq!(cells.next(), Some(Square::H8));
    assert_eq!(cells.next(), None);
    assert_eq!(cells.next(), None);
}

#[test]
fn bitboard_flips_at_the_diagonal() {
    assert_eq!(
        Bitboard(mask(&[Square::B1, Square::H3])).flip_diagonal(),
        Bitboard(mask(&[Square::A2, Square::C8]))
    );
    assert_eq!(Bitboard(0xFF).flip_diagonal(), Bitboard(0x0101010101010101));
}

#[test]
fn rays_end_at_the_edge() {
    let mut ray = Square::F1.ray(Direction::UpRight);
    assert_eq!(ray.next(), Some(Square::G2));
    assert_eq!(ray.next(), Some(Square::H3));
    assert_eq!(ray.next(), None);
    assert_eq!(ray.next(), None);
    assert_eq!(Square::A4.step(Direction::Left), None);
    assert_eq!(Square::A4.step(Direction::UpLeft), None);
    assert_eq!(Square::A4.step(Direction::Up), Some(Square::A5));
    assert_eq!(Square::H8.step(Direction::Right), None);
    assert_eq!(Square::E4.step(Direction::DownLeft), Some(Square::D3));
    assert_eq!(Direction::Up.delta(), 8);
    assert_eq!(Direction::UpRight.delta(), 9);
    assert_eq!(Direction::Right.delta(), 1);
    assert_eq!(Direction::DownRight.delta(), -7);
    assert_eq!(Direction::Down.delta(), -8);
    assert_eq!(Direction::DownLeft.delta(), -9);
    assert_eq!(Direction::Left.delta(), -1);
    assert_eq!(Direction::UpLeft.delta(), 7);
    assert_eq!(Direction::pawn(Color::White), Direction::Up);
    assert_eq!(Direction::pawn(Color::Black), Direction::Down);
}

#[test]
fn line_masks() {
    assert_eq!(Line::Rank.line(0), Bitboard(0xFF));
    assert_eq!(Line::Rank.line(7), Bitboard(0xFF00000000000000));
    assert_eq!(Line::File.line(0), Bitboard(0x0101010101010101));
    assert_eq!(Line::File.line(7), Bitboard(0x8080808080808080));
    assert_eq!(Line::MainDiag.line(0), Bitboard(0x0000000000000001));
    assert_eq!(Line::MainDiag.line(3), Bitboard(0x0000000001020408));
    assert_eq!(Line::MainDiag.line(7), Bitboard(0x0102040810204080));
    assert_eq!(Line::MainDiag.line(11), Bitboard(0x1020408000000000));
    assert_eq!(Line::MainDiag.line(14), Bitboard(0x8000000000000000));
    assert_eq!(Line::SecondDiag.line(0), Bitboard(0x0100000000000000));
    assert_eq!(Line::SecondDiag.line(5), Bitboard(0x2010080402010000));
    assert_eq!(Line::SecondDiag.line(7), Bitboard(0x8040201008040201));
    assert_eq!(Line::SecondDiag.line(10), Bitboard(0x0000008040201008));
    assert_eq!(Line::SecondDiag.line(14), Bitboard(0x0000000000000080));
    assert_eq!(Line::MainDiag.index(Square::C2), 3);
    assert_eq!(Line::SecondDiag.index(Square::C2), 8);
    assert_eq!(Line::Rank.cross(), Line::File);
    assert_eq!(Line::MainDiag.cross(), Line::SecondDiag);
}

#[test]
fn knight_king_and_pawn_tables() {
    let knights = knight_moves();
    assert_eq!(knights.len(), 64);
    assert_eq!(knights[0], Bitboard(mask(&[Square::B3, Square::C2])));
    assert_eq!(knights[63], Bitboard(mask(&[Square::G6, Square::F7])));
    assert_eq!(
        knights[Square::D4.index() as usize],
        Bitboard(mask(&[
            Square::B3,
            Square::B5,
            Square::C2,
            Square::C6,
            Square::E2,
            Square::E6,
            Square::F3,
            Square::F5
        ]))
    );
    let kings = king_moves();
    assert_eq!(kings[0], Bitboard(mask(&[Square::A2, Square::B1, Square::B2])));
    assert_eq!(kings[63], Bitboard(mask(&[Square::G8, Square::G7, Square::H7])));
    assert_eq!(kings[Square::H4.index() as usize].count(), 5);
    let pawns = pawn_attacks();
    assert_eq!(pawns.0[Square::A2.index() as usize], Bitboard(mask(&[Square::B3])));
    assert_eq!(
        pawns.0[Square::E4.index() as usize],
        Bitboard(mask(&[Square::D5, Square::F5]))
    );
    assert_eq!(pawns.0[Square::E8.index() as usize], Bitboard(0));
    assert_eq!(pawns.1[Square::H7.index() as usize], Bitboard(mask(&[Square::G6])));
    assert_eq!(pawns.1[Square::C1.index() as usize], Bitboard(0));
}

#[test]
fn slide_tables_hold_attacks_and_cells_behind_the_first_blocker() {
    let horizontal = generate_slide_horizontal();
    assert_eq!(horizontal.len(), 64 * 256);
    let d1 = Square::D1.index() as usize;
    let empty = horizontal[d1 * 256];
    assert_eq!(empty.0, Bitboard(0xF7));
    assert_eq!(empty.1, Bitboard(0));
    let blocked = horizontal[d1 * 256 + 0b0100_0010];
    assert_eq!(
        blocked.0,
        Bitboard(mask(&[Square::B1, Square::C1, Square::E1, Square::F1, Square::G1]))
    );
    assert_eq!(blocked.1, Bitboard(mask(&[Square::A1, Square::H1])));
    assert_eq!(horizontal[d1 * 256 + 0b0100_1010], blocked);
    let two = horizontal[d1 * 256 + 0b1110_0000];
    assert_eq!(
        two.0,
        Bitboard(mask(&[Square::A1, Square::B1, Square::C1, Square::E1, Square::F1]))
    );
    assert_eq!(two.1, Bitboard(mask(&[Square::G1])));
    let vertical = generate_slide_vertical();
    let a4 = Square::A4.index() as usize;
    assert_eq!(
        vertical[a4 * 256 + 0b0100_0010].0,
        Bitboard(mask(&[Square::A2, Square::A3, Square::A5, Square::A6, Square::A7]))
    );
    let main = generate_slide_main_diagonal();
    let e4 = Square::E4.index() as usize;
    assert_eq!(
        main[e4 * 256].0,
        Bitboard(mask(&[
            Square::H1,
            Square::G2,
            Square::F3,
            Square::D5,
            Square::C6,
            Square::B7,
            Square::A8
        ]))
    );
    let second = generate_slide_second_diagonal();
    assert_eq!(
        second[e4 * 256 + 0b0010_0000].0,
        Bitboard(mask(&[Square::B1, Square::C2, Square::D3, Square::F5, Square::G6]))
    );
    assert_eq!(second[e4 * 256 + 0b0010_0000].1, Bitboard(mask(&[Square::H7])));
}

#[test]
fn between_tables_hold_unions_of_lines() {
    let files = generate_files();
    assert_eq!(files[2 * 16 + 4], Bitboard(0x1C1C1C1C1C1C1C1C));
    assert_eq!(files[4 * 16 + 2], Bitboard(0x1C1C1C1C1C1C1C1C));
    assert_eq!(files[3 * 16 + 3], Bitboard(0x0808080808080808));
    let ranks = generate_ranks();
    assert_eq!(ranks[0 * 16 + 1], Bitboard(0xFFFF));
    let main = generate_main_diags();
    assert_eq!(main[0 * 16 + 1], Bitboard(0x0103));
    assert_eq!(main.len(), 240);
    let second = generate_second_diags();
    assert_eq!(second[14 * 16 + 13], Bitboard(0x80C0));
}

#[test]
fn lookups_follow_the_occupied_cells() {
    let tables = Tables::new();
    let occupied = Bitboard(mask(&[Square::D4, Square::D6, Square::B4, Square::F6, Square::G7]));
    assert_eq!(
        rook_attack(&tables, occupied, Square::D4),
        Bitboard(mask(&[
            Square::D1,
            Square::D2,
            Square::D3,
            Square::D5,
            Square::D6,
            Square::C4,
            Square::B4,
            Square::E4,
            Square::F4,
            Square::G4,
            Square::H4
        ]))
    );
    assert_eq!(
        bishop_attack(&tables, occupied, Square::D4),
        Bitboard(mask(&[
            Square::A1,
            Square::B2,
            Square::C3,
            Square::E5,
            Square::F6,
            Square::G1,
            Square::F2,
            Square::E3,
            Square::C5,
            Square::B6,
            Square::A7
        ]))
    );
    assert_eq!(
        queen_attack(&tables, occupied, Square::D4).0,
        rook_attack(&tables, occupied, Square::D4).0 | bishop_attack(&tables, occupied, Square::D4).0
    );
    assert_eq!(
        tables.slide(Line::SecondDiag, Square::D4, occupied).1,
        Bitboard(mask(&[Square::G7]))
    );
    assert_eq!(
        knight_attack(&tables, Square::H1),
        Bitboard(mask(&[Square::F2, Square::G3]))
    );
    assert_eq!(
        king_attack(&tables, Square::H8),
        Bitboard(mask(&[Square::G8, Square::G7, Square::H7]))
    );
    assert_eq!(
        pawn_attack(&tables, Color::Black, Square::E5),
        Bitboard(mask(&[Square::D4, Square::F4]))
    );
    assert_eq!(
        tables.between(Line::File, Square::B3, Square::D7),
        Bitboard(0x0E0E0E0E0E0E0E0E)
    );
}

#[test]
fn castling_masks() {
    assert_eq!(castle_masks(Color::White), (0x70, 0x60, 0x1C, 0x0E));
    assert_eq!(
        castle_masks(Color::Black),
        (0x70 << 56, 0x60 << 56, 0x1C << 56, 0x0E << 56)
    );
}

#[test]
fn pieces_of_one_side() {
    let mut pieces = Pieces::empty();
    assert_eq!(pieces.occupied(), Bitboard(0));
    assert_eq!(pieces.unoccupied(), Bitboard(u64::MAX));
    pieces.drop(Piece::Rook, Square::A1);
    pieces.drop(Piece::King, Square::E1);
    assert_eq!(pieces.at(Square::A1), Some(Piece::Rook));
    assert_eq!(pieces.at(Square::E1), Some(Piece::King));
    assert_eq!(pieces.at(Square::E2), None);
    assert_eq!(pieces.get(Piece::Rook), Bitboard(1));
    assert_eq!(pieces.occupied(), Bitboard(0x11));
    pieces.lift(Piece::Rook, Square::A1);
    assert_eq!(pieces.at(Square::A1), None);
    pieces.put(Piece::Queen, Bitboard(0x10));
    assert_eq!(pieces.at(Square::E1), Some(Piece::Queen));
    pieces.unset(Square::E1);
    assert_eq!(pieces, Pieces::empty());
    let rights = CastlingRights::new(true, false);
    assert!(rights.kingside && !rights.queenside);
    let mut pair = Colored(1, 2);
    assert_eq!(*pair.get(Color::White), 1);
    assert_eq!(*pair.get(Color::Black), 2);
    pair.put(Color::Black, 5);
    assert_eq!(pair, Colored(1, 5));
}

#[test]
fn small_tests_on_masks_and_numbers() {
    assert!(intersects(Bitboard(0b0110), Bitboard(0b0100)));
    assert!(!intersects(Bitboard(0b0110), Bitboard(0b1001)));
    assert!(between(1, 2, 3) && between(3, 2, 1));
    assert!(!between(1, 1, 3) && !between(1, 3, 3) && !between(2, 5, 3));
}
