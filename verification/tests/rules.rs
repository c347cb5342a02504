use chess::bitboard::{Bitboard, Square};
use chess::constants::Tables;
use chess::pieces::Piece;
use chess::position::Position;
use chess::repr::{Color, Move};
use chess::Chessboard;

fn position(fen: &str) -> Position {
    Position::from_fen(fen).unwrap()
}

fn has(moves: &[Move], wanted: Move) -> bool {
    moves.iter().any(|m| *m == wanted)
}

#[test]
fn starting_position_has_twenty_moves() {
    let tables = Tables::new();
    let moves = Position::starting().legal_moves(&tables);
    assert_eq!(moves.len(), 20);
    assert!(has(&moves, Move::Normal(Square::E2, Square::E4, Piece::Pawn)));
    assert!(has(&moves, Move::Normal(Square::G1, Square::F3, Piece::Knight)));
    assert!(!has(&moves, Move::Normal(Square::E1, Square::E2, Piece::King)));
}

#[test]
fn perft_of_depth_zero_and_one() {
    let tables = Tables::new();
    assert_eq!(Position::starting().perft(&tables, 0), 1);
    assert_eq!(Position::starting().perft(&tables, 1), 20);
}

#[test]
fn no_moves_without_a_king() {
    let tables = Tables::new();
    let p = position("8/8/8/8/8/8/PPPPPPPP/RNBQ1BNR w - - 0 1");
    assert!(p.legal_moves(&tables).is_empty());
}

#[test]
fn no_legal_move_leaves_the_king_in_check() {
    let tables = Tables::new();
    let fens = [
        "r3k2r/p1ppqpb1/bn2pnp1/3PN3/1p2P3/2N2Q1p/PPPBBPPP/R3K2R w KQkq - 0 1",
        "8/2p5/3p4/KP5r/1R3p1k/8/4P1P1/8 w - - 0 1",
        "r3k2r/Pppp1ppp/1b3nbN/nP6/BBP1P3/q4N2/Pp1P2PP/R2Q1RK1 w kq - 0 1",
        "rnbq1k1r/pp1Pbppp/2p5/8/2B5/8/PPP1NnPP/RNBQK2R w KQ - 1 8",
        "4k3/8/8/8/1b6/8/3N4/4K3 w - - 0 1",
        "4k3/8/8/8/8/8/4q3/4K3 w - - 0 1",
    ];
    for fen in fens {
        let p = position(fen);
        for m in p.legal_moves(&tables) {
            let next = p.make_move(m);
            assert!(!next.board.in_check(&tables, p.turn));
            for reply in next.legal_moves(&tables) {
                assert!(!next.make_move(reply).board.in_check(&tables, next.turn));
            }
        }
    }
}

#[test]
fn checkmate_has_no_moves_and_a_check() {
    let tables = Tables::new();
    let p = position("rnb1kbnr/pppp1ppp/8/4p3/6Pq/5P2/PPPPP2P/RNBQKBNR w KQkq - 1 3");
    assert!(p.in_check(&tables));
    assert!(p.legal_moves(&tables).is_empty());
    let board = Chessboard::new(p);
    assert_eq!(board.game_result(&tables), Some(Some(Color::Black)));
}

#[test]
fn stalemate_has_no_moves_and_no_check() {
    let tables = Tables::new();
    let p = position("7k/5Q2/6K1/8/8/8/8/8 b - - 0 1");
    assert!(!p.in_check(&tables));
    assert!(p.legal_moves(&tables).is_empty());
    let board = Chessboard::new(p);
    assert_eq!(board.game_result(&tables), Some(None));
    assert_eq!(Chessboard::starting().game_result(&tables), None);
}

#[test]
fn double_check_leaves_only_king_moves() {
    let tables = Tables::new();
    let p = position("4k3/8/5N2/8/8/8/8/4RK2 b - - 0 1");
    let moves = p.legal_moves(&tables);
    assert!(!moves.is_empty());
    for m in moves {
        assert!(matches!(m, Move::Normal(Square::E8, _, Piece::King)));
    }
}

#[test]
fn pinned_piece_moves_only_along_the_pin() {
    let tables = Tables::new();
    let p = position("4k3/8/8/8/8/4r3/4R3/4K3 w - - 0 1");
    let moves = p.legal_moves(&tables);
    assert!(has(&moves, Move::Normal(Square::E2, Square::E3, Piece::Rook)));
    assert!(!has(&moves, Move::Normal(Square::E2, Square::D2, Piece::Rook)));
    let knight = position("4k3/8/8/8/8/4r3/4N3/4K3 w - - 0 1");
    for m in knight.legal_moves(&tables) {
        assert!(!matches!(m, Move::Normal(_, _, Piece::Knight)));
    }
}

#[test]
fn castling_needs_empty_and_unattacked_cells() {
    let tables = Tables::new();
    let free = position("4k3/8/8/8/8/8/8/R3K2R w KQ - 0 1");
    let moves = free.legal_moves(&tables);
    assert!(has(&moves, Move::KingsideCastle));
    assert!(has(&moves, Move::QueensideCastle));
    let blocked = position("4k3/8/8/8/8/8/8/RN2K1NR w KQ - 0 1");
    let moves = blocked.legal_moves(&tables);
    assert!(!has(&moves, Move::KingsideCastle));
    assert!(!has(&moves, Move::QueensideCastle));
    let attacked = position("4k3/8/8/8/8/8/3r1r2/R3K2R w KQ - 0 1");
    let moves = attacked.legal_moves(&tables);
    assert!(!has(&moves, Move::KingsideCastle));
    assert!(!has(&moves, Move::QueensideCastle));
    let no_right = position("4k3/8/8/8/8/8/8/R3K2R w - - 0 1");
    let moves = no_right.legal_moves(&tables);
    assert!(!has(&moves, Move::KingsideCastle));
    assert!(!has(&moves, Move::QueensideCastle));
    let knight_file_attacked = position("4k3/8/8/8/8/8/1r6/R3K2R w KQ - 0 1");
    assert!(has(&knight_file_attacked.legal_moves(&tables), Move::QueensideCastle));
}

#[test]
fn castling_moves_king_and_rook() {
    let p = position("r3k2r/8/8/8/8/8/8/R3K2R w KQkq - 3 1");
    let short = p.make_move(Move::KingsideCastle);
    assert!(short.board.0.kings.at(Square::G1));
    assert!(short.board.0.rooks.at(Square::F1));
    assert!(!short.board.0.rooks.at(Square::H1));
    assert!(!short.castling_rights.0.kingside && !short.castling_rights.0.queenside);
    assert!(short.castling_rights.1.kingside && short.castling_rights.1.queenside);
    assert_eq!(short.turn, Color::Black);
    assert_eq!(short.half_moves, 4);
    let long = short.make_move(Move::QueensideCastle);
    assert!(long.board.1.kings.at(Square::C8));
    assert!(long.board.1.rooks.at(Square::D8));
    assert!(!long.board.1.rooks.at(Square::A8));
}

#[test]
fn en_passant_that_exposes_the_king_is_no_move() {
    let tables = Tables::new();
    let exposed = position("8/8/8/8/k2Pp2Q/8/8/3K4 b - d3 0 1");
    let moves = exposed.legal_moves(&tables);
    assert!(!has(&moves, Move::EnPassant(Square::E4, Square::D3)));
    let safe = position("8/8/8/8/3Pp3/8/k7/3K4 b - d3 0 1");
    let moves = safe.legal_moves(&tables);
    assert!(has(&moves, Move::EnPassant(Square::E4, Square::D3)));
}

#[test]
fn en_passant_takes_the_pawn_that_passed() {
    let p = position("4k3/8/8/8/3Pp3/8/8/4K3 b - d3 5 1");
    let next = p.make_move(Move::EnPassant(Square::E4, Square::D3));
    assert!(next.board.1.pawns.at(Square::D3));
    assert!(!next.board.1.pawns.at(Square::E4));
    assert_eq!(next.board.0.pawns, Bitboard(0));
    assert_eq!(next.half_moves, 0);
    assert_eq!(next.en_passant, None);
}

#[test]
fn double_step_sets_the_en_passant_cell() {
    let p = Position::starting();
    let next = p.make_move(Move::Normal(Square::E2, Square::E4, Piece::Pawn));
    assert_eq!(next.en_passant, Some(Square::E3));
    assert_eq!(next.half_moves, 0);
    assert_eq!(next.turn, Color::Black);
    let quiet = next.make_move(Move::Normal(Square::G8, Square::F6, Piece::Knight));
    assert_eq!(quiet.en_passant, None);
    assert_eq!(quiet.half_moves, 1);
}

#[test]
fn clock_stops_at_its_largest_value() {
    let p = position("4k3/8/8/8/8/8/8/4K2N w - - 65535 1");
    let next = p.make_move(Move::Normal(Square::H1, Square::G3, Piece::Knight));
    assert_eq!(next.half_moves, 65535);
}

#[test]
fn capture_removes_the_piece_and_resets_the_clock() {
    let p = position("4k3/8/8/3r4/8/4N3/8/4K3 w - - 7 1");
    let next = p.make_move(Move::Normal(Square::E3, Square::D5, Piece::Knight));
    assert_eq!(next.board.1.rooks, Bitboard(0));
    assert!(next.board.0.knights.at(Square::D5));
    assert_eq!(next.half_moves, 0);
}

#[test]
fn capturing_a_rook_at_home_takes_the_right_to_castle() {
    let p = position("r3k2r/8/8/8/8/8/6B1/4K3 w kq - 0 1");
    let next = p.make_move(Move::Normal(Square::G2, Square::A8, Piece::Bishop));
    assert!(next.castling_rights.1.kingside);
    assert!(!next.castling_rights.1.queenside);
}

#[test]
fn rook_and_king_moves_take_rights() {
    let p = position("4k3/8/8/8/8/8/8/R3K2R w KQ - 0 1");
    let rook = p.make_move(Move::Normal(Square::H1, Square::H5, Piece::Rook));
    assert!(!rook.castling_rights.0.kingside && rook.castling_rights.0.queenside);
    let far = position("4k2R/8/8/8/8/8/8/R3K2R w KQ - 0 1");
    let left = far.make_move(Move::Normal(Square::H8, Square::G8, Piece::Rook));
    assert!(left.castling_rights.0.kingside && left.castling_rights.0.queenside);
    let king = p.make_move(Move::Normal(Square::E1, Square::E2, Piece::King));
    assert!(!king.castling_rights.0.kingside && !king.castling_rights.0.queenside);
}

#[test]
fn promotion_puts_the_new_piece_on_the_board() {
    let tables = Tables::new();
    let p = position("3n4/4P3/8/8/8/8/k7/4K3 w - - 0 1");
    let moves = p.legal_moves(&tables);
    for to in [Piece::Queen, Piece::Rook, Piece::Bishop, Piece::Knight] {
        assert!(has(&moves, Move::Promotion(Square::E7, Square::E8, to)));
        assert!(has(&moves, Move::Promotion(Square::E7, Square::D8, to)));
    }
    assert!(!has(&moves, Move::Normal(Square::E7, Square::E8, Piece::Pawn)));
    let next = p.make_move(Move::Promotion(Square::E7, Square::D8, Piece::Queen));
    assert!(next.board.0.queens.at(Square::D8));
    assert_eq!(next.board.0.pawns, Bitboard(0));
    assert_eq!(next.board.1.knights, Bitboard(0));
}

#[test]
fn knights_out_and_back_restore_the_board() {
    let p = Position::starting();
    let back = p
        .make_move(Move::Normal(Square::G1, Square::F3, Piece::Knight))
        .make_move(Move::Normal(Square::B8, Square::C6, Piece::Knight))
        .make_move(Move::Normal(Square::F3, Square::G1, Piece::Knight))
        .make_move(Move::Normal(Square::C6, Square::B8, Piece::Knight));
    assert_eq!(back.board, p.board);
    assert_eq!(back.half_moves, 4);
    assert!(back == p);
}

#[test]
fn positions_are_equal_whatever_the_clock() {
    let a = position("4k3/8/8/8/8/8/8/4K3 w - - 0 1");
    let b = position("4k3/8/8/8/8/8/8/4K3 w - - 31 1");
    let c = position("4k3/8/8/8/8/8/8/4K3 b - - 0 1");
    assert!(a == b);
    assert!(a != c);
}

#[test]
fn history_links_back_to_the_start() {
    let start = Chessboard::starting();
    let one = start.make_move(Move::Normal(Square::E2, Square::E4, Piece::Pawn));
    let two = one.make_move(Move::Normal(Square::E7, Square::E5, Piece::Pawn));
    let copy = two.clone();
    let before = copy.previous.as_ref().unwrap();
    assert!(before.position == one.position);
    let first = before.previous.as_ref().unwrap();
    assert!(first.position == start.position);
    assert!(first.previous.is_none());
    assert_eq!(two.piece_at(Square::E5), Some(Piece::Pawn));
    assert_eq!(two.piece_at(Square::E7), None);
}

#[test]
fn board_reports_pieces_and_checks() {
    let tables = Tables::new();
    let p = position("4k3/8/8/8/8/8/4q3/4K3 w - - 0 1");
    assert!(p.board.in_check(&tables, Color::White));
    assert!(!p.board.in_check(&tables, Color::Black));
    assert_eq!(p.board.at(Square::E2), Some((Color::Black, Piece::Queen)));
    assert_eq!(p.board.at(Square::E1), Some((Color::White, Piece::King)));
    assert_eq!(p.board.at(Square::A1), None);
    assert_eq!(p.board.occupied(), Bitboard((1 << 4) | (1 << 12) | (1 << 60)));
    assert_eq!(
        p.board.unoccupied(),
        Bitboard(!((1 << 4) | (1 << 12) | (1 << 60)))
    );
    assert_eq!(
        Position::starting().board.unoccupied(),
        Bitboard(0x0000_FFFF_FFFF_0000)
    );
    let attacked = p.board.attacks(&tables, Color::Black);
    assert!(attacked.at(Square::E1));
    assert!(attacked.at(Square::A6));
    assert!(!attacked.at(Square::A1));
}

#[test]
fn positions_of_a_game_are_valid() {
    let tables = Tables::new();
    assert!(Position::starting().is_valid());
    assert!(Position::starting().board.is_tidy());
    let fens = [
        "r3k2r/p1ppqpb1/bn2pnp1/3PN3/1p2P3/2N2Q1p/PPPBBPPP/R3K2R w KQkq - 0 1",
        "rnbqkbnr/pppp1ppp/8/4p3/4P3/8/PPPP1PPP/RNBQKBNR w KQkq e6 0 2",
        "8/8/8/8/k2Pp2Q/8/8/3K4 b - d3 0 1",
    ];
    for fen in fens {
        let p = position(fen);
        assert!(p.is_valid());
        for m in p.legal_moves(&tables) {
            let next = p.make_move(m);
            assert!(next.is_valid());
            for reply in next.legal_moves(&tables) {
                assert!(next.make_move(reply).is_valid());
            }
        }
    }
}

#[test]
fn positions_that_are_none_of_a_game_are_not_valid() {
    let mut doubled = position("4k3/8/8/8/8/8/8/4K3 w - - 0 1");
    doubled.board.1.pawns = Bitboard(1 << 4);
    assert!(!doubled.is_valid());
    assert!(!doubled.board.is_tidy());
    let mut crowned = position("4k3/8/8/8/8/8/8/4K3 w - - 0 1");
    crowned.board.0.kings = Bitboard((1 << 4) | 1);
    assert!(!crowned.is_valid());
    assert!(!position("4k3/8/8/8/8/8/8/4K3 w K - 0 1").is_valid());
    assert!(!position("4k3/8/8/8/8/8/8/R2K4 w Q - 0 1").is_valid());
    assert!(position("4k3/8/8/8/8/8/8/R3K3 w Q - 0 1").is_valid());
    assert!(!position("4k3/8/8/8/8/8/8/4K3 w - e6 0 1").is_valid());
    assert!(!position("4k3/8/4n3/4p3/8/8/8/4K3 w - e6 0 1").is_valid());
    assert!(position("4k3/8/8/4p3/8/8/8/4K3 w - e6 0 1").is_valid());
    assert!(!position("4k3/8/8/4p3/8/8/8/4K3 b - e6 0 1").is_valid());
}

#[test]
fn positions_of_a_game_are_sound() {
    let tables = Tables::new();
    assert!(Position::starting().is_sound(&tables));
    let fens = [
        "r3k2r/p1ppqpb1/bn2pnp1/3PN3/1p2P3/2N2Q1p/PPPBBPPP/R3K2R w KQkq - 0 1",
        "rnbqkbnr/pppp1ppp/8/4p3/4P3/8/PPPP1PPP/RNBQKBNR w KQkq e6 0 2",
        "8/2p5/3p4/KP5r/1R3p1k/8/4P1P1/8 w - - 0 1",
    ];
    for fen in fens {
        let p = position(fen);
        assert!(p.is_sound(&tables));
        for m in p.legal_moves(&tables) {
            let next = p.make_move(m);
            assert!(next.is_sound(&tables));
            for reply in next.legal_moves(&tables) {
                assert!(next.make_move(reply).is_sound(&tables));
            }
        }
    }
}

#[test]
fn positions_that_no_game_leads_to_are_not_sound() {
    let tables = Tables::new();
    assert!(!position("4k3/8/8/8/8/8/4q3/4K3 b - - 0 1").is_sound(&tables));
    assert!(position("4k3/8/8/8/8/8/4q3/4K3 w - - 0 1").is_sound(&tables));
    assert!(!position("4k3/8/8/4p3/8/8/8/4K3 w - e3 0 1").is_sound(&tables));
    assert!(position("4k3/8/8/b3p3/8/8/8/4K3 w - e6 0 1").is_sound(&tables));
    assert!(position("4k3/8/8/b3p3/8/8/8/4K3 w - - 0 1").is_sound(&tables));
    assert!(position("3k4/8/1b6/2Pp4/8/8/8/6K1 w - d6 0 1").is_sound(&tables));
    assert!(position("4k3/8/8/8/1b1pP3/8/8/4K3 w - - 0 1").is_sound(&tables));
    assert!(position("3k4/8/8/2Pp4/8/8/8/6K1 w - d6 0 1").is_sound(&tables));
    let mut doubled = position("4k3/8/8/8/8/8/8/4K3 w - - 0 1");
    doubled.board.1.pawns = Bitboard(1 << 4);
    assert!(!doubled.is_sound(&tables));
}

#[test]
fn no_legal_move_is_listed_twice() {
    let tables = Tables::new();
    for fen in [
        "rnbqkbnr/pppppppp/8/8/8/8/PPPPPPPP/RNBQKBNR w KQkq - 0 1",
        "r3k2r/p1ppqpb1/bn2pnp1/3PN3/1p2P3/2N2Q1p/PPPBBPPP/R3K2R w KQkq - 0 1",
        "8/2p5/3p4/KP5r/1R3p1k/8/4P1P1/8 w - - 0 1",
        "4k3/P6P/8/8/8/8/p6p/4K3 w - - 0 1",
        "4k3/8/8/3pP3/8/8/8/4K3 w - d6 0 1",
    ] {
        let moves = Position::from_fen(fen).unwrap().legal_moves(&tables);
        for i in 0..moves.len() {
            for j in 0..i {
                assert!(moves[i] != moves[j], "{fen}: {i} and {j}");
            }
        }
    }
}
