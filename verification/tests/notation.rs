use chess::bitboard::Square;
use chess::fen::STARTING_POS_FEN;
use chess::pieces::Piece;
use chess::position::Position;
use chess::repr::{Color, Move};
use chess::{ChessError, Chessboard};

#[test]
fn starting_text_gives_the_starting_position() {
    let p = Position::from_fen(STARTING_POS_FEN).unwrap();
    let q = Position::starting();
    assert!(p == q);
    assert_eq!(p.half_moves, 0);
    assert_eq!(p.turn, Color::White);
    assert_eq!(p.board.0.pawns.0, 0xFF00);
    assert_eq!(p.board.1.kings.0, 1 << 60);
    let board = Chessboard::from_fen(STARTING_POS_FEN).unwrap();
    assert!(board.position == Chessboard::starting().position);
    assert!(board.previous.is_none());
}

#[test]
fn position_text_fields_are_read() {
    let p = Position::from_fen("8/8/8/3pP3/8/8/8/K6k  b  Kq  d6  42  9").unwrap();
    assert_eq!(p.turn, Color::Black);
    assert!(p.castling_rights.0.kingside && !p.castling_rights.0.queenside);
    assert!(!p.castling_rights.1.kingside && p.castling_rights.1.queenside);
    assert_eq!(p.en_passant, Some(Square::D6));
    assert_eq!(p.half_moves, 42);
    assert!(p.board.0.pawns.at(Square::E5));
    assert!(p.board.1.pawns.at(Square::D5));
    assert!(p.board.0.kings.at(Square::A1));
    assert!(p.board.1.kings.at(Square::H1));
    let plus = Position::from_fen("8/8/8/8/8/8/8/K6k w - - +7 12 and more").unwrap();
    assert_eq!(plus.half_moves, 7);
}

fn fen_error(fen: &str) -> ChessError {
    match Position::from_fen(fen) {
        Ok(_) => panic!("{} was read", fen),
        Err(e) => e,
    }
}

#[test]
fn malformed_position_text_names_the_part_at_fault() {
    assert!(matches!(fen_error(""), ChessError::InvalidFEN(m) if m == "Invalid pieces FEN"));
    assert!(
        matches!(fen_error("8/8/x7/8/8/8/8/8 w - - 0 1"), ChessError::InvalidFEN(m) if m == "Invalid pieces FEN")
    );
    assert!(
        matches!(fen_error("8/8/8/8/8/8/8/8/8/8/8/P w - - 0 1"), ChessError::InvalidFEN(m) if m == "Invalid pieces FEN")
    );
    assert!(
        matches!(fen_error("PPPPPPPPP w - - 0 1"), ChessError::InvalidFEN(m) if m == "Invalid pieces FEN")
    );
    assert!(
        matches!(fen_error("8/8/8/8/8/8/8/8"), ChessError::InvalidFEN(m) if m == "Invalid turn FEN")
    );
    assert!(
        matches!(fen_error("8/8/8/8/8/8/8/8 x - - 0 1"), ChessError::InvalidFEN(m) if m == "Invalid turn FEN")
    );
    assert!(
        matches!(fen_error("8/8/8/8/8/8/8/8 w KX - 0 1"), ChessError::InvalidFEN(m) if m == "Invalid castling rights FEN")
    );
    assert!(matches!(fen_error("8/8/8/8/8/8/8/8 w - e9 0 1"), ChessError::ParseSquare(m) if m == "e9"));
    assert!(
        matches!(fen_error("8/8/8/8/8/8/8/8 w - - x 1"), ChessError::InvalidFEN(m) if m == "Invalid half-move FEN")
    );
    assert!(
        matches!(fen_error("8/8/8/8/8/8/8/8 w - - 65536 1"), ChessError::InvalidFEN(m) if m == "Invalid half-move FEN")
    );
    assert!(
        matches!(fen_error("8/8/8/8/8/8/8/8 w - -"), ChessError::InvalidFEN(m) if m == "Invalid half-move FEN")
    );
    assert!(
        matches!(fen_error("8/8/8/8/8/8/8/8 w - - 0"), ChessError::InvalidFEN(m) if m == "Invalid full-move FEN")
    );
    assert!(
        matches!(fen_error("8/8/8/8/8/8/8/8 w - - 0 x"), ChessError::InvalidFEN(m) if m == "Invalid full-move FEN")
    );
    for layout in [
        "K/78k",
        "P/96p",
        "8/8/8/8/8/8/8",
        "8/8/8/8/8/8/8/7",
        "8/8/8/8/8/8/8/9",
        "8/8/8/8/8/8/8/8/",
        "8/8/8/8/8/8/8/44/8",
        "7/8/8/8/8/8/8/8",
        "4k3/8/8/8/8/8/8/K3K3",
        "kk6/8/8/8/8/8/8/4K3",
    ] {
        let text = format!("{} w - - 0 1", layout);
        assert!(
            matches!(fen_error(&text), ChessError::InvalidFEN(m) if m == "Invalid pieces FEN")
        );
    }
    let read = Position::from_fen("4k3/8/8/8/8/8/8/4K3 w - - 0 1").unwrap();
    assert!(read.board.is_tidy());
}

#[test]
fn error_messages() {
    assert_eq!(
        ChessError::ParseSquare("z9".to_owned()).message(),
        "z9 is not a valid square"
    );
    assert_eq!(ChessError::InvalidFEN("Invalid turn FEN".to_owned()).message(), "Invalid turn FEN");
    assert_eq!(ChessError::ParseMove("e2".to_owned()).message(), "e2 is not a valid move");
}

#[test]
fn cells_are_read_from_their_names() {
    assert_eq!(Square::parse("a1").unwrap(), Square::A1);
    assert_eq!(Square::parse("h8").unwrap(), Square::H8);
    assert_eq!(Square::parse("E4").unwrap(), Square::E4);
    assert_eq!(Square::parse("b7").unwrap(), Square::B7);
    assert!(matches!(Square::parse("i1"), Err(ChessError::ParseSquare(m)) if m == "i1"));
    assert!(matches!(Square::parse("a9"), Err(ChessError::ParseSquare(_))));
    assert!(matches!(Square::parse("a"), Err(ChessError::ParseSquare(_))));
    assert!(matches!(Square::parse("a10"), Err(ChessError::ParseSquare(_))));
    assert!(matches!(Square::parse("\u{e9}1"), Err(ChessError::ParseSquare(_))));
}

#[test]
fn cells_have_names_and_numbers() {
    assert_eq!(Square::A1.index(), 0);
    assert_eq!(Square::H1.index(), 7);
    assert_eq!(Square::A2.index(), 8);
    assert_eq!(Square::H8.index(), 63);
    for i in 0..64u8 {
        let sq = Square::from_index(i);
        assert_eq!(sq.index(), i);
        assert_eq!(sq.rank(), i / 8);
        assert_eq!(sq.file(), i % 8);
        assert_eq!(sq.main_diag(), i / 8 + i % 8);
        assert_eq!(sq.second_diag(), 7 - i / 8 + i % 8);
        assert_eq!(Square::parse(sq.to_text()).unwrap(), sq);
    }
    assert_eq!(Square::E4.to_text(), "e4");
}

#[test]
fn moves_are_written_as_text() {
    assert_eq!(Move::Normal(Square::E2, Square::E4, Piece::Pawn).to_text(), "e2e4");
    assert_eq!(Move::EnPassant(Square::E5, Square::D6).to_text(), "e5d6");
    assert_eq!(Move::Promotion(Square::A7, Square::A8, Piece::Queen).to_text(), "a7a8q");
    assert_eq!(Move::Promotion(Square::A7, Square::B8, Piece::Rook).to_text(), "a7b8r");
    assert_eq!(Move::Promotion(Square::H2, Square::H1, Piece::Bishop).to_text(), "h2h1b");
    assert_eq!(Move::Promotion(Square::H2, Square::G1, Piece::Knight).to_text(), "h2g1n");
    assert_eq!(Move::KingsideCastle.to_text(), "O-O");
    assert_eq!(Move::QueensideCastle.to_text(), "O-O-O");
    assert!(Move::KingsideCastle.is_writable());
    assert!(!Move::Promotion(Square::A7, Square::A8, Piece::King).is_writable());
}

#[test]
fn moves_are_read_on_a_board() {
    let board = Chessboard::from_fen("r3k2r/8/8/3pP3/8/8/1P6/R3K2R w KQkq d6 0 1").unwrap();
    assert_eq!(
        board.parse_move("b2b4").unwrap(),
        Move::Normal(Square::B2, Square::B4, Piece::Pawn)
    );
    assert_eq!(board.parse_move("e5d6").unwrap(), Move::EnPassant(Square::E5, Square::D6));
    assert_eq!(board.parse_move("e1g1").unwrap(), Move::KingsideCastle);
    assert_eq!(board.parse_move("e1c1").unwrap(), Move::QueensideCastle);
    assert_eq!(board.parse_move("e8g8").unwrap(), Move::KingsideCastle);
    assert_eq!(
        board.parse_move("e1e2").unwrap(),
        Move::Normal(Square::E1, Square::E2, Piece::King)
    );
    assert_eq!(
        board.parse_move("a7a8Q").unwrap(),
        Move::Promotion(Square::A7, Square::A8, Piece::Queen)
    );
    assert_eq!(
        board.parse_move("a7a8n").unwrap(),
        Move::Promotion(Square::A7, Square::A8, Piece::Knight)
    );
    assert!(matches!(board.parse_move("e2"), Err(ChessError::ParseMove(m)) if m == "e2"));
    assert!(matches!(board.parse_move("e2e4e5"), Err(ChessError::ParseMove(_))));
    assert!(matches!(board.parse_move("z2e4"), Err(ChessError::ParseSquare(m)) if m == "z2"));
    assert!(matches!(board.parse_move("e2e9"), Err(ChessError::ParseSquare(m)) if m == "e9"));
    assert!(matches!(board.parse_move("a7a8k"), Err(ChessError::ParseMove(m)) if m == "a7a8k"));
    assert!(matches!(board.parse_move("b3b4"), Err(ChessError::ParseMove(m)) if m == "b3b4"));
}

#[test]
fn pieces_have_letters_and_symbols() {
    assert_eq!(Piece::Pawn.to_ascii(), 'p');
    assert_eq!(Piece::Knight.to_ascii(), 'N');
    assert_eq!(Piece::Bishop.to_ascii(), 'B');
    assert_eq!(Piece::Rook.to_ascii(), 'R');
    assert_eq!(Piece::Queen.to_ascii(), 'Q');
    assert_eq!(Piece::King.to_ascii(), 'K');
    assert_eq!(Piece::King.to_unicode(Color::White), '\u{2654}');
    assert_eq!(Piece::Pawn.to_unicode(Color::White), '\u{2659}');
    assert_eq!(Piece::King.to_unicode(Color::Black), '\u{265A}');
    assert_eq!(Piece::Pawn.to_unicode(Color::Black), '\u{265F}');
    assert_eq!(Color::White.other(), Color::Black);
    assert_eq!(Color::Black.other(), Color::White);
}

#[test]
fn empty_board_is_printed_as_dots() {
    let p = Position::from_fen("8/8/8/8/8/8/8/8 w - - 0 1").unwrap();
    let mut expected = String::new();
    for rank in (1..=8).rev() {
        expected.push_str(". . . . . . . . ");
        expected.push_str(&rank.to_string());
        expected.push('\n');
    }
    expected.push_str("a b c d e f g h \n");
    assert_eq!(p.to_ascii(), expected);
}

#[test]
fn printed_board_shows_the_pieces() {
    let text = Position::starting().to_ascii();
    let lines: Vec<&str> = text.lines().collect();
    assert_eq!(lines.len(), 9);
    assert!(lines[0].ends_with(" 8"));
    assert!(lines[0].contains('R') && lines[0].contains('K'));
    assert!(lines[1].contains('p'));
    assert_eq!(lines[3], ". . . . . . . . 5");
    assert_eq!(lines[8], "a b c d e f g h ");
}

#[test]
fn mask_is_printed_as_marks() {
    let text = chess::bitboard::Bitboard(1 | (1 << 63) | (1 << 9)).to_text();
    assert_eq!(
        text,
        ".......O\n........\n........\n........\n........\n........\n.O......\nO.......\n"
    );
}

#[test]
fn cells_are_parsed_by_the_standard_trait() {
    assert_eq!("c6".parse::<Square>().unwrap(), Square::C6);
    assert!("c9".parse::<Square>().is_err());
}

#[test]
fn pieces_are_printed_in_colour() {
    let p = Position::from_fen("k7/8/8/8/8/8/8/7K w - - 0 1").unwrap();
    colored::control::set_override(true);
    let text = p.to_ascii();
    let lines: Vec<&str> = text.lines().collect();
    assert_eq!(lines[0], "\x1b[35mK\x1b[0m . . . . . . . 8");
    assert_eq!(lines[7], ". . . . . . . \x1b[36mK\x1b[0m 1");
    colored::control::set_override(false);
    let text = p.to_ascii();
    let lines: Vec<&str> = text.lines().collect();
    assert_eq!(lines[0], "K . . . . . . . 8");
    assert_eq!(lines[7], ". . . . . . . K 1");
    colored::control::unset_override();
}
