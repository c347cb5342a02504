use chess::bitboard::Square;
use chess::constants::Tables;
use chess::evaluation::{evaluate, evaluate_color, MAX_SCORE, MIN_SCORE, WIN_SCORE};
use chess::pieces::Piece;
use chess::repr::{Color, Move};
use chess::search::{best_move, game_over, negamax, score_move};
use chess::uci::{go_depth, next_board, Command};
use chess::{ChessError, Chessboard};

fn board(fen: &str) -> Chessboard {
    Chessboard::from_fen(fen).unwrap()
}

fn words(line: &str) -> Vec<String> {
    line.split_whitespace().map(str::to_owned).collect()
}

#[test]
fn starting_position_scores() {
    let tables = Tables::new();
    let start = Chessboard::starting();
    assert_eq!(evaluate_color(&start, &tables, Color::White), 3962);
    assert_eq!(evaluate_color(&start, &tables, Color::Black), 3962);
    assert_eq!(evaluate(&start, &tables), 0);
}

#[test]
fn score_counts_material_cells_and_attacks() {
    let tables = Tables::new();
    let b = board("4k3/8/8/8/8/8/8/N3K3 w - - 0 1");
    assert_eq!(evaluate_color(&b, &tables, Color::White), 250 + 2 * 3);
    assert_eq!(evaluate_color(&b, &tables, Color::Black), 0);
    assert_eq!(evaluate(&b, &tables), 256);
    let pawn = board("4k3/8/8/4P3/8/8/8/4K3 b - - 0 1");
    assert_eq!(evaluate_color(&pawn, &tables, Color::White), 103 + 2 * 3);
    assert_eq!(evaluate(&pawn, &tables), -109);
    let black_pawn = board("4k3/8/8/4p3/8/8/8/4K3 b - - 0 1");
    assert_eq!(evaluate_color(&black_pawn, &tables, Color::Black), 102 + 2 * 3);
    let castled = board("4k3/8/8/8/8/QQ6/8/6K1 w - - 0 1");
    let queens = evaluate_color(&castled, &tables, Color::White);
    let elsewhere = board("4k3/8/8/8/8/QQ6/8/5K2 w - - 0 1");
    assert_eq!(queens - evaluate_color(&elsewhere, &tables, Color::White), 45);
}

#[test]
fn search_of_depth_zero_is_the_score() {
    let tables = Tables::new();
    let b = board("4k3/8/8/8/8/8/8/N3K3 w - - 0 1");
    assert_eq!(negamax(&b, &tables, MIN_SCORE, MAX_SCORE, 0), 256);
}

#[test]
fn search_sees_mate_and_stalemate() {
    let tables = Tables::new();
    let mated = board("rnb1kbnr/pppp1ppp/8/4p3/6Pq/5P2/PPPPP2P/RNBQKBNR w KQkq - 1 3");
    assert_eq!(negamax(&mated, &tables, MIN_SCORE, MAX_SCORE, 3), -WIN_SCORE);
    assert_eq!(game_over(&mated, &tables), Some(MIN_SCORE));
    let stale = board("7k/5Q2/6K1/8/8/8/8/8 b - - 0 1");
    assert_eq!(negamax(&stale, &tables, MIN_SCORE, MAX_SCORE, 3), 0);
    assert_eq!(game_over(&stale, &tables), Some(0));
    assert_eq!(game_over(&Chessboard::starting(), &tables), None);
}

#[test]
fn best_move_of_depth_one_gains_most_at_once() {
    let tables = Tables::new();
    let b = board("4k3/8/8/3q4/8/4N3/8/4K3 w - - 0 1");
    let chosen = best_move(&b, &tables, 1);
    assert_eq!(chosen, Move::Normal(Square::E3, Square::D5, Piece::Knight));
    let best = -evaluate(&b.make_move(chosen), &tables);
    for m in b.legal_moves(&tables) {
        assert!(-evaluate(&b.make_move(m), &tables) <= best);
        assert_eq!(
            score_move(&b, &tables, m, MIN_SCORE, 1),
            -evaluate(&b.make_move(m), &tables)
        );
    }
}

#[test]
fn best_move_finds_mate_in_one() {
    let tables = Tables::new();
    let b = board("6k1/5ppp/8/8/8/8/8/R3K3 w - - 0 1");
    assert_eq!(
        best_move(&b, &tables, 2),
        Move::Normal(Square::A1, Square::A8, Piece::Rook)
    );
    assert_eq!(
        best_move(&b, &tables, 3),
        Move::Normal(Square::A1, Square::A8, Piece::Rook)
    );
}

#[test]
fn search_with_the_full_window_is_exact() {
    let tables = Tables::new();
    let b = board("r3k2r/p1ppqpb1/bn2pnp1/3PN3/1p2P3/2N2Q1p/PPPBBPPP/R3K2R w KQkq - 0 1");
    let mut best = MIN_SCORE;
    for m in b.legal_moves(&tables) {
        let child = b.make_move(m);
        let mut reply = MIN_SCORE;
        for r in child.legal_moves(&tables) {
            reply = reply.max(-evaluate(&child.make_move(r), &tables));
        }
        best = best.max(-reply);
    }
    assert_eq!(negamax(&b, &tables, MIN_SCORE, MAX_SCORE, 2), best);
}

#[test]
fn commands_are_told_apart() {
    assert_eq!(Command::parse(&words("uci")), Command::Identify);
    assert_eq!(Command::parse(&words("isready")), Command::Ready);
    assert_eq!(Command::parse(&words("go depth 3")), Command::Go);
    assert_eq!(Command::parse(&words("position startpos")), Command::Position);
    assert_eq!(Command::parse(&words("quit")), Command::Other);
    assert_eq!(Command::parse(&words("")), Command::Other);
    assert_eq!(Command::parse(&words("ucinewgame")), Command::Other);
}

#[test]
fn depth_of_a_search_is_read_from_its_settings() {
    assert_eq!(go_depth(&words("go")), Some(6));
    assert_eq!(go_depth(&words("go depth 3")), Some(3));
    assert_eq!(go_depth(&words("go wtime 1000 depth 4 btime 2000")), Some(4));
    assert_eq!(go_depth(&words("go depth 4 depth 5")), Some(5));
    assert_eq!(go_depth(&words("go depth")), Some(6));
    assert_eq!(go_depth(&words("go depth -2")), Some(-2));
    assert_eq!(go_depth(&words("go depth +2147483647")), Some(2147483647));
    assert_eq!(go_depth(&words("go depth 2147483648")), None);
    assert_eq!(go_depth(&words("go depth -2147483648")), Some(-2147483648));
    assert_eq!(go_depth(&words("go infinite x depth 3")), None);
    assert_eq!(go_depth(&words("go depth 3 ponder")), Some(3));
}

#[test]
fn position_command_sets_up_a_board() {
    let start = next_board(&words("position startpos")).unwrap();
    assert!(start.position == Chessboard::starting().position);
    assert!(start.previous.is_none());
    let played = next_board(&words("position startpos moves e2e4 e7e5 g1f3")).unwrap();
    let expected = Chessboard::starting()
        .make_move(Move::Normal(Square::E2, Square::E4, Piece::Pawn))
        .make_move(Move::Normal(Square::E7, Square::E5, Piece::Pawn))
        .make_move(Move::Normal(Square::G1, Square::F3, Piece::Knight));
    assert!(played.position == expected.position);
    assert!(played.previous.unwrap().position == expected.previous.unwrap().position);
    let fen = next_board(&words(
        "position fen r3k2r/8/8/8/8/8/8/R3K2R w KQkq - 0 1 moves e1g1 e8c8",
    ))
    .unwrap();
    assert!(fen.position.board.0.kings.at(Square::G1));
    assert!(fen.position.board.1.kings.at(Square::C8));
    assert!(fen.position.board.1.rooks.at(Square::D8));
    assert!(matches!(
        next_board(&words("position fen 8/8/8/8/8/8/8/8 w - -")),
        Err(ChessError::InvalidFEN(m)) if m == "Invalid position command"
    ));
    assert!(matches!(
        next_board(&words("position fen 8/8/8/8/8/8/8/8 x - - 0 1")),
        Err(ChessError::InvalidFEN(m)) if m == "Invalid turn FEN"
    ));
    assert!(matches!(
        next_board(&words("position startpos moves e2e4 e9e5")),
        Err(ChessError::ParseSquare(m)) if m == "e9"
    ));
    assert!(matches!(
        next_board(&words("position startpos moves e3e4")),
        Err(ChessError::ParseMove(m)) if m == "e3e4"
    ));
}

fn plain_value(b: &Chessboard, tables: &Tables, depth: u32) -> i32 {
    if depth == 0 {
        return evaluate(b, tables);
    }
    let moves = b.legal_moves(tables);
    if moves.is_empty() {
        return if b.position.in_check(tables) { -WIN_SCORE } else { 0 };
    }
    moves
        .iter()
        .map(|m| -plain_value(&b.make_move(*m), tables, depth - 1))
        .max()
        .unwrap()
}

#[test]
fn pruning_changes_no_value_and_no_choice() {
    let tables = Tables::new();
    let fens = [
        "r3k2r/p1ppqpb1/bn2pnp1/3PN3/1p2P3/2N2Q1p/PPPBBPPP/R3K2R w KQkq - 0 1",
        "8/2p5/3p4/KP5r/1R3p1k/8/4P1P1/8 w - - 0 1",
        "6k1/5ppp/8/8/8/8/8/R3K3 w - - 0 1",
    ];
    for fen in fens {
        let b = board(fen);
        for depth in 1..=3 {
            let value = plain_value(&b, &tables, depth);
            assert_eq!(negamax(&b, &tables, MIN_SCORE, MAX_SCORE, depth), value);
            let chosen = best_move(&b, &tables, depth);
            assert_eq!(-plain_value(&b.make_move(chosen), &tables, depth - 1), value);
            let first = b
                .legal_moves(&tables)
                .into_iter()
                .find(|m| -plain_value(&b.make_move(*m), &tables, depth - 1) == value)
                .unwrap();
            assert_eq!(chosen, first);
        }
    }
}
