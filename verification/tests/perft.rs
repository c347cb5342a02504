use chess::constants::Tables;
use chess::position::Position;

#[test]
fn perft_starting2() {
    let tables = Tables::new();
    let position = Position::starting();
    assert_eq!(position.perft(&tables, 2), 400);
}

#[test]
fn perft_starting3() {
    let tables = Tables::new();
    let position = Position::starting();
    assert_eq!(position.perft(&tables, 3), 8902);
}

#[test]
fn perft_starting4() {
    let tables = Tables::new();
    let position = Position::starting();
    assert_eq!(position.perft(&tables, 4), 197281);
}

#[test]
fn perft_starting5() {
    let tables = Tables::new();
    let position = Position::starting();
    assert_eq!(position.perft(&tables, 5), 4865609);
}

#[test]
fn perft_kiwipete2() {
    let tables = Tables::new();
    let position = Position::from_fen(
        "r3k2r/p1ppqpb1/bn2pnp1/3PN3/1p2P3/2N2Q1p/PPPBBPPP/R3K2R w KQkq - 0 1",
    )
    .unwrap();
    assert_eq!(position.perft(&tables, 2), 2039);
}

#[test]
fn perft_kiwipete3() {
    let tables = Tables::new();
    let position = Position::from_fen(
        "r3k2r/p1ppqpb1/bn2pnp1/3PN3/1p2P3/2N2Q1p/PPPBBPPP/R3K2R w KQkq - 0 1",
    )
    .unwrap();
    assert_eq!(position.perft(&tables, 3), 97862);
}

#[test]
fn perft_kiwipete4() {
    let tables = Tables::new();
    let position = Position::from_fen(
        "r3k2r/p1ppqpb1/bn2pnp1/3PN3/1p2P3/2N2Q1p/PPPBBPPP/R3K2R w KQkq - 0 1",
    )
    .unwrap();
    assert_eq!(position.perft(&tables, 4), 4085603);
}

#[test]
fn perft_pos3_2() {
    let tables = Tables::new();
    let position = Position::from_fen(
        "8/2p5/3p4/KP5r/1R3p1k/8/4P1P1/8 w - - 0 1",
    )
    .unwrap();
    assert_eq!(position.perft(&tables, 2), 191);
}

#[test]
fn perft_pos3_3() {
    let tables = Tables::new();
    let position = Position::from_fen(
        "8/2p5/3p4/KP5r/1R3p1k/8/4P1P1/8 w - - 0 1",
    )
    .unwrap();
    assert_eq!(position.perft(&tables, 3), 2812);
}

#[test]
fn perft_pos3_4() {
    let tables = Tables::new();
    let position = Position::from_fen(
        "8/2p5/3p4/KP5r/1R3p1k/8/4P1P1/8 w - - 0 1",
    )
    .unwrap();
    assert_eq!(position.perft(&tables, 4), 43238);
}

#[test]
fn perft_pos3_5() {
    let tables = Tables::new();
    let position = Position::from_fen(
        "8/2p5/3p4/KP5r/1R3p1k/8/4P1P1/8 w - - 0 1",
    )
    .unwrap();
    assert_eq!(position.perft(&tables, 5), 674624);
}

#[test]
fn perft_pos4_2() {
    let tables = Tables::new();
    let position = Position::from_fen(
        "r3k2r/Pppp1ppp/1b3nbN/nP6/BBP1P3/q4N2/Pp1P2PP/R2Q1RK1 w kq - 0 1",
    )
    .unwrap();
    assert_eq!(position.perft(&tables, 2), 264);
}

#[test]
fn perft_pos4_3() {
    let tables = Tables::new();
    let position = Position::from_fen(
        "r3k2r/Pppp1ppp/1b3nbN/nP6/BBP1P3/q4N2/Pp1P2PP/R2Q1RK1 w kq - 0 1",
    )
    .unwrap();
    assert_eq!(position.perft(&tables, 3), 9467);
}

#[test]
fn perft_pos4_4() {
    let tables = Tables::new();
    let position = Position::from_fen(
        "r3k2r/Pppp1ppp/1b3nbN/nP6/BBP1P3/q4N2/Pp1P2PP/R2Q1RK1 w kq - 0 1",
    )
    .unwrap();
    assert_eq!(position.perft(&tables, 4), 422333);
}

#[test]
fn perft_pos5_2() {
    let tables = Tables::new();
    let position = Position::from_fen(
        "rnbq1k1r/pp1Pbppp/2p5/8/2B5/8/PPP1NnPP/RNBQK2R w KQ - 1 8",
    )
    .unwrap();
    assert_eq!(position.perft(&tables, 2), 1486);
}

#[test]
fn perft_pos5_3() {
    let tables = Tables::new();
    let position = Position::from_fen(
        "rnbq1k1r/pp1Pbppp/2p5/8/2B5/8/PPP1NnPP/RNBQK2R w KQ - 1 8",
    )
    .unwrap();
    assert_eq!(position.perft(&tables, 3), 62379);
}

#[test]
fn perft_pos5_4() {
    let tables = Tables::new();
    let position = Position::from_fen(
        "rnbq1k1r/pp1Pbppp/2p5/8/2B5/8/PPP1NnPP/RNBQK2R w KQ - 1 8",
    )
    .unwrap();
    assert_eq!(position.perft(&tables, 4), 2103487);
}
