use chess_engine::board::{Board, Color, Coord, Field, Piece};
use chess_engine::chessmatch::{MatchInfos, MatchRegistry, MatchResult};
use chess_engine::decision::{decide, Config};
use chess_engine::moves::{LongMoveList, Move, MoveType};

fn s(x: i8, y: i8) -> Coord {
    Coord::from_xy(x, y)
}

fn t(from: (i8, i8), to: (i8, i8), k: MoveType) -> Move {
    Move { start: s(from.0, from.1), end: s(to.0, to.1), move_type: k }
}

fn moves_of(b: &Board, color: Color) -> Vec<Move> {
    let mut l = LongMoveList::new();
    b.enumerate_all_moves_by(color, &mut l);
    l.slice().to_vec()
}

fn offered(reg: &MatchRegistry<u8>, id: u32, mv: Move) -> bool {
    let b = reg.get_board(id).unwrap();
    let color = reg.get_info(id).unwrap().color;
    moves_of(&b, color).contains(&mv)
}

#[test]
fn new_registry_knows_no_match() {
    let reg: MatchRegistry<u8> = MatchRegistry::new();
    assert!(reg.get_board(0).is_none());
    assert!(reg.get_info(0).is_none());
    let reg: MatchRegistry<String> = MatchRegistry::default();
    assert!(reg.get_board(7).is_none());
}

#[test]
fn matches_get_rising_numbers_and_start_fresh() {
    let mut reg: MatchRegistry<String> = MatchRegistry::new();
    let a = reg.create_match("first".to_string());
    let b = reg.create_match("second".to_string());
    assert_eq!((a, b), (0, 1));
    let info: MatchInfos<String> = reg.get_info(1).unwrap();
    assert_eq!(info.extra, "second");
    assert_eq!(info.color, Color::White);
    assert_eq!(info.result, None);
    assert_eq!(reg.get_info(0).unwrap().extra, "first");
    let board = reg.get_board(0).unwrap();
    assert_eq!(*board.get(s(4, 0)), Field::WhiteKing);
    assert_eq!(moves_of(&board, Color::White).len(), 20);
    assert!(reg.get_board(2).is_none());
    assert!(reg.get_info(2).is_none());
}

#[test]
fn a_move_passes_the_turn_and_changes_one_match_only() {
    let mut reg: MatchRegistry<u8> = MatchRegistry::new();
    let a = reg.create_match(1);
    let b = reg.create_match(2);
    let mv = t((4, 1), (4, 3), MoveType::RegularPawnDoubleForward);
    assert!(offered(&reg, a, mv));
    assert!(!reg.do_move(a, mv, false));
    assert_eq!(reg.get_info(a).unwrap().color, Color::Black);
    assert_eq!(reg.get_info(a).unwrap().result, None);
    assert_eq!(reg.get_info(a).unwrap().extra, 1);
    assert_eq!(*reg.get_board(a).unwrap().get(s(4, 3)), Field::WhitePiece(Piece::Pawn));
    assert_eq!(reg.get_board(a).unwrap().en_passant_chance(), Some(s(4, 3)));
    assert_eq!(reg.get_info(b).unwrap().color, Color::White);
    assert_eq!(*reg.get_board(b).unwrap().get(s(4, 3)), Field::Empty);
    let reply = t((4, 6), (4, 4), MoveType::RegularPawnDoubleForward);
    assert!(reg.do_move(a, reply, true));
    assert_eq!(reg.get_info(a).unwrap().color, Color::White);
}

#[test]
fn a_move_in_an_unknown_match_does_nothing() {
    let mut reg: MatchRegistry<u8> = MatchRegistry::new();
    let a = reg.create_match(1);
    let mv = t((4, 1), (4, 3), MoveType::RegularPawnDoubleForward);
    assert!(!reg.do_move(5, mv, true));
    assert!(!reg.apply_reply(5, Color::White, mv));
    assert_eq!(reg.get_info(a).unwrap().color, Color::White);
    assert_eq!(*reg.get_board(a).unwrap().get(s(4, 1)), Field::WhitePiece(Piece::Pawn));
    assert!(reg.get_board(1).is_none());
}

#[test]
fn fools_mate_ends_with_a_win_for_black() {
    let mut reg: MatchRegistry<u8> = MatchRegistry::new();
    let id = reg.create_match(0);
    let line = [
        t((5, 1), (5, 2), MoveType::Regular),
        t((4, 6), (4, 4), MoveType::RegularPawnDoubleForward),
        t((6, 1), (6, 3), MoveType::RegularPawnDoubleForward),
        t((3, 7), (7, 3), MoveType::Regular),
    ];
    for (i, mv) in line.iter().enumerate() {
        assert!(offered(&reg, id, *mv), "{:?}", mv);
        assert_eq!(reg.get_info(id).unwrap().result, None);
        let wanted = reg.do_move(id, *mv, true);
        assert_eq!(wanted, i < 3);
    }
    let board = reg.get_board(id).unwrap();
    let info = reg.get_info(id).unwrap();
    assert_eq!(info.color, Color::White);
    assert!(moves_of(&board, Color::White).is_empty());
    assert!(board.is_in_check(Color::White));
    assert_eq!(info.result, Some(MatchResult::BlackWins));
}

#[test]
fn a_mate_by_white_ends_with_a_win_for_white() {
    let mut reg: MatchRegistry<u8> = MatchRegistry::new();
    let id = reg.create_match(0);
    let line = [
        t((4, 1), (4, 3), MoveType::RegularPawnDoubleForward),
        t((5, 6), (5, 5), MoveType::Regular),
        t((3, 1), (3, 3), MoveType::RegularPawnDoubleForward),
        t((6, 6), (6, 4), MoveType::RegularPawnDoubleForward),
        t((3, 0), (7, 4), MoveType::Regular),
    ];
    for mv in line {
        assert!(offered(&reg, id, mv), "{:?}", mv);
        reg.do_move(id, mv, false);
    }
    assert_eq!(reg.get_info(id).unwrap().result, Some(MatchResult::WhiteWins));
    assert_eq!(reg.get_info(id).unwrap().color, Color::Black);
}

#[test]
fn a_side_without_moves_that_is_not_in_check_is_stalemated() {
    let mut reg: MatchRegistry<u8> = MatchRegistry::new();
    let id = reg.create_match(0);
    let mut black_king = (4, 7);
    let mut steps: Vec<Move> = vec![];
    for x in 0..8i8 {
        for y in 0..2i8 {
            if (x, y) != (4, 0) {
                steps.push(t(black_king, (x, y), MoveType::Capture));
                black_king = (x, y);
            }
        }
    }
    let mut white_king = (4, 0);
    for x in 0..8i8 {
        for y in 6..8i8 {
            if (x, y) != (3, 7) {
                steps.push(t(white_king, (x, y), MoveType::Capture));
                white_king = (x, y);
            }
        }
    }
    steps.push(t(white_king, (0, 0), MoveType::Regular));
    steps.push(t(black_king, (1, 2), MoveType::Regular));
    steps.push(t((1, 2), (0, 2), MoveType::Regular));
    steps.push(t((3, 7), (2, 1), MoveType::Regular));
    assert_eq!(steps.len() % 2, 0);
    for mv in steps {
        assert!(reg.get_board(id).unwrap().is_move_ok(&mv), "{:?}", mv);
        reg.do_move(id, mv, false);
    }
    let board = reg.get_board(id).unwrap();
    let info = reg.get_info(id).unwrap();
    assert_eq!(*board.get(s(0, 0)), Field::WhiteKing);
    assert_eq!(*board.get(s(0, 2)), Field::BlackKing);
    assert_eq!(*board.get(s(2, 1)), Field::BlackPiece(Piece::Queen));
    let mut pieces = 0;
    for x in 0..8i8 {
        for y in 0..8i8 {
            if *board.get(s(x, y)) != Field::Empty {
                pieces += 1;
            }
        }
    }
    assert_eq!(pieces, 3);
    assert_eq!(info.color, Color::White);
    assert!(!board.is_in_check(Color::White));
    assert!(moves_of(&board, Color::White).is_empty());
    assert_eq!(info.result, Some(MatchResult::Stalemate));
    assert_eq!(decide(&board, Color::White, Config { depth: 2, max_quiescence_depth: 1 }), None);
}

#[test]
fn a_reply_is_applied_only_in_time() {
    let mut reg: MatchRegistry<u8> = MatchRegistry::new();
    let id = reg.create_match(0);
    let first = t((4, 1), (4, 3), MoveType::RegularPawnDoubleForward);
    assert!(reg.do_move(id, first, true));
    let board = reg.get_board(id).unwrap();
    let reply = decide(&board, Color::Black, Config { depth: 1, max_quiescence_depth: 0 }).unwrap();
    assert!(!reg.apply_reply(id, Color::White, reply));
    assert_eq!(reg.get_info(id).unwrap().color, Color::Black);
    assert!(!reg.apply_reply(id, Color::Black, t((4, 3), (4, 4), MoveType::Regular)));
    assert_eq!(reg.get_info(id).unwrap().color, Color::Black);
    assert!(reg.apply_reply(id, Color::Black, reply));
    assert_eq!(reg.get_info(id).unwrap().color, Color::White);
    assert_eq!(*reg.get_board(id).unwrap().get(reply.start), Field::Empty);
    assert!(!reg.apply_reply(id, Color::Black, reply));
}

#[test]
fn a_mating_reply_ends_the_match() {
    let mut reg: MatchRegistry<u8> = MatchRegistry::new();
    let id = reg.create_match(0);
    reg.do_move(id, t((5, 1), (5, 2), MoveType::Regular), false);
    reg.do_move(id, t((4, 6), (4, 4), MoveType::RegularPawnDoubleForward), false);
    assert!(reg.do_move(id, t((6, 1), (6, 3), MoveType::RegularPawnDoubleForward), true));
    let board = reg.get_board(id).unwrap();
    let reply = decide(&board, Color::Black, Config { depth: 1, max_quiescence_depth: 0 }).unwrap();
    assert_eq!(reply, t((3, 7), (7, 3), MoveType::Regular));
    assert!(reg.apply_reply(id, Color::Black, reply));
    assert_eq!(reg.get_info(id).unwrap().result, Some(MatchResult::BlackWins));
}

#[test]
fn the_registry_counts_the_numbers_given_out() {
    let mut reg: MatchRegistry<u8> = MatchRegistry::new();
    assert_eq!(reg.count(), 0);
    reg.create_match(0);
    reg.create_match(0);
    assert_eq!(reg.count(), 2);
}
