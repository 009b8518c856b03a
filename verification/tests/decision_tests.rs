use chess_engine::board::{Board, Color, Coord, Field, Piece};
use chess_engine::decision::{decide, decide_scored, get_sorted_moves, Config};
use chess_engine::eval::{get_move_score, get_white_board_score, EVAL_BOUND};
use chess_engine::moves::{Castle, LongMoveList, Move, MoveType, PromotionType};
use chess_engine::score::{
    Score, BISHOP_VALUE, BORDER_BISHOP_PENALTY, BORDER_KNIGHT_PENALTY, BORDER_PAWN_PENALTY,
    BORDER_QUEEN_PENALTY, BORDER_ROOK_PENALTY, CASTLING_MOVE_SCORE, KNIGHT_VALUE, PAWN_VALUE,
    QUEEN_VALUE, QUIESCENCE_BAND, ROOK_VALUE,
};

fn p(x: i8, y: i8) -> Coord {
    Coord::from_xy(x, y)
}

fn m(from: (i8, i8), to: (i8, i8), t: MoveType) -> Move {
    Move { start: p(from.0, from.1), end: p(to.0, to.1), move_type: t }
}

fn go(b: &mut Board, from: (i8, i8), to: (i8, i8), t: MoveType) {
    let mv = m(from, to, t);
    assert!(b.is_move_ok(&mv));
    b.do_move(mv);
}

fn before_fools_mate() -> Board {
    let mut b = Board::new();
    go(&mut b, (5, 1), (5, 2), MoveType::Regular);
    go(&mut b, (4, 6), (4, 4), MoveType::RegularPawnDoubleForward);
    go(&mut b, (6, 1), (6, 3), MoveType::RegularPawnDoubleForward);
    b
}

fn owner_sign(f: Field) -> i32 {
    match f {
        Field::WhiteKing | Field::WhitePiece(_) => 1,
        Field::BlackKing | Field::BlackPiece(_) => -1,
        _ => 0,
    }
}

/// The evaluation worked out square by square from the rules of the evaluation.
fn evaluation_by_rule(b: &Board) -> i32 {
    let award = [-100, 0, 200, 300, 300, 200, 0, -100];
    let mut total = 0;
    for x in 0..8i8 {
        for y in 0..8i8 {
            let f = *b.get(p(x, y));
            let (value, threatened, border) = match f {
                Field::WhitePiece(k) | Field::BlackPiece(k) => match k {
                    Piece::Queen => (9500, 126, 600),
                    Piece::Rook => (5630, 96, 400),
                    Piece::Bishop => (3330, 84, 600),
                    Piece::Knight => (3050, 80, 1000),
                    Piece::Pawn => (1000, 71, 0),
                },
                Field::Empty => (0, 54, 0),
                _ => (0, 0, 0),
            };
            let piece = matches!(f, Field::WhitePiece(_) | Field::BlackPiece(_));
            total += owner_sign(f) * value * (piece as i32);
            if piece {
                total += award[x as usize];
                if x == 0 || x == 7 {
                    total -= owner_sign(f) * border;
                }
            }
            for t in b.threat_mask().get(p(x, y)).slice() {
                total += owner_sign(*b.get(*t)) * threatened;
            }
        }
    }
    total
}

#[test]
fn scores_are_ordered_loss_stalemate_values_win() {
    let order = [
        Score::EnemyWins,
        Score::Stalemate,
        Score::Value(i32::MIN),
        Score::Value(-1),
        Score::Value(0),
        Score::Value(7),
        Score::Value(i32::MAX),
        Score::MeWins,
    ];
    for i in 0..order.len() {
        for j in 0..order.len() {
            assert_eq!(order[i].is_below(order[j]), i < j, "{:?} {:?}", order[i], order[j]);
            assert_eq!(order[i] < order[j], i < j);
            assert_eq!(order[i].cmp(&order[j]), i.cmp(&j));
            assert_eq!(order[i].partial_cmp(&order[j]), Some(i.cmp(&j)));
            assert_eq!(order[i].max(order[j]), order[i.max(j)]);
            assert_eq!(order[i] >= order[j], i >= j);
            assert_eq!(order[i] == order[j], i == j);
        }
    }
    assert_eq!(Score::min(), Score::EnemyWins);
    assert_eq!(Score::max(), Score::MeWins);
}

#[test]
fn negation_swaps_win_and_loss() {
    assert_eq!(-Score::MeWins, Score::EnemyWins);
    assert_eq!(-Score::EnemyWins, Score::MeWins);
    assert_eq!(-Score::Stalemate, Score::Stalemate);
    assert_eq!(-Score::Value(5), Score::Value(-5));
    assert_eq!(-Score::Value(0), Score::Value(0));
    assert_eq!(-(-Score::Value(-17)), Score::Value(-17));
}

#[test]
fn addition_changes_values_only() {
    assert_eq!(Score::Value(5) + 3, Score::Value(8));
    assert_eq!(Score::Value(5) + -8, Score::Value(-3));
    assert_eq!(Score::MeWins + 3, Score::MeWins);
    assert_eq!(Score::EnemyWins + 1, Score::EnemyWins);
    assert_eq!(Score::Stalemate + 1, Score::Stalemate);
    assert_eq!(Score::Value(5).plus_value(1), Score::Value(6));
    assert_eq!(Score::Stalemate.plus_value(1), Score::Stalemate);
}

#[test]
fn quiescence_band_is_one_pawn_wide() {
    assert_eq!(QUIESCENCE_BAND, 1000);
    assert!(Score::Value(0).is_in_quiescence_bounds(Score::Value(1000)));
    assert!(Score::Value(0).is_in_quiescence_bounds(Score::Value(-1000)));
    assert!(!Score::Value(0).is_in_quiescence_bounds(Score::Value(1001)));
    assert!(!Score::Value(-1).is_in_quiescence_bounds(Score::Value(1000)));
    assert!(Score::Value(i32::MAX).is_in_quiescence_bounds(Score::Value(i32::MAX - 1000)));
    assert!(!Score::Value(i32::MAX).is_in_quiescence_bounds(Score::Value(i32::MIN)));
    assert!(!Score::Value(0).is_in_quiescence_bounds(Score::EnemyWins));
    assert!(!Score::MeWins.is_in_quiescence_bounds(Score::MeWins));
}

#[test]
fn piece_values_bounties_and_penalties() {
    assert_eq!(Score::value_from_piece(Piece::Queen), 9500);
    assert_eq!(Score::value_from_piece(Piece::Rook), 5630);
    assert_eq!(Score::value_from_piece(Piece::Bishop), 3330);
    assert_eq!(Score::value_from_piece(Piece::Knight), 3050);
    assert_eq!(Score::value_from_piece(Piece::Pawn), 1000);
    assert_eq!(
        (QUEEN_VALUE, ROOK_VALUE, BISHOP_VALUE, KNIGHT_VALUE, PAWN_VALUE),
        (9500, 5630, 3330, 3050, 1000)
    );
    assert_eq!(Score::threat_bounty(Field::Empty), 54);
    assert_eq!(Score::threat_bounty(Field::WhitePiece(Piece::Pawn)), 71);
    assert_eq!(Score::threat_bounty(Field::BlackPiece(Piece::Knight)), 80);
    assert_eq!(Score::threat_bounty(Field::WhitePiece(Piece::Bishop)), 84);
    assert_eq!(Score::threat_bounty(Field::BlackPiece(Piece::Rook)), 96);
    assert_eq!(Score::threat_bounty(Field::WhitePiece(Piece::Queen)), 126);
    assert_eq!(Score::threat_bounty(Field::WhiteKing), 0);
    assert_eq!(Score::threat_bounty(Field::Invincible), 0);
    assert_eq!(Score::border_penalty(Piece::Queen), -600);
    assert_eq!(Score::border_penalty(Piece::Rook), -400);
    assert_eq!(Score::border_penalty(Piece::Bishop), -600);
    assert_eq!(Score::border_penalty(Piece::Knight), -1000);
    assert_eq!(Score::border_penalty(Piece::Pawn), 0);
    assert_eq!(
        (
            BORDER_QUEEN_PENALTY,
            BORDER_ROOK_PENALTY,
            BORDER_BISHOP_PENALTY,
            BORDER_KNIGHT_PENALTY,
            BORDER_PAWN_PENALTY
        ),
        (-600, -400, -600, -1000, 0)
    );
    assert_eq!(CASTLING_MOVE_SCORE, 900);
}

#[test]
fn start_position_evaluates_to_the_file_awards_alone() {
    let b = Board::new();
    assert_eq!(get_white_board_score(&b), 2600);
    assert_eq!(evaluation_by_rule(&b), 2600);
}

#[test]
fn evaluation_counts_material_placement_and_threats() {
    let mut b = Board::new();
    go(&mut b, (1, 0), (0, 2), MoveType::Regular);
    assert_eq!(get_white_board_score(&b), evaluation_by_rule(&b));
    let knight_on_the_rim = get_white_board_score(&b);
    let mut c = Board::new();
    go(&mut c, (1, 0), (2, 2), MoveType::Regular);
    assert_eq!(get_white_board_score(&c), evaluation_by_rule(&c));
    assert!(get_white_board_score(&c) > knight_on_the_rim);
    go(&mut c, (2, 2), (3, 6), MoveType::Capture);
    assert_eq!(get_white_board_score(&c), evaluation_by_rule(&c));
    let mut d = Board::new();
    go(&mut d, (3, 0), (3, 7), MoveType::Capture);
    assert_eq!(get_white_board_score(&d), evaluation_by_rule(&d));
    assert!(get_white_board_score(&d) > 9000);
    assert!(get_white_board_score(&d).abs() <= EVAL_BOUND);
}

#[test]
fn move_scores_follow_the_kind_of_move() {
    let mut b = Board::new();
    go(&mut b, (0, 1), (1, 6), MoveType::Capture);
    assert_eq!(get_move_score(&b, &m((0, 0), (0, 3), MoveType::Regular)), 0);
    assert_eq!(get_move_score(&b, &m((3, 1), (3, 3), MoveType::RegularPawnDoubleForward)), 0);
    assert_eq!(get_move_score(&b, &m((0, 0), (0, 6), MoveType::Capture)), 1000 - 5630 / 4);
    assert_eq!(get_move_score(&b, &m((1, 6), (0, 7), MoveType::Capture)), 5630 - 250);
    assert_eq!(get_move_score(&b, &m((3, 0), (3, 7), MoveType::Capture)), 9500 - 2375);
    assert_eq!(get_move_score(&b, &m((4, 0), (4, 7), MoveType::Capture)), 0);
    assert_eq!(
        get_move_score(
            &b,
            &m((4, 0), (6, 0), MoveType::Castle(Castle { rook_pos: p(7, 0), rook_target: p(5, 0) }))
        ),
        900
    );
    assert_eq!(
        get_move_score(&b, &m((1, 6), (1, 7), MoveType::Promote(Piece::Rook, PromotionType::Regular))),
        5630
    );
    assert_eq!(
        get_move_score(&b, &m((1, 6), (2, 7), MoveType::Promote(Piece::Queen, PromotionType::Capture))),
        9500 + 3330
    );
    assert_eq!(get_move_score(&b, &m((3, 4), (4, 5), MoveType::EnPassant(p(4, 4)))), 1000);
}

#[test]
fn sorted_moves_fall_in_score_and_keep_ties_in_order() {
    let mut b = Board::new();
    go(&mut b, (0, 1), (1, 6), MoveType::Capture);
    go(&mut b, (3, 1), (3, 5), MoveType::Regular);
    let sorted = get_sorted_moves(&b, Color::White);
    let mut plain = LongMoveList::new();
    b.enumerate_all_moves_by(Color::White, &mut plain);
    assert_eq!(sorted.len(), plain.len());
    let scores: Vec<i32> = sorted.slice().iter().map(|mv| get_move_score(&b, mv)).collect();
    for w in scores.windows(2) {
        assert!(w[0] >= w[1]);
    }
    assert!(scores[0] > 0);
    let mut want: Vec<Move> = plain.slice().to_vec();
    want.sort_by_key(|mv| -get_move_score(&b, mv));
    assert_eq!(sorted.slice(), &want[..]);
    assert_eq!(
        sorted.get(0),
        m((1, 6), (0, 7), MoveType::Promote(Piece::Queen, PromotionType::Capture))
    );
}

#[test]
fn the_engine_mates_in_one() {
    let b = before_fools_mate();
    let mate = m((3, 7), (7, 3), MoveType::Regular);
    for depth in 1..4 {
        let config = Config { depth, max_quiescence_depth: 1 };
        assert_eq!(decide(&b, Color::Black, config), Some(mate));
        assert_eq!(decide_scored(&b, Color::Black, config), Some((mate, Score::MeWins)));
    }
}

#[test]
fn the_engine_has_no_move_when_mated_or_stalemated() {
    let mut b = before_fools_mate();
    go(&mut b, (3, 7), (7, 3), MoveType::Regular);
    assert!(b.is_in_check(Color::White));
    assert_eq!(decide(&b, Color::White, Config { depth: 2, max_quiescence_depth: 1 }), None);
    assert_eq!(decide(&b, Color::White, Config { depth: 0, max_quiescence_depth: 0 }), None);
}

#[test]
fn the_engine_takes_a_hanging_queen() {
    let mut b = Board::new();
    go(&mut b, (3, 7), (3, 2), MoveType::Regular);
    let config = Config { depth: 1, max_quiescence_depth: 0 };
    let found = decide_scored(&b, Color::White, config);
    assert!(found.is_some());
    let (mv, score) = found.unwrap();
    assert_eq!(mv.end, p(3, 2));
    assert_eq!(mv.move_type, MoveType::Capture);
    assert!(matches!(score, Score::Value(v) if v > 5000));
}

#[test]
fn the_engine_answers_from_the_start_with_a_move_of_the_generator() {
    let b = Board::new();
    let mut all = LongMoveList::new();
    b.enumerate_all_moves_by(Color::White, &mut all);
    for depth in 0..3 {
        let mv = decide(&b, Color::White, Config { depth, max_quiescence_depth: 1 });
        assert!(mv.is_some());
        assert!(all.slice().contains(&mv.unwrap()));
        assert!(b.is_move_ok(&mv.unwrap()));
    }
}

#[test]
fn the_search_counts_a_leaf_for_the_side_at_the_root() {
    let mut b = Board::new();
    go(&mut b, (3, 0), (3, 7), MoveType::Capture);
    go(&mut b, (4, 7), (3, 7), MoveType::Capture);
    go(&mut b, (0, 0), (0, 6), MoveType::Capture);
    let config = Config { depth: 0, max_quiescence_depth: 0 };
    let (white_move, white_score) = decide_scored(&b, Color::White, config).unwrap();
    let mut after = b.clone();
    after.do_move(white_move);
    assert_eq!(white_score, Score::Value(get_white_board_score(&after)));
    let (black_move, black_score) = decide_scored(&b, Color::Black, config).unwrap();
    let mut after = b.clone();
    after.do_move(black_move);
    assert_eq!(black_score, Score::Value(-get_white_board_score(&after)));
}

#[test]
fn standard_configuration_is_five_and_four() {
    let c = Config::standard();
    assert_eq!(c.depth, 5);
    assert_eq!(c.max_quiescence_depth, 4);
    let d = Config::default();
    assert_eq!((d.depth, d.max_quiescence_depth), (5, 4));
}
