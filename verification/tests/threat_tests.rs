use chess_engine::board::{Board, Color, CommonCoord, Coord, Field, Piece, UnsafeCoord};
use chess_engine::moves::{Move, MoveType};
use chess_engine::threat::{Direction, King, ThreatMask};

fn at(x: i8, y: i8) -> Coord {
    Coord::from_xy(x, y)
}

fn step(b: &mut Board, from: (i8, i8), to: (i8, i8), t: MoveType) {
    let mv = Move { start: at(from.0, from.1), end: at(to.0, to.1), move_type: t };
    assert!(b.is_move_ok(&mv));
    b.do_move(mv);
}

fn owner(f: Field) -> Option<Color> {
    match f {
        Field::WhiteKing | Field::WhitePiece(_) => Some(Color::White),
        Field::BlackKing | Field::BlackPiece(_) => Some(Color::Black),
        _ => None,
    }
}

fn clear_between(b: &Board, t: (i8, i8), s: (i8, i8)) -> bool {
    let dx = (s.0 - t.0).signum();
    let dy = (s.1 - t.1).signum();
    let mut x = t.0 + dx;
    let mut y = t.1 + dy;
    while (x, y) != s {
        if *b.get(at(x, y)) != Field::Empty {
            return false;
        }
        x += dx;
        y += dy;
    }
    true
}

/// Whether the piece on `t` attacks `s`, worked out from the fields alone.
fn attacks_by_rule(b: &Board, t: (i8, i8), s: (i8, i8)) -> bool {
    if t == s {
        return false;
    }
    let dx = s.0 - t.0;
    let dy = s.1 - t.1;
    let straight = dx == 0 || dy == 0;
    let diagonal = dx.abs() == dy.abs();
    match *b.get(at(t.0, t.1)) {
        Field::WhiteKing | Field::BlackKing => dx.abs() <= 1 && dy.abs() <= 1,
        Field::WhitePiece(Piece::Pawn) => dy == 1 && dx.abs() == 1,
        Field::BlackPiece(Piece::Pawn) => dy == -1 && dx.abs() == 1,
        Field::WhitePiece(p) | Field::BlackPiece(p) => match p {
            Piece::Knight => {
                (dx.abs() == 1 && dy.abs() == 2) || (dx.abs() == 2 && dy.abs() == 1)
            }
            Piece::Rook => straight && clear_between(b, t, s),
            Piece::Bishop => diagonal && clear_between(b, t, s),
            Piece::Queen => (straight || diagonal) && clear_between(b, t, s),
            Piece::Pawn => false,
        },
        _ => false,
    }
}

fn listed(b: &Board, s: (i8, i8)) -> Vec<(i8, i8)> {
    let mut v: Vec<(i8, i8)> =
        b.threat_mask().get(at(s.0, s.1)).slice().iter().map(|c| c.as_xy()).collect();
    v.sort();
    v
}

fn expected(b: &Board, s: (i8, i8)) -> Vec<(i8, i8)> {
    let mut v = vec![];
    for x in 0..8i8 {
        for y in 0..8i8 {
            if attacks_by_rule(b, (x, y), s) {
                v.push((x, y));
            }
        }
    }
    v.sort();
    v
}

fn assert_mask_exact(b: &Board) {
    for x in 0..8i8 {
        for y in 0..8i8 {
            assert_eq!(listed(b, (x, y)), expected(b, (x, y)), "square {:?}", (x, y));
            assert!(b.threat_mask().get(at(x, y)).len() <= 16);
        }
    }
    for i in 0..120i8 {
        if b.get_if_safe(UnsafeCoord::at(i)).is_none() {
            assert!(b.threat_mask().get(UnsafeCoord::at(i)).is_empty());
        }
    }
}

fn assert_kings_consistent(b: &Board) {
    for color in [Color::White, Color::Black] {
        let king = b.get_king(color);
        let want = match color {
            Color::White => Field::WhiteKing,
            Color::Black => Field::BlackKing,
        };
        let mut count = 0;
        for x in 0..8i8 {
            for y in 0..8i8 {
                if *b.get(at(x, y)) == want {
                    count += 1;
                    assert_eq!(king.coord, at(x, y));
                }
            }
        }
        assert_eq!(count, 1);
        let mut enemies: Vec<Coord> = b
            .threat_mask()
            .get(king.coord)
            .slice()
            .iter()
            .copied()
            .filter(|c| owner(*b.get(*c)) == Some(!color))
            .collect();
        let mut aggressors: Vec<Coord> = king.aggressors.slice().to_vec();
        enemies.sort_by_key(|c| c.raw());
        aggressors.sort_by_key(|c| c.raw());
        assert_eq!(aggressors, enemies);
    }
}

fn played_position() -> Board {
    let mut b = Board::new();
    step(&mut b, (4, 1), (4, 3), MoveType::RegularPawnDoubleForward);
    step(&mut b, (3, 6), (3, 4), MoveType::RegularPawnDoubleForward);
    step(&mut b, (4, 3), (3, 4), MoveType::Capture);
    step(&mut b, (3, 7), (3, 4), MoveType::Capture);
    step(&mut b, (1, 0), (2, 2), MoveType::Regular);
    step(&mut b, (3, 4), (4, 4), MoveType::Regular);
    b
}

#[test]
fn new_mask_is_empty() {
    let m = ThreatMask::new();
    for i in 0..120i8 {
        assert!(m.get(UnsafeCoord::at(i)).is_empty());
    }
    let m = ThreatMask::default();
    assert!(m.get(at(3, 3)).is_empty());
}

#[test]
fn start_mask_lists_exactly_the_attackers() {
    let b = Board::new();
    assert_mask_exact(&b);
    assert_eq!(listed(&b, (4, 2)), vec![(3, 1), (5, 1)]);
    assert_eq!(listed(&b, (5, 2)), vec![(4, 1), (6, 0), (6, 1)]);
    assert_eq!(listed(&b, (4, 1)), vec![(3, 0), (4, 0), (5, 0), (6, 0)]);
    assert_eq!(listed(&b, (4, 3)), vec![]);
    assert_eq!(listed(&b, (0, 5)), vec![(1, 6), (1, 7)]);
}

#[test]
fn mask_follows_moves_captures_and_sliders() {
    let mut b = Board::new();
    assert_mask_exact(&b);
    step(&mut b, (4, 1), (4, 3), MoveType::RegularPawnDoubleForward);
    assert_mask_exact(&b);
    assert_eq!(listed(&b, (7, 4)), vec![(3, 0)]);
    assert_eq!(listed(&b, (0, 5)), vec![(1, 6), (1, 7), (5, 0)]);
    step(&mut b, (3, 6), (3, 4), MoveType::RegularPawnDoubleForward);
    assert_mask_exact(&b);
    step(&mut b, (4, 3), (3, 4), MoveType::Capture);
    assert_mask_exact(&b);
    step(&mut b, (3, 7), (3, 4), MoveType::Capture);
    assert_mask_exact(&b);
    step(&mut b, (1, 0), (2, 2), MoveType::Regular);
    assert_mask_exact(&b);
    step(&mut b, (3, 4), (4, 4), MoveType::Regular);
    assert_mask_exact(&b);
    assert_kings_consistent(&b);
    assert_eq!(b.get_king(Color::White).aggressors.slice(), &[at(4, 4)]);
}

#[test]
fn mask_follows_en_passant_castling_and_promotion() {
    let mut b = Board::new();
    step(&mut b, (3, 6), (3, 3), MoveType::Regular);
    step(&mut b, (4, 1), (4, 3), MoveType::RegularPawnDoubleForward);
    assert_eq!(b.en_passant_chance(), Some(at(4, 3)));
    step(&mut b, (3, 3), (4, 2), MoveType::EnPassant(at(4, 3)));
    assert_eq!(*b.get(at(4, 3)), Field::Empty);
    assert_eq!(*b.get(at(4, 2)), Field::BlackPiece(Piece::Pawn));
    assert_eq!(b.en_passant_chance(), None);
    assert_mask_exact(&b);
    assert_kings_consistent(&b);
    step(&mut b, (5, 0), (0, 5), MoveType::Regular);
    step(&mut b, (6, 0), (5, 2), MoveType::Regular);
    assert_mask_exact(&b);
    step(
        &mut b,
        (4, 0),
        (6, 0),
        MoveType::Castle(chess_engine::moves::Castle { rook_pos: at(7, 0), rook_target: at(5, 0) }),
    );
    assert_eq!(*b.get(at(6, 0)), Field::WhiteKing);
    assert_eq!(*b.get(at(5, 0)), Field::WhitePiece(Piece::Rook));
    assert_eq!(*b.get(at(4, 0)), Field::Empty);
    assert_eq!(*b.get(at(7, 0)), Field::Empty);
    assert_mask_exact(&b);
    assert_kings_consistent(&b);
    step(
        &mut b,
        (4, 2),
        (3, 0),
        MoveType::Promote(Piece::Knight, chess_engine::moves::PromotionType::Capture),
    );
    assert_eq!(*b.get(at(3, 0)), Field::BlackPiece(Piece::Knight));
    assert_mask_exact(&b);
    assert_kings_consistent(&b);
}

#[test]
fn en_passant_on_a_rank_with_a_rook_opens_the_whole_rank() {
    let mut b = Board::new();
    step(&mut b, (0, 7), (0, 3), MoveType::Regular);
    step(&mut b, (3, 6), (3, 3), MoveType::Regular);
    step(&mut b, (7, 0), (7, 3), MoveType::Regular);
    step(&mut b, (4, 1), (4, 3), MoveType::RegularPawnDoubleForward);
    assert_eq!(listed(&b, (3, 3)), vec![(0, 3), (3, 7)]);
    assert_eq!(listed(&b, (4, 3)), vec![(7, 3)]);
    assert!(!listed(&b, (7, 3)).contains(&(0, 3)));
    step(&mut b, (3, 3), (4, 2), MoveType::EnPassant(at(4, 3)));
    assert_eq!(listed(&b, (3, 3)), vec![(0, 3), (3, 7), (7, 3)]);
    assert_eq!(listed(&b, (4, 3)), vec![(0, 3), (7, 3)]);
    assert!(listed(&b, (7, 3)).contains(&(0, 3)));
    assert!(listed(&b, (0, 3)).contains(&(7, 3)));
    assert_mask_exact(&b);
}

#[test]
fn rebuilt_mask_agrees_with_the_kept_one() {
    let b = played_position();
    let mut r = b.clone();
    r.rebuild_threat_mask();
    for x in 0..8i8 {
        for y in 0..8i8 {
            assert_eq!(listed(&b, (x, y)), listed(&r, (x, y)));
        }
    }
    assert_mask_exact(&r);
}

#[test]
fn every_generated_move_keeps_the_mask_exact() {
    let b = played_position();
    for color in [Color::White, Color::Black] {
        let mut moves = chess_engine::moves::LongMoveList::new();
        b.enumerate_all_moves_by(color, &mut moves);
        assert!(!moves.is_empty());
        for mv in moves.slice() {
            let mut c = b.clone();
            c.do_move(*mv);
            assert_mask_exact(&c);
            assert_kings_consistent(&c);
            let mut r = c.clone();
            r.rebuild_threat_mask();
            for x in 0..8i8 {
                for y in 0..8i8 {
                    assert_eq!(listed(&c, (x, y)), listed(&r, (x, y)));
                }
            }
        }
    }
}

#[test]
fn causing_threats_of_a_knight_and_a_rook() {
    let b = Board::new();
    let mut knight: Vec<i8> =
        b.get_causing_threats(at(1, 0)).slice().iter().map(|c| c.raw()).collect();
    knight.sort();
    assert_eq!(knight, vec![1, 3, 10, 14, 30, 34, 41, 43]);
    let rook: Vec<i8> = b.get_causing_threats(at(0, 0)).slice().iter().map(|c| c.raw()).collect();
    assert_eq!(rook, vec![22, 31]);
    let empty = b.get_causing_threats(at(4, 4));
    assert!(empty.is_empty());
    let pawn: Vec<i8> = b.get_causing_threats(at(0, 6)).slice().iter().map(|c| c.raw()).collect();
    assert_eq!(pawn, vec![70, 72]);
}

#[test]
fn causing_threats_of_a_queen_on_an_open_board() {
    let mut b = Board::new();
    step(&mut b, (3, 0), (3, 3), MoveType::Regular);
    let mut queen: Vec<(i8, i8)> = b
        .get_causing_threats(at(3, 3))
        .slice()
        .iter()
        .map(|c| ((c.raw() % 10) - 1, (c.raw() / 10) - 2))
        .collect();
    queen.sort();
    let mut want = vec![];
    for x in 0..8i8 {
        for y in 0..8i8 {
            if attacks_by_rule(&b, (3, 3), (x, y)) {
                want.push((x, y));
            }
        }
    }
    want.sort();
    assert_eq!(queen, want);
    assert_eq!(queen.len(), 22);
}

#[test]
fn threatened_by_looks_at_the_side_opposing_the_color() {
    let b = Board::new();
    assert!(b.get_threatened_by(at(4, 2), Color::Black));
    assert!(!b.get_threatened_by(at(4, 2), Color::White));
    assert!(b.get_threatened_by(at(4, 5), Color::White));
    assert!(!b.get_threatened_by(at(4, 3), Color::White));
    assert!(!b.get_threatened_by(UnsafeCoord::at(0), Color::White));
    assert!(!b.get_threatened_by(UnsafeCoord::at(-5), Color::White));
    assert!(!b.is_in_check(Color::White));
    assert!(!b.is_in_check(Color::Black));
    let p = played_position();
    assert!(p.is_in_check(Color::White));
    assert!(!p.is_in_check(Color::Black));
}

#[test]
fn directions_have_steps() {
    assert_eq!(Direction::Up.get_xy(), (0, 1));
    assert_eq!(Direction::Down.get_xy(), (0, -1));
    assert_eq!(Direction::Left.get_xy(), (-1, 0));
    assert_eq!(Direction::Right.get_xy(), (1, 0));
    assert_eq!(Direction::UpLeft.get_xy(), (-1, 1));
    assert_eq!(Direction::UpRight.get_xy(), (1, 1));
    assert_eq!(Direction::DownLeft.get_xy(), (-1, -1));
    assert_eq!(Direction::DownRight.get_xy(), (1, -1));
    assert!(!Direction::Up.is_diagonal());
    assert!(!Direction::Left.is_diagonal());
    assert!(Direction::UpLeft.is_diagonal());
    assert!(Direction::DownRight.is_diagonal());
}

#[test]
fn new_king_stands_at_home_with_all_rights() {
    let w = King::new(Color::White);
    assert_eq!(w.coord, at(4, 0));
    assert!(w.castling_to_left && w.castling_to_right);
    assert!(w.aggressors.is_empty());
    assert!(w.potential_check_map.iter().all(|e| e.is_none()));
    let k = King::new(Color::Black);
    assert_eq!(k.coord, at(4, 7));
    assert_eq!(*k.get_potential_check(at(3, 3)), None);
    assert_eq!(*k.get_potential_check(UnsafeCoord::at(-3)), None);
    let mut c = w.clone();
    c.potential_check_map[30] = Some((at(0, 0), Direction::Up));
    c.clean_check_map();
    assert!(c.potential_check_map.iter().all(|e| e.is_none()));
    assert_eq!(c.coord, at(4, 0));
}

#[test]
fn pin_index_names_the_pinned_piece_and_its_attacker() {
    let mut b = Board::new();
    step(&mut b, (4, 1), (0, 2), MoveType::Regular);
    step(&mut b, (4, 6), (0, 5), MoveType::Regular);
    step(&mut b, (3, 7), (4, 5), MoveType::Regular);
    step(&mut b, (5, 0), (4, 2), MoveType::Regular);
    let king = b.get_king(Color::White);
    assert_eq!(*king.get_potential_check(at(4, 2)), Some((at(4, 5), Direction::Up)));
    let mut entries = 0;
    for x in 0..8i8 {
        for y in 0..8i8 {
            if king.get_potential_check(at(x, y)).is_some() {
                entries += 1;
            }
        }
    }
    assert_eq!(entries, 1);
    assert_eq!(*b.get(at(4, 2)), Field::WhitePiece(Piece::Bishop));
    assert!(!b.is_in_check(Color::White));
    let mut lifted = b.clone();
    step(&mut lifted, (4, 2), (7, 5), MoveType::Regular);
    assert!(lifted.is_in_check(Color::White));
    assert_eq!(lifted.get_king(Color::White).aggressors.slice(), &[at(4, 5)]);
    let black = b.get_king(Color::Black);
    for x in 0..8i8 {
        for y in 0..8i8 {
            assert_eq!(*black.get_potential_check(at(x, y)), None);
        }
    }
}

#[test]
fn a_rook_does_not_pin_along_a_diagonal() {
    let mut b = Board::new();
    step(&mut b, (5, 1), (0, 2), MoveType::Regular);
    step(&mut b, (6, 1), (0, 3), MoveType::Regular);
    step(&mut b, (0, 7), (7, 3), MoveType::Regular);
    step(&mut b, (3, 1), (6, 2), MoveType::Regular);
    let king = b.get_king(Color::White);
    assert_eq!(*king.get_potential_check(at(6, 2)), None);
    step(&mut b, (7, 3), (0, 4), MoveType::Regular);
    step(&mut b, (5, 7), (7, 3), MoveType::Regular);
    let king = b.get_king(Color::White);
    assert_eq!(*king.get_potential_check(at(6, 2)), Some((at(7, 3), Direction::UpRight)));
}

#[test]
fn update_functions_change_nothing_on_a_consistent_board() {
    let mut b = played_position();
    let before: Vec<Coord> = b.get_king(Color::White).aggressors.slice().to_vec();
    b.update_aggressors(Color::White);
    b.update_aggressors(Color::Black);
    b.update_potential_checks();
    assert_eq!(b.get_king(Color::White).aggressors.slice(), &before[..]);
    assert_kings_consistent(&b);
    assert_mask_exact(&b);
}
