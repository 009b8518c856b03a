use chess_engine::board::{Board, Color, Coord, Field, Piece};
use chess_engine::moves::{Castle, LongMoveList, Move, MoveList, MoveType, PromotionType};

fn c(x: i8, y: i8) -> Coord {
    Coord::from_xy(x, y)
}

fn mv(from: (i8, i8), to: (i8, i8), t: MoveType) -> Move {
    Move { start: c(from.0, from.1), end: c(to.0, to.1), move_type: t }
}

fn play(b: &mut Board, from: (i8, i8), to: (i8, i8), t: MoveType) {
    let m = mv(from, to, t);
    assert!(b.is_move_ok(&m));
    b.do_move(m);
}

fn all(b: &Board, color: Color) -> Vec<Move> {
    let mut l = LongMoveList::new();
    b.enumerate_all_moves_by(color, &mut l);
    l.slice().to_vec()
}

fn of(b: &Board, color: Color, x: i8, y: i8) -> Vec<Move> {
    let l: MoveList = b.enumerate_moves(color, c(x, y));
    l.slice().to_vec()
}

fn owner(f: Field) -> Option<Color> {
    match f {
        Field::WhiteKing | Field::WhitePiece(_) => Some(Color::White),
        Field::BlackKing | Field::BlackPiece(_) => Some(Color::Black),
        _ => None,
    }
}

fn clear_path(b: &Board, t: (i8, i8), s: (i8, i8)) -> bool {
    let dx = (s.0 - t.0).signum();
    let dy = (s.1 - t.1).signum();
    let mut x = t.0 + dx;
    let mut y = t.1 + dy;
    while (x, y) != s {
        if *b.get(c(x, y)) != Field::Empty {
            return false;
        }
        x += dx;
        y += dy;
    }
    true
}

fn hits(b: &Board, t: (i8, i8), s: (i8, i8)) -> bool {
    if t == s {
        return false;
    }
    let dx = s.0 - t.0;
    let dy = s.1 - t.1;
    let straight = dx == 0 || dy == 0;
    let diagonal = dx.abs() == dy.abs();
    match *b.get(c(t.0, t.1)) {
        Field::WhiteKing | Field::BlackKing => dx.abs() <= 1 && dy.abs() <= 1,
        Field::WhitePiece(Piece::Pawn) => dy == 1 && dx.abs() == 1,
        Field::BlackPiece(Piece::Pawn) => dy == -1 && dx.abs() == 1,
        Field::WhitePiece(p) | Field::BlackPiece(p) => match p {
            Piece::Knight => {
                (dx.abs() == 1 && dy.abs() == 2) || (dx.abs() == 2 && dy.abs() == 1)
            }
            Piece::Rook => straight && clear_path(b, t, s),
            Piece::Bishop => diagonal && clear_path(b, t, s),
            Piece::Queen => (straight || diagonal) && clear_path(b, t, s),
            Piece::Pawn => false,
        },
        _ => false,
    }
}

/// Whether the king of `color` is attacked, worked out from the fields alone.
fn king_attacked(b: &Board, color: Color) -> bool {
    let want = match color {
        Color::White => Field::WhiteKing,
        Color::Black => Field::BlackKing,
    };
    let mut king = (0, 0);
    for x in 0..8i8 {
        for y in 0..8i8 {
            if *b.get(c(x, y)) == want {
                king = (x, y);
            }
        }
    }
    for x in 0..8i8 {
        for y in 0..8i8 {
            if owner(*b.get(c(x, y))) == Some(!color) && hits(b, (x, y), king) {
                return true;
            }
        }
    }
    false
}

fn assert_moves_leave_king_safe(b: &Board, color: Color) {
    for m in all(b, color) {
        assert_eq!(owner(*b.get(m.start)), Some(color));
        let mut after = b.clone();
        assert!(b.is_move_ok(&m));
        after.do_move(m);
        assert!(!king_attacked(&after, color), "{:?}", m);
        assert!(!after.is_in_check(color), "{:?}", m);
    }
}

#[test]
fn twenty_moves_from_the_start() {
    let b = Board::new();
    let moves = all(&b, Color::White);
    assert_eq!(moves.len(), 20);
    let single = moves.iter().filter(|m| m.move_type == MoveType::Regular
        && *b.get(m.start) == Field::WhitePiece(Piece::Pawn)).count();
    let double =
        moves.iter().filter(|m| m.move_type == MoveType::RegularPawnDoubleForward).count();
    let knight = moves.iter().filter(|m| *b.get(m.start) == Field::WhitePiece(Piece::Knight)).count();
    assert_eq!((single, double, knight), (8, 8, 4));
    let black = all(&b, Color::Black);
    assert_eq!(black.len(), 20);
}

#[test]
fn moves_from_the_start_come_square_by_square() {
    let b = Board::new();
    let moves = all(&b, Color::White);
    assert_eq!(moves[0], mv((1, 0), (2, 2), MoveType::Regular));
    assert_eq!(moves[1], mv((1, 0), (0, 2), MoveType::Regular));
    assert_eq!(moves[2], mv((6, 0), (7, 2), MoveType::Regular));
    assert_eq!(moves[3], mv((6, 0), (5, 2), MoveType::Regular));
    assert_eq!(moves[4], mv((0, 1), (0, 2), MoveType::Regular));
    assert_eq!(moves[5], mv((0, 1), (0, 3), MoveType::RegularPawnDoubleForward));
    assert_eq!(moves[19], mv((7, 1), (7, 3), MoveType::RegularPawnDoubleForward));
}

#[test]
fn enumerate_all_appends_to_the_list() {
    let b = Board::new();
    let mut l = LongMoveList::new();
    let first = mv((0, 1), (0, 2), MoveType::Regular);
    l.append(first);
    b.enumerate_all_moves_by(Color::White, &mut l);
    assert_eq!(l.len(), 21);
    assert_eq!(l.get(0), first);
    assert_eq!(l.get(1), mv((1, 0), (2, 2), MoveType::Regular));
}

#[test]
fn pieces_of_the_start_position_move_as_they_should() {
    let b = Board::new();
    assert_eq!(
        of(&b, Color::White, 4, 1),
        vec![
            mv((4, 1), (4, 2), MoveType::Regular),
            mv((4, 1), (4, 3), MoveType::RegularPawnDoubleForward)
        ]
    );
    assert_eq!(
        of(&b, Color::White, 1, 0),
        vec![mv((1, 0), (2, 2), MoveType::Regular), mv((1, 0), (0, 2), MoveType::Regular)]
    );
    assert_eq!(of(&b, Color::White, 0, 0), vec![]);
    assert_eq!(of(&b, Color::White, 2, 0), vec![]);
    assert_eq!(of(&b, Color::White, 3, 0), vec![]);
    assert_eq!(of(&b, Color::White, 4, 0), vec![]);
    assert_eq!(of(&b, Color::White, 4, 4), vec![]);
    assert_eq!(
        of(&b, Color::Black, 4, 6),
        vec![
            mv((4, 6), (4, 5), MoveType::Regular),
            mv((4, 6), (4, 4), MoveType::RegularPawnDoubleForward)
        ]
    );
}

#[test]
fn sliders_stop_at_the_first_piece_and_capture_enemies() {
    let mut b = Board::new();
    play(&mut b, (0, 0), (3, 3), MoveType::Regular);
    let rook = of(&b, Color::White, 3, 3);
    assert_eq!(
        rook,
        vec![
            mv((3, 3), (4, 3), MoveType::Regular),
            mv((3, 3), (5, 3), MoveType::Regular),
            mv((3, 3), (6, 3), MoveType::Regular),
            mv((3, 3), (7, 3), MoveType::Regular),
            mv((3, 3), (2, 3), MoveType::Regular),
            mv((3, 3), (1, 3), MoveType::Regular),
            mv((3, 3), (0, 3), MoveType::Regular),
            mv((3, 3), (3, 4), MoveType::Regular),
            mv((3, 3), (3, 5), MoveType::Regular),
            mv((3, 3), (3, 6), MoveType::Capture),
            mv((3, 3), (3, 2), MoveType::Regular),
        ]
    );
    play(&mut b, (2, 0), (4, 4), MoveType::Regular);
    let bishop = of(&b, Color::White, 4, 4);
    assert_eq!(
        bishop,
        vec![
            mv((4, 4), (5, 5), MoveType::Regular),
            mv((4, 4), (6, 6), MoveType::Capture),
            mv((4, 4), (3, 5), MoveType::Regular),
            mv((4, 4), (2, 6), MoveType::Capture),
            mv((4, 4), (5, 3), MoveType::Regular),
            mv((4, 4), (6, 2), MoveType::Regular),
        ]
    );
    play(&mut b, (3, 0), (0, 3), MoveType::Regular);
    let queen = of(&b, Color::White, 0, 3);
    assert_eq!(queen.len(), 10);
    assert!(queen.contains(&mv((0, 3), (0, 6), MoveType::Capture)));
    assert!(queen.contains(&mv((0, 3), (3, 6), MoveType::Capture)));
    assert!(!queen.iter().any(|m| m.end == c(3, 3)));
}

#[test]
fn sliders_never_capture_a_king() {
    let mut b = Board::new();
    play(&mut b, (4, 6), (0, 5), MoveType::Regular);
    play(&mut b, (4, 1), (0, 2), MoveType::Regular);
    play(&mut b, (3, 0), (4, 3), MoveType::Regular);
    let queen = of(&b, Color::White, 4, 3);
    assert!(!queen.iter().any(|m| m.end == c(4, 7)));
    assert!(queen.contains(&mv((4, 3), (4, 6), MoveType::Regular)));
    assert!(b.is_in_check(Color::Black));
}

#[test]
fn en_passant_is_offered_to_the_pawn_beside() {
    let mut b = Board::new();
    play(&mut b, (3, 6), (3, 3), MoveType::Regular);
    play(&mut b, (4, 1), (4, 3), MoveType::RegularPawnDoubleForward);
    assert_eq!(b.en_passant_chance(), Some(c(4, 3)));
    let pawn = of(&b, Color::Black, 3, 3);
    let passing: Vec<&Move> =
        pawn.iter().filter(|m| matches!(m.move_type, MoveType::EnPassant(_))).collect();
    assert_eq!(passing.len(), 1);
    assert_eq!(*passing[0], mv((3, 3), (4, 2), MoveType::EnPassant(c(4, 3))));
    assert_eq!(
        pawn,
        vec![mv((3, 3), (3, 2), MoveType::Regular), mv((3, 3), (4, 2), MoveType::EnPassant(c(4, 3)))]
    );
    assert!(!of(&b, Color::Black, 0, 6).iter().any(|m| matches!(m.move_type, MoveType::EnPassant(_))));
    play(&mut b, (0, 6), (0, 5), MoveType::Regular);
    assert_eq!(b.en_passant_chance(), None);
    assert_eq!(of(&b, Color::Black, 3, 3), vec![mv((3, 3), (3, 2), MoveType::Regular)]);
}

#[test]
fn en_passant_is_not_offered_against_an_own_pawn() {
    let mut b = Board::new();
    play(&mut b, (3, 1), (3, 3), MoveType::Regular);
    play(&mut b, (4, 1), (4, 3), MoveType::RegularPawnDoubleForward);
    let pawn = of(&b, Color::White, 3, 3);
    assert_eq!(pawn, vec![mv((3, 3), (3, 4), MoveType::Regular)]);
}

#[test]
fn castling_needs_empty_and_safe_squares() {
    let mut b = Board::new();
    let short = mv(
        (4, 0),
        (6, 0),
        MoveType::Castle(Castle { rook_pos: c(7, 0), rook_target: c(5, 0) }),
    );
    let long = mv(
        (4, 0),
        (2, 0),
        MoveType::Castle(Castle { rook_pos: c(0, 0), rook_target: c(3, 0) }),
    );
    assert!(!of(&b, Color::White, 4, 0).contains(&short));
    play(&mut b, (5, 0), (0, 2), MoveType::Regular);
    assert!(!of(&b, Color::White, 4, 0).contains(&short));
    play(&mut b, (6, 0), (0, 3), MoveType::Regular);
    let king = of(&b, Color::White, 4, 0);
    assert_eq!(king, vec![mv((4, 0), (5, 0), MoveType::Regular), short]);
    let mut attacked = b.clone();
    play(&mut attacked, (6, 1), (1, 2), MoveType::Regular);
    play(&mut attacked, (0, 7), (6, 4), MoveType::Regular);
    assert!(!of(&attacked, Color::White, 4, 0).contains(&short));
    assert!(of(&attacked, Color::White, 4, 0).contains(&mv((4, 0), (5, 0), MoveType::Regular)));
    let mut crossed = b.clone();
    play(&mut crossed, (5, 1), (1, 2), MoveType::Regular);
    play(&mut crossed, (0, 7), (5, 4), MoveType::Regular);
    assert_eq!(of(&crossed, Color::White, 4, 0), vec![]);
    play(&mut b, (3, 0), (1, 2), MoveType::Regular);
    play(&mut b, (2, 0), (1, 3), MoveType::Regular);
    assert!(!of(&b, Color::White, 4, 0).contains(&long));
    play(&mut b, (1, 0), (1, 4), MoveType::Regular);
    let king = of(&b, Color::White, 4, 0);
    assert_eq!(
        king,
        vec![
            mv((4, 0), (5, 0), MoveType::Regular),
            mv((4, 0), (3, 0), MoveType::Regular),
            short,
            long
        ]
    );
    let mut castled = b.clone();
    castled.do_move(long);
    assert_eq!(*castled.get(c(2, 0)), Field::WhiteKing);
    assert_eq!(*castled.get(c(3, 0)), Field::WhitePiece(Piece::Rook));
    assert_eq!(*castled.get(c(0, 0)), Field::Empty);
    assert_eq!(*castled.get(c(4, 0)), Field::Empty);
    assert_eq!(castled.get_king(Color::White).coord, c(2, 0));
    assert!(!castled.get_king(Color::White).castling_to_left);
    assert!(!castled.get_king(Color::White).castling_to_right);
    assert!(castled.get_king(Color::Black).castling_to_left);
}

#[test]
fn castling_rights_are_lost_with_king_and_rook_moves() {
    let mut b = Board::new();
    play(&mut b, (7, 0), (7, 3), MoveType::Regular);
    assert!(b.get_king(Color::White).castling_to_left);
    assert!(!b.get_king(Color::White).castling_to_right);
    play(&mut b, (7, 3), (7, 0), MoveType::Regular);
    assert!(b.get_king(Color::White).castling_to_left);
    assert!(!b.get_king(Color::White).castling_to_right);
    play(&mut b, (5, 0), (0, 2), MoveType::Regular);
    play(&mut b, (6, 0), (0, 3), MoveType::Regular);
    assert!(!of(&b, Color::White, 4, 0).iter().any(|m| matches!(m.move_type, MoveType::Castle(_))));
    play(&mut b, (0, 7), (0, 4), MoveType::Regular);
    assert!(!b.get_king(Color::Black).castling_to_left);
    assert!(b.get_king(Color::Black).castling_to_right);
    play(&mut b, (4, 7), (4, 4), MoveType::Regular);
    assert!(!b.get_king(Color::Black).castling_to_right);
    assert_eq!(b.get_king(Color::Black).coord, c(4, 4));
    play(&mut b, (1, 0), (1, 3), MoveType::Regular);
    assert!(b.get_king(Color::White).castling_to_left);
}

#[test]
fn a_pawn_on_the_seventh_rank_promotes_to_five_kinds() {
    let mut b = Board::new();
    play(&mut b, (0, 1), (1, 6), MoveType::Capture);
    play(&mut b, (1, 7), (2, 5), MoveType::Regular);
    let pawn = of(&b, Color::White, 1, 6);
    let kinds = [Piece::Queen, Piece::Rook, Piece::Knight, Piece::Bishop, Piece::Pawn];
    let mut want = vec![];
    for k in kinds {
        want.push(mv((1, 6), (1, 7), MoveType::Promote(k, PromotionType::Regular)));
    }
    for k in kinds {
        want.push(mv((1, 6), (0, 7), MoveType::Promote(k, PromotionType::Capture)));
    }
    for k in kinds {
        want.push(mv((1, 6), (2, 7), MoveType::Promote(k, PromotionType::Capture)));
    }
    assert_eq!(pawn, want);
    let plain = pawn
        .iter()
        .filter(|m| matches!(m.move_type, MoveType::Promote(_, PromotionType::Regular)))
        .count();
    assert_eq!(plain, 5);
    let mut promoted = b.clone();
    promoted.do_move(mv((1, 6), (1, 7), MoveType::Promote(Piece::Queen, PromotionType::Regular)));
    assert_eq!(*promoted.get(c(1, 7)), Field::WhitePiece(Piece::Queen));
    assert_eq!(*promoted.get(c(1, 6)), Field::Empty);
    let mut taken = b.clone();
    taken.do_move(mv((1, 6), (0, 7), MoveType::Promote(Piece::Knight, PromotionType::Capture)));
    assert_eq!(*taken.get(c(0, 7)), Field::WhitePiece(Piece::Knight));
}

#[test]
fn a_pinned_knight_cannot_move_and_a_pinned_bishop_not_off_its_line() {
    let mut b = Board::new();
    play(&mut b, (4, 1), (0, 2), MoveType::Regular);
    play(&mut b, (4, 6), (0, 5), MoveType::Regular);
    play(&mut b, (3, 7), (4, 5), MoveType::Regular);
    play(&mut b, (1, 0), (4, 2), MoveType::Regular);
    assert_eq!(of(&b, Color::White, 4, 2), vec![]);
    play(&mut b, (4, 2), (1, 3), MoveType::Regular);
    play(&mut b, (5, 0), (4, 2), MoveType::Regular);
    assert_eq!(of(&b, Color::White, 4, 2), vec![]);
    play(&mut b, (4, 2), (1, 4), MoveType::Regular);
    play(&mut b, (3, 0), (4, 2), MoveType::Regular);
    assert_eq!(
        of(&b, Color::White, 4, 2),
        vec![
            mv((4, 2), (4, 3), MoveType::Regular),
            mv((4, 2), (4, 4), MoveType::Regular),
            mv((4, 2), (4, 5), MoveType::Capture),
            mv((4, 2), (4, 1), MoveType::Regular),
        ]
    );
    assert_moves_leave_king_safe(&b, Color::White);
}

#[test]
fn in_check_only_answers_to_the_check_are_offered() {
    let mut b = Board::new();
    play(&mut b, (4, 1), (4, 3), MoveType::RegularPawnDoubleForward);
    play(&mut b, (3, 6), (3, 4), MoveType::RegularPawnDoubleForward);
    play(&mut b, (4, 3), (3, 4), MoveType::Capture);
    play(&mut b, (3, 7), (3, 4), MoveType::Capture);
    play(&mut b, (1, 0), (2, 2), MoveType::Regular);
    play(&mut b, (3, 4), (4, 4), MoveType::Regular);
    assert!(b.is_in_check(Color::White));
    let moves = all(&b, Color::White);
    assert_eq!(
        moves,
        vec![
            mv((3, 0), (4, 1), MoveType::Regular),
            mv((5, 0), (4, 1), MoveType::Regular),
            mv((6, 0), (4, 1), MoveType::Regular),
            mv((2, 2), (4, 3), MoveType::Regular),
            mv((2, 2), (4, 1), MoveType::Regular),
        ]
    );
    for m in &moves {
        assert!(b.is_check_saving(Color::White, m), "{:?}", m);
    }
    assert!(!b.is_check_saving(Color::White, &mv((0, 1), (0, 2), MoveType::Regular)));
    assert!(!b.is_check_saving(Color::Black, &mv((0, 6), (0, 5), MoveType::Regular)));
    assert_moves_leave_king_safe(&b, Color::White);
    assert_moves_leave_king_safe(&b, Color::Black);
}

#[test]
fn a_check_by_a_knight_cannot_be_blocked() {
    let mut b = Board::new();
    play(&mut b, (1, 7), (3, 2), MoveType::Regular);
    assert!(b.is_in_check(Color::White));
    let moves = all(&b, Color::White);
    assert_eq!(
        moves,
        vec![
            mv((2, 1), (3, 2), MoveType::Capture),
            mv((4, 1), (3, 2), MoveType::Capture),
        ]
    );
    assert_moves_leave_king_safe(&b, Color::White);
}

#[test]
fn in_double_check_only_the_king_moves() {
    let mut b = Board::new();
    play(&mut b, (4, 1), (0, 2), MoveType::Regular);
    play(&mut b, (3, 1), (0, 3), MoveType::Regular);
    play(&mut b, (0, 7), (4, 4), MoveType::Regular);
    play(&mut b, (1, 7), (3, 2), MoveType::Regular);
    assert_eq!(b.get_king(Color::White).aggressors.len(), 2);
    let moves = all(&b, Color::White);
    assert!(!moves.is_empty());
    assert!(moves.iter().all(|m| m.start == c(4, 0)));
    assert_eq!(moves, vec![mv((4, 0), (3, 1), MoveType::Regular)]);
    assert_moves_leave_king_safe(&b, Color::White);
}

#[test]
fn a_king_does_not_step_onto_an_attacked_square_or_along_the_line_of_a_check() {
    let mut b = Board::new();
    play(&mut b, (4, 0), (4, 3), MoveType::Regular);
    play(&mut b, (0, 7), (0, 3), MoveType::Regular);
    assert!(b.is_in_check(Color::White));
    let king = of(&b, Color::White, 4, 3);
    assert_eq!(
        king,
        vec![
            mv((4, 3), (4, 4), MoveType::Regular),
            mv((4, 3), (4, 2), MoveType::Regular),
            mv((4, 3), (3, 4), MoveType::Regular),
            mv((4, 3), (3, 2), MoveType::Regular),
            mv((4, 3), (5, 4), MoveType::Regular),
            mv((4, 3), (5, 2), MoveType::Regular),
        ]
    );
    assert_moves_leave_king_safe(&b, Color::White);
}

#[test]
fn generated_moves_leave_the_own_king_safe() {
    let mut b = Board::new();
    assert_moves_leave_king_safe(&b, Color::White);
    assert_moves_leave_king_safe(&b, Color::Black);
    let line = [
        ((4, 1), (4, 3), MoveType::RegularPawnDoubleForward),
        ((4, 6), (4, 4), MoveType::RegularPawnDoubleForward),
        ((6, 0), (5, 2), MoveType::Regular),
        ((1, 7), (2, 5), MoveType::Regular),
        ((5, 0), (1, 4), MoveType::Regular),
        ((0, 6), (0, 5), MoveType::Regular),
        ((1, 4), (2, 5), MoveType::Capture),
        ((3, 6), (2, 5), MoveType::Capture),
        ((5, 2), (4, 4), MoveType::Capture),
        ((3, 7), (3, 3), MoveType::Regular),
        ((4, 4), (5, 2), MoveType::Regular),
        ((3, 3), (4, 3), MoveType::Capture),
    ];
    let mut color = Color::White;
    for (from, to, t) in line {
        let m = mv(from, to, t);
        assert!(all(&b, color).contains(&m), "{:?}", m);
        b.do_move(m);
        color = !color;
        assert_moves_leave_king_safe(&b, Color::White);
        assert_moves_leave_king_safe(&b, Color::Black);
    }
    assert!(b.is_in_check(Color::White));
}

#[test]
fn pin_filter_uses_the_index_of_the_king_it_is_given() {
    let mut b = Board::new();
    play(&mut b, (4, 1), (0, 2), MoveType::Regular);
    play(&mut b, (4, 6), (0, 5), MoveType::Regular);
    play(&mut b, (3, 7), (4, 5), MoveType::Regular);
    play(&mut b, (3, 0), (4, 2), MoveType::Regular);
    let king = b.get_king(Color::White);
    let along = mv((4, 2), (4, 4), MoveType::Regular);
    let off = mv((4, 2), (3, 2), MoveType::Regular);
    let takes = mv((4, 2), (4, 5), MoveType::Capture);
    let other = mv((0, 1), (0, 3), MoveType::Regular);
    assert!(!b.is_potential_check(king, &along));
    assert!(b.is_potential_check(king, &off));
    assert!(!b.is_potential_check(king, &takes));
    assert!(!b.is_potential_check(king, &other));
    assert!(!b.is_potential_check(b.get_king(Color::Black), &off));
    let mut l: MoveList = MoveList::new();
    l.append(off);
    l.append(along);
    l.append(off);
    l.append(takes);
    b.filter_potential_checks(king, 1, &mut l);
    assert_eq!(l.slice(), &[off, along, takes]);
    b.filter_potential_checks(king, 0, &mut l);
    assert_eq!(l.slice(), &[along, takes]);
}

#[test]
fn filter_checks_keeps_answers_from_the_start_index_on() {
    let mut b = Board::new();
    play(&mut b, (1, 7), (3, 2), MoveType::Regular);
    let takes = mv((2, 1), (3, 2), MoveType::Capture);
    let idle = mv((0, 1), (0, 2), MoveType::Regular);
    let mut l: MoveList = MoveList::new();
    l.append(idle);
    l.append(takes);
    l.append(idle);
    b.filter_checks(Color::White, 1, &mut l);
    assert_eq!(l.slice(), &[idle, takes]);
    b.filter_checks(Color::White, 0, &mut l);
    assert_eq!(l.slice(), &[takes]);
    b.filter_checks(Color::Black, 0, &mut l);
    assert!(l.is_empty());
}

#[test]
fn do_move_is_refused_by_is_move_ok_for_king_captures_and_empty_starts() {
    let b = Board::new();
    assert!(!b.is_move_ok(&mv((4, 3), (4, 4), MoveType::Regular)));
    assert!(!b.is_move_ok(&mv((3, 0), (4, 7), MoveType::Capture)));
    assert!(!b.is_move_ok(&mv((3, 0), (3, 0), MoveType::Regular)));
    assert!(!b.is_move_ok(&mv((3, 1), (3, 2), MoveType::EnPassant(c(4, 0)))));
    assert!(!b.is_move_ok(&mv((3, 1), (3, 2), MoveType::EnPassant(c(3, 1)))));
    assert!(b.is_move_ok(&mv((3, 1), (3, 2), MoveType::EnPassant(c(4, 1)))));
    assert!(!b.is_move_ok(&mv(
        (4, 0),
        (6, 0),
        MoveType::Castle(Castle { rook_pos: c(4, 7), rook_target: c(5, 0) })
    )));
    assert!(!b.is_move_ok(&mv(
        (4, 0),
        (6, 0),
        MoveType::Castle(Castle { rook_pos: c(7, 0), rook_target: c(6, 0) })
    )));
    assert!(b.is_move_ok(&mv(
        (4, 0),
        (6, 0),
        MoveType::Castle(Castle { rook_pos: c(7, 0), rook_target: c(5, 0) })
    )));
    assert!(b.is_move_ok(&mv((3, 0), (3, 7), MoveType::Capture)));
}
