use chess_engine::board::{
    Board, Color, CommonCoord, Coord, CoordFromStrError, Field, Piece, UnsafeCoord,
};

fn sq(x: i8, y: i8) -> Coord {
    Coord::from_xy(x, y)
}

#[test]
fn start_position_has_kings_on_e1_and_e8() {
    let b = Board::new();
    assert_eq!(*b.get(sq(4, 0)), Field::WhiteKing);
    assert_eq!(*b.get(sq(4, 7)), Field::BlackKing);
    assert_eq!(*b.get(sq(0, 0)), Field::WhitePiece(Piece::Rook));
    assert_eq!(b.get_king(Color::White).coord, sq(4, 0));
    assert_eq!(b.get_king(Color::Black).coord, sq(4, 7));
}

#[test]
fn start_position_is_the_standard_one() {
    let b = Board::new();
    let back = [
        Piece::Rook,
        Piece::Knight,
        Piece::Bishop,
        Piece::Queen,
        Piece::Queen,
        Piece::Bishop,
        Piece::Knight,
        Piece::Rook,
    ];
    for x in 0..8i8 {
        if x != 4 {
            assert_eq!(*b.get(sq(x, 0)), Field::WhitePiece(back[x as usize]));
            assert_eq!(*b.get(sq(x, 7)), Field::BlackPiece(back[x as usize]));
        }
        assert_eq!(*b.get(sq(x, 1)), Field::WhitePiece(Piece::Pawn));
        assert_eq!(*b.get(sq(x, 6)), Field::BlackPiece(Piece::Pawn));
        for y in 2..6i8 {
            assert_eq!(*b.get(sq(x, y)), Field::Empty);
        }
    }
    assert_eq!(b.en_passant_chance(), None);
    assert!(b.get_king(Color::White).castling_to_left);
    assert!(b.get_king(Color::White).castling_to_right);
    assert!(b.get_king(Color::Black).castling_to_left);
    assert!(b.get_king(Color::Black).castling_to_right);
}

#[test]
fn default_board_is_the_start_position() {
    let a = Board::default();
    let b = Board::new();
    for i in 0..120i8 {
        assert_eq!(*a.get(UnsafeCoord::at(i)), *b.get(UnsafeCoord::at(i)));
    }
}

#[test]
fn border_reads_as_sentinel() {
    let b = Board::new();
    for i in 0..21i8 {
        assert_eq!(*b.get(UnsafeCoord::at(i)), Field::Invincible);
    }
    assert_eq!(*b.get(UnsafeCoord::at(29)), Field::Invincible);
    assert_eq!(*b.get(UnsafeCoord::at(30)), Field::Invincible);
    assert_eq!(*b.get(UnsafeCoord::at(99)), Field::Invincible);
    assert_eq!(*b.get(UnsafeCoord::at(119)), Field::Invincible);
    assert_eq!(*b.get(UnsafeCoord::at(120)), Field::Invincible);
    assert_eq!(*b.get(UnsafeCoord::at(-1)), Field::Invincible);
    assert_eq!(*b.get(UnsafeCoord::at(-128)), Field::Invincible);
}

#[test]
fn get_if_safe_answers_for_playable_squares_only() {
    let b = Board::new();
    assert_eq!(b.get_if_safe(UnsafeCoord::at(20)), None);
    assert_eq!(b.get_if_safe(UnsafeCoord::at(29)), None);
    assert_eq!(
        b.get_if_safe(UnsafeCoord::at(21)),
        Some((sq(0, 0), Field::WhitePiece(Piece::Rook)))
    );
    assert_eq!(b.get_if_safe(UnsafeCoord::at(55)), Some((sq(4, 3), Field::Empty)));
    let mut playable = 0;
    for i in 0..120i8 {
        if b.get_if_safe(UnsafeCoord::at(i)).is_some() {
            playable += 1;
        }
    }
    assert_eq!(playable, 64);
}

#[test]
fn coordinates_are_indices_into_the_padded_board() {
    assert_eq!(sq(0, 0).raw(), 21);
    assert_eq!(sq(7, 0).raw(), 28);
    assert_eq!(sq(4, 3).raw(), 55);
    assert_eq!(sq(7, 7).raw(), 98);
    assert_eq!(sq(4, 3).as_xy(), (4, 3));
    assert_eq!(sq(4, 3).as_unsafe().raw(), 55);
    assert_eq!(UnsafeCoord::at(17).raw(), 17);
}

#[test]
fn relative_steps_add_columns_and_rows() {
    let c = sq(4, 3);
    assert_eq!(c.rel(1, 0).raw(), 56);
    assert_eq!(c.rel(-1, 0).raw(), 54);
    assert_eq!(c.rel(0, 1).raw(), 65);
    assert_eq!(c.rel(0, -2).raw(), 35);
    assert_eq!(c.rel(2, 1).raw(), 67);
    assert_eq!(c.rel(-2, -1).raw(), 43);
    assert_eq!(sq(0, 0).rel(-1, -2).raw(), 0);
    assert_eq!(sq(7, 7).rel(1, 2).raw(), 119);
}

#[test]
fn baselines_and_endlines() {
    assert_eq!(sq(3, 1).baseline(), Some(Color::White));
    assert_eq!(sq(3, 6).baseline(), Some(Color::Black));
    assert_eq!(sq(3, 0).baseline(), None);
    assert_eq!(sq(3, 4).baseline(), None);
    assert_eq!(sq(3, 0).endline(), Some(Color::Black));
    assert_eq!(sq(3, 7).endline(), Some(Color::White));
    assert_eq!(sq(3, 6).endline(), None);
    assert_eq!(UnsafeCoord::at(39).baseline(), None);
    assert_eq!(UnsafeCoord::at(38).baseline(), Some(Color::White));
    assert_eq!(UnsafeCoord::at(20).endline(), None);
    assert_eq!(UnsafeCoord::at(91).endline(), Some(Color::White));
}

#[test]
fn parses_algebraic_squares() {
    assert_eq!(Coord::from_str("a1"), Ok(sq(0, 0)));
    assert_eq!(Coord::from_str("h8"), Ok(sq(7, 7)));
    assert_eq!(Coord::from_str("e4"), Ok(sq(4, 3)));
    assert_eq!(Coord::from_str("C3"), Ok(sq(2, 2)));
    assert_eq!(Coord::from_str("  d2\t\n"), Ok(sq(3, 1)));
    assert_eq!(Coord::from_str("\u{a0}H1\u{3000}"), Ok(sq(7, 0)));
    assert_eq!("b7".parse::<Coord>(), Ok(sq(1, 6)));
    assert_eq!("b9".parse::<Coord>(), Err(CoordFromStrError::InvalidNumber));
}

#[test]
fn parse_rejects_wrong_character_counts() {
    assert_eq!(Coord::from_str(""), Err(CoordFromStrError::CharacterCount));
    assert_eq!(Coord::from_str("   "), Err(CoordFromStrError::CharacterCount));
    assert_eq!(Coord::from_str("e"), Err(CoordFromStrError::CharacterCount));
    assert_eq!(Coord::from_str("e44"), Err(CoordFromStrError::CharacterCount));
    assert_eq!(Coord::from_str("e 4"), Err(CoordFromStrError::CharacterCount));
    assert_eq!(Coord::from_str("zz9"), Err(CoordFromStrError::CharacterCount));
    assert_eq!(Coord::from_str("\u{130}1"), Err(CoordFromStrError::CharacterCount));
    assert_eq!(Coord::from_str("a\u{130}"), Err(CoordFromStrError::CharacterCount));
}

#[test]
fn parse_rejects_invalid_letters() {
    assert_eq!(Coord::from_str("i4"), Err(CoordFromStrError::InvalidLetter));
    assert_eq!(Coord::from_str("44"), Err(CoordFromStrError::InvalidLetter));
    assert_eq!(Coord::from_str("z9"), Err(CoordFromStrError::InvalidLetter));
    assert_eq!(Coord::from_str("\u{130}"), Err(CoordFromStrError::InvalidLetter));
}

#[test]
fn parse_rejects_invalid_numbers() {
    assert_eq!(Coord::from_str("e9"), Err(CoordFromStrError::InvalidNumber));
    assert_eq!(Coord::from_str("e0"), Err(CoordFromStrError::InvalidNumber));
    assert_eq!(Coord::from_str("ee"), Err(CoordFromStrError::InvalidNumber));
}

#[test]
fn parse_errors_have_messages() {
    assert_eq!(
        CoordFromStrError::CharacterCount.message(),
        "expected two characters e.g. 'C3'"
    );
    assert_eq!(
        CoordFromStrError::InvalidLetter.message(),
        "First expecting a letter e.g. 'D'"
    );
    assert_eq!(
        CoordFromStrError::InvalidNumber.message(),
        "expecting a number as the second character e.g. '2'"
    );
}

#[test]
fn colors_flip() {
    assert_eq!(!Color::White, Color::Black);
    assert_eq!(!Color::Black, Color::White);
}

#[test]
fn pieces_and_fields_have_glyphs() {
    assert_eq!(Piece::Queen.unicode(), '♛');
    assert_eq!(Piece::Rook.unicode(), '♜');
    assert_eq!(Piece::Bishop.unicode(), '♝');
    assert_eq!(Piece::Knight.unicode(), '♞');
    assert_eq!(Piece::Pawn.unicode(), '♟');
    assert_eq!(Field::WhitePiece(Piece::Knight).repr(), (Color::White, '♞'));
    assert_eq!(Field::BlackPiece(Piece::Pawn).repr(), (Color::Black, '♟'));
    assert_eq!(Field::WhiteKing.repr(), (Color::White, '♚'));
    assert_eq!(Field::BlackKing.repr(), (Color::Black, '♚'));
    assert_eq!(Field::Empty.repr(), (Color::Black, ' '));
    assert_eq!(Field::Invincible.repr(), (Color::Black, ' '));
}

#[test]
fn fields_print_behind_a_colour_code() {
    assert_eq!(Field::WhitePiece(Piece::Queen).unicode(), "\x1b[97m♛");
    assert_eq!(Field::WhitePiece(Piece::Pawn).unicode(), "\x1b[97m♟");
    assert_eq!(Field::WhiteKing.unicode(), "\x1b[97m♚");
    assert_eq!(Field::BlackPiece(Piece::Rook).unicode(), "\x1b[30m♜");
    assert_eq!(Field::BlackPiece(Piece::Bishop).unicode(), "\x1b[30m♝");
    assert_eq!(Field::BlackPiece(Piece::Knight).unicode(), "\x1b[30m♞");
    assert_eq!(Field::BlackKing.unicode(), "\x1b[30m♚");
    assert_eq!(Field::Empty.unicode(), "\x1b[30m ");
    assert_eq!(Field::Invincible.unicode(), "\x1b[30m ");
}

#[test]
fn color_piece_tests_look_at_the_opposing_side() {
    let wp = Field::WhitePiece(Piece::Pawn);
    let bp = Field::BlackPiece(Piece::Queen);
    assert!(wp.is_color_piece(Color::Black));
    assert!(!wp.is_color_piece(Color::White));
    assert!(bp.is_color_piece(Color::White));
    assert!(!bp.is_color_piece(Color::Black));
    assert!(!Field::WhiteKing.is_color_piece(Color::Black));
    assert!(!Field::BlackKing.is_color_piece(Color::White));
    assert!(!Field::Empty.is_color_piece(Color::White));
    assert!(Field::WhiteKing.is_color_piece_include_king(Color::Black));
    assert!(Field::BlackKing.is_color_piece_include_king(Color::White));
    assert!(wp.is_color_piece_include_king(Color::Black));
    assert!(!wp.is_color_piece_include_king(Color::White));
    assert!(!Field::Empty.is_color_piece_include_king(Color::Black));
    assert!(!Field::Invincible.is_color_piece_include_king(Color::White));
}

#[test]
fn move_piece_overwrites_the_target_and_fills_the_origin() {
    let mut b = Board::new();
    let old = b.move_piece(sq(4, 1), sq(4, 6), Field::Empty);
    assert_eq!(old, Field::BlackPiece(Piece::Pawn));
    assert_eq!(*b.get(sq(4, 6)), Field::WhitePiece(Piece::Pawn));
    assert_eq!(*b.get(sq(4, 1)), Field::Empty);
    let old = b.move_piece(sq(0, 0), sq(0, 3), Field::WhitePiece(Piece::Knight));
    assert_eq!(old, Field::Empty);
    assert_eq!(*b.get(sq(0, 3)), Field::WhitePiece(Piece::Rook));
    assert_eq!(*b.get(sq(0, 0)), Field::WhitePiece(Piece::Knight));
}

#[test]
fn pop_field_swaps_in_a_value() {
    let mut b = Board::new();
    let prev = b.pop_field(sq(3, 0), Field::Empty);
    assert_eq!(prev, Field::WhitePiece(Piece::Queen));
    assert_eq!(*b.get(sq(3, 0)), Field::Empty);
    let prev = b.pop_field(sq(3, 0), Field::BlackPiece(Piece::Rook));
    assert_eq!(prev, Field::Empty);
    assert_eq!(*b.get(sq(3, 0)), Field::BlackPiece(Piece::Rook));
}

#[test]
fn clone_is_independent() {
    let a = Board::new();
    let mut b = a.clone();
    b.pop_field(sq(0, 0), Field::Empty);
    assert_eq!(*a.get(sq(0, 0)), Field::WhitePiece(Piece::Rook));
    assert_eq!(*b.get(sq(0, 0)), Field::Empty);
}
