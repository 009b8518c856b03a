use chess_engine::board::{Board, Color, Coord, Field, Piece};
use chess_engine::chessmatch::MatchInfos;
use chess_engine::moves::{Move, MoveList, MoveType, PromotionType};
use chess_engine::session::{
    choose_move, choose_promotion, color_to_move, engine_replies, field_code, flatten, get_piece,
    get_user, parse_coord, Choice, Match, MatchCreationForm, UserType,
};

fn q(x: i8, y: i8) -> Coord {
    Coord::from_xy(x, y)
}

fn info(color: Color, host: Color, white_human: bool, black_human: bool) -> MatchInfos<Match> {
    MatchInfos { result: None, color, extra: Match { host_color: host, white_human, black_human } }
}

#[test]
fn users_and_pieces_are_named_in_lower_case() {
    assert_eq!(get_user("host"), Some(UserType::Host));
    assert_eq!(get_user("player"), Some(UserType::Player));
    assert_eq!(get_user("spectator"), Some(UserType::Spectator));
    assert_eq!(get_user("Host"), None);
    assert_eq!(get_user("hos"), None);
    assert_eq!(get_user("hosts"), None);
    assert_eq!(get_user(""), None);
    assert_eq!(get_piece("queen"), Some(Piece::Queen));
    assert_eq!(get_piece("rook"), Some(Piece::Rook));
    assert_eq!(get_piece("knight"), Some(Piece::Knight));
    assert_eq!(get_piece("bishop"), Some(Piece::Bishop));
    assert_eq!(get_piece("pawn"), Some(Piece::Pawn));
    assert_eq!(get_piece("king"), None);
}

#[test]
fn squares_of_an_address_are_parsed_or_dropped() {
    assert_eq!(parse_coord("e2"), Some(q(4, 1)));
    assert_eq!(parse_coord("E2"), Some(q(4, 1)));
    assert_eq!(parse_coord("e9"), None);
    assert_eq!(parse_coord("x2"), None);
    assert_eq!(parse_coord("e22"), None);
}

#[test]
fn the_form_sets_up_the_players() {
    let form = MatchCreationForm { human1: false, human2: true, hostcolor: true };
    assert_eq!(
        form.players(),
        Match { host_color: Color::White, white_human: true, black_human: false }
    );
    let form = MatchCreationForm { human1: true, human2: false, hostcolor: false };
    assert_eq!(
        form.players(),
        Match { host_color: Color::Black, white_human: false, black_human: true }
    );
}

#[test]
fn only_the_person_whose_turn_it_is_may_move() {
    let (white, black) = (Color::White, Color::Black);
    let (host, player, spectator) = (UserType::Host, UserType::Player, UserType::Spectator);
    assert!(color_to_move(host, &info(white, white, true, false)));
    assert!(!color_to_move(host, &info(white, white, false, true)));
    assert!(!color_to_move(host, &info(black, white, true, true)));
    assert!(color_to_move(host, &info(black, black, false, true)));
    assert!(!color_to_move(host, &info(black, black, true, false)));
    assert!(color_to_move(player, &info(white, black, true, false)));
    assert!(!color_to_move(player, &info(white, white, true, true)));
    assert!(color_to_move(player, &info(black, white, false, true)));
    assert!(!color_to_move(player, &info(black, white, true, false)));
    assert!(!color_to_move(spectator, &info(white, white, true, true)));
    assert!(!color_to_move(spectator, &info(black, white, true, true)));
}

#[test]
fn the_engine_replies_for_a_side_without_a_person() {
    let m = Match { host_color: Color::White, white_human: true, black_human: false };
    assert!(engine_replies(Color::White, &m));
    assert!(!engine_replies(Color::Black, &m));
    let m = Match { host_color: Color::White, white_human: false, black_human: true };
    assert!(!engine_replies(Color::White, &m));
    assert!(engine_replies(Color::Black, &m));
}

#[test]
fn fields_have_codes_for_the_page() {
    assert_eq!(field_code(Field::Empty), 0);
    assert_eq!(field_code(Field::Invincible), 0);
    assert_eq!(field_code(Field::WhiteKing), 2);
    assert_eq!(field_code(Field::BlackKing), 3);
    assert_eq!(field_code(Field::WhitePiece(Piece::Queen)), 4);
    assert_eq!(field_code(Field::BlackPiece(Piece::Queen)), 5);
    assert_eq!(field_code(Field::WhitePiece(Piece::Rook)), 6);
    assert_eq!(field_code(Field::BlackPiece(Piece::Bishop)), 9);
    assert_eq!(field_code(Field::WhitePiece(Piece::Knight)), 10);
    assert_eq!(field_code(Field::BlackPiece(Piece::Pawn)), 13);
    assert_eq!(flatten(q(0, 0)), 0);
    assert_eq!(flatten(q(7, 0)), 7);
    assert_eq!(flatten(q(0, 1)), 8);
    assert_eq!(flatten(q(7, 7)), 63);
}

#[test]
fn a_request_for_a_move_is_played_asked_about_or_dropped() {
    let b = Board::new();
    let pawn = b.enumerate_moves(Color::White, q(4, 1));
    assert_eq!(
        choose_move(&pawn, q(4, 3)),
        Choice::Play(Move {
            start: q(4, 1),
            end: q(4, 3),
            move_type: MoveType::RegularPawnDoubleForward
        })
    );
    assert_eq!(choose_move(&pawn, q(4, 4)), Choice::Missing);
    assert_eq!(choose_move(&MoveList::new(), q(4, 4)), Choice::Missing);
    let mut c = Board::new();
    c.do_move(Move { start: q(0, 1), end: q(1, 6), move_type: MoveType::Capture });
    c.do_move(Move { start: q(1, 7), end: q(2, 5), move_type: MoveType::Regular });
    let promoting = c.enumerate_moves(Color::White, q(1, 6));
    assert_eq!(choose_move(&promoting, q(1, 7)), Choice::Promotion);
    assert_eq!(choose_move(&promoting, q(0, 7)), Choice::Promotion);
    assert_eq!(choose_move(&promoting, q(3, 7)), Choice::Missing);
    assert_eq!(
        choose_promotion(&promoting, q(1, 7), Piece::Knight),
        Some(Move {
            start: q(1, 6),
            end: q(1, 7),
            move_type: MoveType::Promote(Piece::Knight, PromotionType::Regular)
        })
    );
    assert_eq!(
        choose_promotion(&promoting, q(2, 7), Piece::Queen),
        Some(Move {
            start: q(1, 6),
            end: q(2, 7),
            move_type: MoveType::Promote(Piece::Queen, PromotionType::Capture)
        })
    );
    assert_eq!(choose_promotion(&promoting, q(3, 7), Piece::Queen), None);
    assert_eq!(choose_promotion(&pawn, q(4, 3), Piece::Queen), None);
    let mut mixed = MoveList::new();
    mixed.append(Move { start: q(4, 1), end: q(4, 3), move_type: MoveType::Regular });
    mixed.append(Move {
        start: q(4, 1),
        end: q(4, 3),
        move_type: MoveType::Promote(Piece::Queen, PromotionType::Regular),
    });
    assert_eq!(choose_move(&mixed, q(4, 3)), Choice::Missing);
}
