use crate::board::{Color, CommonCoord, Coord, Field, Piece};
use crate::chessmatch::MatchInfos;
use crate::list::List;
use crate::moves::{Move, MoveType};
use vstd::prelude::*;
use vstd::string::StrSliceExecFns;

verus! {

/// Who looks at a match: the one who set it up, the opponent, or a bystander.
#[derive(Debug, Clone, Copy, PartialEq, Eq, Structural)]
pub enum UserType {
    Host,
    Player,
    Spectator,
}

/// What a match keeps about its players: the side of the host, and which sides
/// are played by a person.
#[derive(Debug, Clone, Copy, PartialEq, Eq, Structural)]
pub struct Match {
    pub host_color: Color,
    pub white_human: bool,
    pub black_human: bool,
}

/// What the form for a new match holds.
#[derive(Debug, Clone, Copy, PartialEq, Eq, Structural)]
pub struct MatchCreationForm {
    pub human1: bool,
    pub human2: bool,
    pub hostcolor: bool,
}

/// What a request for a move from one square to another comes to.
#[derive(Debug, Clone, Copy, PartialEq, Eq, Structural)]
pub enum Choice {
    /// The one move that leads there.
    Play(Move),
    /// A pawn promotes there: the kind of the new piece has to be asked for.
    Promotion,
    /// No move leads there.
    Missing,
}

impl MatchCreationForm {
    /// The players of the match that the form asks for.
    pub fn players(&self) -> (m: Match)
        ensures
            m.host_color == (if self.hostcolor {
                Color::White
            } else {
                Color::Black
            }),
            m.white_human == !self.human1,
            m.black_human == !self.human2,
    {
        Match {
            host_color: if self.hostcolor {
                Color::White
            } else {
                Color::Black
            },
            white_human: !self.human1,
            black_human: !self.human2,
        }
    }
}

/// Whether it is for this user to move: the side to move is played by a person,
/// and it is the side of the host for the host, the other side for the opponent.
pub open spec fn may_move(user: UserType, to_move: Color, m: Match) -> bool {
    let human = match to_move {
        Color::White => m.white_human,
        Color::Black => m.black_human,
    };
    human && match user {
        UserType::Host => m.host_color == to_move,
        UserType::Player => m.host_color != to_move,
        UserType::Spectator => false,
    }
}

/// Whether it is for this user to move in the match.
pub fn color_to_move(user: UserType, info: &MatchInfos<Match>) -> (b: bool)
    ensures
        b == may_move(user, info.color, info.extra),
{
    match (user, info.color, info.extra.host_color) {
        (UserType::Host, Color::White, Color::White) => info.extra.white_human,
        (UserType::Host, Color::Black, Color::Black) => info.extra.black_human,
        (UserType::Player, Color::White, Color::Black) => info.extra.white_human,
        (UserType::Player, Color::Black, Color::White) => info.extra.black_human,
        _ => false,
    }
}

/// Whether the engine is to reply to a move of `mover`: the other side is not
/// played by a person.
pub fn engine_replies(mover: Color, m: &Match) -> (b: bool)
    ensures
        b == match mover {
            Color::Black => !m.white_human,
            Color::White => !m.black_human,
        },
{
    match mover {
        Color::Black => !m.white_human,
        Color::White => !m.black_human,
    }
}

/// Whether two texts are the same.
fn same_text(a: &str, b: &str) -> (r: bool)
    ensures
        r == (a@ == b@),
{
    let n: usize = a.unicode_len();
    if n != b.unicode_len() {
        return false;
    }
    let mut i: usize = 0;
    while i < n
        invariant
            i <= n,
            n == a@.len(),
            n == b@.len(),
            forall|j: int| 0 <= j < i ==> a@[j] == b@[j],
        decreases n - i,
    {
        if a.get_char(i) != b.get_char(i) {
            return false;
        }
        i += 1;
    }
    assert(a@ =~= b@);
    true
}

/// The kind of user that a word of an address names.
pub fn get_user(user: &str) -> (r: Option<UserType>)
    ensures
        r == (if user@ == "host"@ {
            Some(UserType::Host)
        } else if user@ == "player"@ {
            Some(UserType::Player)
        } else if user@ == "spectator"@ {
            Some(UserType::Spectator)
        } else {
            None
        }),
{
    if same_text(user, "host") {
        Some(UserType::Host)
    } else if same_text(user, "player") {
        Some(UserType::Player)
    } else if same_text(user, "spectator") {
        Some(UserType::Spectator)
    } else {
        None
    }
}

/// The kind of piece that a word of an address names.
pub fn get_piece(name: &str) -> (r: Option<Piece>)
    ensures
        r == (if name@ == "queen"@ {
            Some(Piece::Queen)
        } else if name@ == "rook"@ {
            Some(Piece::Rook)
        } else if name@ == "knight"@ {
            Some(Piece::Knight)
        } else if name@ == "bishop"@ {
            Some(Piece::Bishop)
        } else if name@ == "pawn"@ {
            Some(Piece::Pawn)
        } else {
            None
        }),
{
    if same_text(name, "queen") {
        Some(Piece::Queen)
    } else if same_text(name, "rook") {
        Some(Piece::Rook)
    } else if same_text(name, "knight") {
        Some(Piece::Knight)
    } else if same_text(name, "bishop") {
        Some(Piece::Bishop)
    } else if same_text(name, "pawn") {
        Some(Piece::Pawn)
    } else {
        None
    }
}

/// The square that a word of an address names, if it names one.
pub fn parse_coord(coord: &str) -> (r: Option<Coord>)
    ensures
        match crate::board::parsed_coord(coord@) {
            Ok(i) => r.is_some() && r.unwrap().index() == i,
            Err(_) => r.is_none(),
        },
{
    match Coord::from_str(coord) {
        Ok(c) => Some(c),
        Err(_) => None,
    }
}

/// The number under which a page shows a field: 1 for a black piece or king, and
/// on top of it 2 for a king, 4 for a queen, 6 for a rook, 8 for a bishop, 10 for a
/// knight and 12 for a pawn.
pub fn field_code(f: Field) -> (n: u8)
    ensures
        n == (if f.owner() == Some(Color::Black) {
            1int
        } else {
            0int
        }) + (match f {
            Field::BlackKing | Field::WhiteKing => 2int,
            Field::BlackPiece(p) | Field::WhitePiece(p) => match p {
                Piece::Queen => 4int,
                Piece::Rook => 6int,
                Piece::Bishop => 8int,
                Piece::Knight => 10int,
                Piece::Pawn => 12int,
            },
            _ => 0int,
        }),
{
    let side: u8 = match f {
        Field::BlackKing | Field::BlackPiece(_) => 1,
        _ => 0,
    };
    let kind: u8 = match f {
        Field::BlackKing | Field::WhiteKing => 2,
        Field::BlackPiece(p) | Field::WhitePiece(p) => match p {
            Piece::Queen => 4,
            Piece::Rook => 6,
            Piece::Bishop => 8,
            Piece::Knight => 10,
            Piece::Pawn => 12,
        },
        _ => 0,
    };
    side + kind
}

/// The place of a square on a page that shows the board rank by rank.
pub fn flatten(c: Coord) -> (n: i8)
    ensures
        0 <= n < 64,
        c.index() == 21 + n % 8 + 10 * (n / 8),
{
    let (x, y) = c.as_xy();
    y * 8 + x
}

/// The moves of a list that end on `to`, in their order.
pub open spec fn leading_to(q: Seq<Move>, to: Coord) -> Seq<Move> {
    q.filter(|m: Move| m.end == to)
}

/// Whether a move is a promotion.
pub open spec fn is_promotion(m: Move) -> bool {
    match m.move_type {
        MoveType::Promote(_, _) => true,
        _ => false,
    }
}

/// What a request to move to `to` comes to, among the moves offered for a piece:
/// the move, if exactly one leads there; a question for the kind of piece, if
/// several do and all of them are promotions; nothing else.
pub open spec fn chosen(q: Seq<Move>, to: Coord) -> Choice {
    let l = leading_to(q, to);
    if l.len() == 0 {
        Choice::Missing
    } else if l.len() == 1 {
        Choice::Play(l[0])
    } else if forall|i: int| 0 <= i < l.len() ==> is_promotion(#[trigger] l[i]) {
        Choice::Promotion
    } else {
        Choice::Missing
    }
}

/// What a request to move to `to` comes to, among the moves offered for a piece.
pub fn choose_move<const N: usize>(moves: &List<Move, N>, to: Coord) -> (r: Choice)
    ensures
        r == chosen(moves@, to),
{
    let ghost q = moves@;
    let ghost pred = |m: Move| m.end == to;
    let n: usize = moves.len();
    let mut count: usize = 0;
    let mut first: Option<Move> = None;
    let mut all_promote = true;
    let mut i: usize = 0;
    proof {
        assert(q.subrange(0, 0) =~= Seq::<Move>::empty());
    }
    while i < n
        invariant
            i <= n,
            n == q.len(),
            q == moves@,
            pred == |m: Move| m.end == to,
            count == q.subrange(0, i as int).filter(pred).len(),
            count <= i,
            count > 0 ==> first == Some(q.subrange(0, i as int).filter(pred)[0]),
            all_promote == forall|j: int|
                0 <= j < q.subrange(0, i as int).filter(pred).len() ==> is_promotion(
                    #[trigger] q.subrange(0, i as int).filter(pred)[j],
                ),
        decreases n - i,
    {
        let m = moves.get(i);
        proof {
            assert(q.subrange(0, i + 1) =~= q.subrange(0, i as int).push(m));
            Seq::lemma_filter_push(q.subrange(0, i as int), m, pred);
        }
        if m.end == to {
            if count == 0 {
                first = Some(m);
            }
            count = count + 1;
            let promotes = match m.move_type {
                MoveType::Promote(_, _) => true,
                _ => false,
            };
            proof {
                let a = q.subrange(0, i as int).filter(pred);
                let b = a.push(m);
                if all_promote && promotes {
                    assert forall|j: int| 0 <= j < b.len() implies is_promotion(#[trigger] b[j]) by {
                        if j < a.len() {
                            assert(b[j] == a[j]);
                        }
                    }
                } else if !promotes {
                    assert(!is_promotion(b[a.len() as int]));
                } else {
                    let j = choose|j: int| 0 <= j < a.len() && !is_promotion(#[trigger] a[j]);
                    assert(b[j] == a[j]);
                }
            }
            all_promote = all_promote && promotes;
        }
        i += 1;
    }
    proof {
        assert(q.subrange(0, n as int) =~= q);
    }
    if count == 0 {
        Choice::Missing
    } else if count == 1 {
        Choice::Play(first.unwrap())
    } else if all_promote {
        Choice::Promotion
    } else {
        Choice::Missing
    }
}

/// The first move of a list that ends on `to` and promotes to `piece`.
pub open spec fn chosen_promotion(q: Seq<Move>, to: Coord, piece: Piece) -> Option<Move>
    decreases q.len(),
{
    if q.len() == 0 {
        None
    } else if promotes_to(q[0], to, piece) {
        Some(q[0])
    } else {
        chosen_promotion(q.drop_first(), to, piece)
    }
}

/// Whether a move ends on `to` and promotes to `piece`.
pub open spec fn promotes_to(m: Move, to: Coord, piece: Piece) -> bool {
    m.end == to && match m.move_type {
        MoveType::Promote(p, _) => p == piece,
        _ => false,
    }
}

/// The promotion to `piece` on `to`, if it is among the moves offered for a piece.
pub fn choose_promotion<const N: usize>(moves: &List<Move, N>, to: Coord, piece: Piece) -> (r:
    Option<Move>)
    ensures
        r == chosen_promotion(moves@, to, piece),
{
    let ghost q = moves@;
    let n: usize = moves.len();
    let mut i: usize = 0;
    proof {
        assert(q.subrange(0, n as int) =~= q);
    }
    while i < n
        invariant
            i <= n,
            n == q.len(),
            q == moves@,
            chosen_promotion(q, to, piece) == chosen_promotion(
                q.subrange(i as int, n as int),
                to,
                piece,
            ),
        decreases n - i,
    {
        let m = moves.get(i);
        let hit = m.end == to && match m.move_type {
            MoveType::Promote(p, _) => p == piece,
            _ => false,
        };
        proof {
            assert(q.subrange(i as int, n as int)[0] == m);
            assert(q.subrange(i as int, n as int).drop_first() =~= q.subrange(i + 1, n as int));
        }
        if hit {
            return Some(m);
        }
        i += 1;
    }
    None
}

} // verus!
