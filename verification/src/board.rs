use crate::pins::{enemies, pins_match};
use crate::rays::{fld, shaped};
use crate::threat::{mask_matches, King, ThreatMask};
use vstd::prelude::*;
use vstd::std_specs::ops::NotSpecImpl;
use vstd::string::{StrSliceExecFns, StringExecFns};

verus! {

/// The two sides.
#[derive(Debug, Clone, Copy, PartialEq, Eq, Structural)]
pub enum Color {
    White,
    Black,
}

impl Color {
    /// The other side.
    pub open spec fn opposite(self) -> Color {
        match self {
            Color::White => Color::Black,
            Color::Black => Color::White,
        }
    }
}

impl core::ops::Not for Color {
    type Output = Self;

    fn not(self) -> (r: Self) {
        match self {
            Self::White => Self::Black,
            Self::Black => Self::White,
        }
    }
}

impl NotSpecImpl for Color {
    open spec fn obeys_not_spec() -> bool {
        true
    }

    open spec fn not_req(self) -> bool {
        true
    }

    open spec fn not_spec(self) -> Color {
        self.opposite()
    }
}

/// The kinds of piece other than the king.
#[derive(Debug, Clone, Copy, PartialEq, Eq, Structural)]
pub enum Piece {
    Queen,
    Rook,
    Bishop,
    Knight,
    Pawn,
}

impl Piece {
    /// The glyph of the kind.
    pub fn unicode(&self) -> (c: char)
        ensures
            c == match *self {
                Piece::Queen => '♛',
                Piece::Rook => '♜',
                Piece::Bishop => '♝',
                Piece::Knight => '♞',
                Piece::Pawn => '♟',
            },
    {
        match self {
            Piece::Queen => '♛',
            Piece::Rook => '♜',
            Piece::Bishop => '♝',
            Piece::Knight => '♞',
            Piece::Pawn => '♟',
        }
    }
}

/// What a square of the padded board holds: nothing, a border sentinel, a king or
/// a piece.
#[derive(Debug, Clone, Copy, PartialEq, Eq, Structural)]
pub enum Field {
    Empty,
    Invincible,
    BlackKing,
    WhiteKing,
    BlackPiece(Piece),
    WhitePiece(Piece),
}

impl Field {
    /// The side that owns what stands on the field, if anything does.
    pub open spec fn owner(self) -> Option<Color> {
        match self {
            Field::WhiteKing | Field::WhitePiece(_) => Some(Color::White),
            Field::BlackKing | Field::BlackPiece(_) => Some(Color::Black),
            _ => None,
        }
    }

    /// A king of either side.
    pub open spec fn is_king(self) -> bool {
        self == Field::WhiteKing || self == Field::BlackKing
    }

    /// A piece other than a king, and its kind.
    pub open spec fn piece(self) -> Option<Piece> {
        match self {
            Field::WhitePiece(p) | Field::BlackPiece(p) => Some(p),
            _ => None,
        }
    }

    /// A king or a piece: neither empty nor a border sentinel.
    pub open spec fn occupied(self) -> bool {
        self.owner().is_some()
    }

    /// What `color` puts on a square for a piece of kind `kind`.
    pub open spec fn of(color: Color, kind: Piece) -> Field {
        match color {
            Color::White => Field::WhitePiece(kind),
            Color::Black => Field::BlackPiece(kind),
        }
    }

    /// The king of `color`.
    pub open spec fn king_of(color: Color) -> Field {
        match color {
            Color::White => Field::WhiteKing,
            Color::Black => Field::BlackKing,
        }
    }

    /// The side and the glyph of what the field holds; black and a blank for a field
    /// that holds nothing.
    pub fn repr(&self) -> (r: (Color, char))
        ensures
            r.0 == (if self.owner() == Some(Color::White) {
                Color::White
            } else {
                Color::Black
            }),
            r.1 == match *self {
                Field::WhitePiece(p) | Field::BlackPiece(p) => match p {
                    Piece::Queen => '♛',
                    Piece::Rook => '♜',
                    Piece::Bishop => '♝',
                    Piece::Knight => '♞',
                    Piece::Pawn => '♟',
                },
                Field::WhiteKing | Field::BlackKing => '♚',
                _ => ' ',
            },
    {
        match self {
            Field::WhitePiece(p) => (Color::White, p.unicode()),
            Field::BlackPiece(p) => (Color::Black, p.unicode()),
            Field::WhiteKing => (Color::White, '♚'),
            Field::BlackKing => (Color::Black, '♚'),
            _ => (Color::Black, ' '),
        }
    }

    /// The glyph of the field behind the terminal code that sets its colour: bright
    /// white for White, black for Black and for fields that hold nothing.
    pub fn unicode(&self) -> (s: String)
        ensures
            s@ == (if self.owner() == Some(Color::White) {
                "\x1b[97m"@
            } else {
                "\x1b[30m"@
            }).push(
                match *self {
                    Field::WhitePiece(p) | Field::BlackPiece(p) => match p {
                        Piece::Queen => '♛',
                        Piece::Rook => '♜',
                        Piece::Bishop => '♝',
                        Piece::Knight => '♞',
                        Piece::Pawn => '♟',
                    },
                    Field::WhiteKing | Field::BlackKing => '♚',
                    _ => ' ',
                },
            ),
    {
        proof {
            reveal_strlit("\x1b[97m");
            reveal_strlit("\x1b[30m");
            reveal_strlit("\x1b[97m♛");
            reveal_strlit("\x1b[97m♜");
            reveal_strlit("\x1b[97m♝");
            reveal_strlit("\x1b[97m♞");
            reveal_strlit("\x1b[97m♟");
            reveal_strlit("\x1b[97m♚");
            reveal_strlit("\x1b[30m♛");
            reveal_strlit("\x1b[30m♜");
            reveal_strlit("\x1b[30m♝");
            reveal_strlit("\x1b[30m♞");
            reveal_strlit("\x1b[30m♟");
            reveal_strlit("\x1b[30m♚");
            reveal_strlit("\x1b[30m ");
        }
        let text: &str = match self {
            Field::WhitePiece(p) => match p {
                Piece::Queen => "\x1b[97m♛",
                Piece::Rook => "\x1b[97m♜",
                Piece::Bishop => "\x1b[97m♝",
                Piece::Knight => "\x1b[97m♞",
                Piece::Pawn => "\x1b[97m♟",
            },
            Field::BlackPiece(p) => match p {
                Piece::Queen => "\x1b[30m♛",
                Piece::Rook => "\x1b[30m♜",
                Piece::Bishop => "\x1b[30m♝",
                Piece::Knight => "\x1b[30m♞",
                Piece::Pawn => "\x1b[30m♟",
            },
            Field::WhiteKing => "\x1b[97m♚",
            Field::BlackKing => "\x1b[30m♚",
            _ => "\x1b[30m ",
        };
        let s = String::from_str(text);
        assert(s@ =~= (if self.owner() == Some(Color::White) {
            "\x1b[97m"@
        } else {
            "\x1b[30m"@
        }).push(
            match *self {
                Field::WhitePiece(p) | Field::BlackPiece(p) => match p {
                    Piece::Queen => '♛',
                    Piece::Rook => '♜',
                    Piece::Bishop => '♝',
                    Piece::Knight => '♞',
                    Piece::Pawn => '♟',
                },
                Field::WhiteKing | Field::BlackKing => '♚',
                _ => ' ',
            },
        ));
        s
    }

    /// True when the field holds a piece, not a king, of the side opposing `color`.
    pub fn is_color_piece(&self, color: Color) -> (b: bool)
        ensures
            b == (self.piece().is_some() && self.owner() == Some(color.opposite())),
    {
        match color {
            Color::Black => matches!(self, Self::WhitePiece(_)),
            Color::White => matches!(self, Self::BlackPiece(_)),
        }
    }

    /// True when the field holds a piece or the king of the side opposing `color`.
    pub fn is_color_piece_include_king(&self, color: Color) -> (b: bool)
        ensures
            b == (self.owner() == Some(color.opposite())),
    {
        match color {
            Color::Black => matches!(self, Self::WhitePiece(_) | Self::WhiteKing),
            Color::White => matches!(self, Self::BlackPiece(_) | Self::BlackKing),
        }
    }
}

/// Column of an index into the padded board: 1 to 8 on the playable squares.
pub open spec fn col(i: int) -> int {
    i % 10
}

/// Row of an index into the padded board: 2 to 9 on the playable squares.
pub open spec fn row(i: int) -> int {
    i / 10
}

/// The 64 squares of the game among the 120 of the padded board.
pub open spec fn playable(i: int) -> bool {
    21 <= i <= 98 && 1 <= col(i) <= 8
}

/// What checked and unchecked coordinates share: an index into the padded board.
pub trait CommonCoord {
    /// The index into the padded board that the coordinate stands for.
    spec fn index(&self) -> int;

    fn raw(&self) -> (r: i8)
        ensures
            r == self.index(),
    ;
}

/// A coordinate that may name a border sentinel or lie off the board.
#[derive(Debug, Clone, Copy, PartialEq, Eq, Structural)]
pub struct UnsafeCoord(pub(crate) i8);

impl CommonCoord for UnsafeCoord {
    open(crate) spec fn index(&self) -> int {
        self.0 as int
    }

    fn raw(&self) -> (r: i8) {
        self.0
    }
}

/// A coordinate known to name one of the 64 playable squares.
#[derive(Debug, Clone, Copy, PartialEq, Eq, Structural)]
pub struct Coord(pub(crate) i8);

impl CommonCoord for Coord {
    open(crate) spec fn index(&self) -> int {
        self.0 as int
    }

    fn raw(&self) -> (r: i8) {
        self.0
    }
}

/// Why a text names no square.
#[derive(Debug, Clone, Copy, PartialEq, Eq, Structural)]
pub enum CoordFromStrError {
    CharacterCount,
    InvalidLetter,
    InvalidNumber,
}

impl CoordFromStrError {
    /// The message shown to a user for this error.
    pub fn message(&self) -> (s: &'static str)
        ensures
            s@ == match *self {
                CoordFromStrError::CharacterCount => "expected two characters e.g. 'C3'"@,
                CoordFromStrError::InvalidLetter => "First expecting a letter e.g. 'D'"@,
                CoordFromStrError::InvalidNumber =>
                    "expecting a number as the second character e.g. '2'"@,
            },
    {
        match self {
            Self::CharacterCount => "expected two characters e.g. 'C3'",
            Self::InvalidLetter => "First expecting a letter e.g. 'D'",
            Self::InvalidNumber => "expecting a number as the second character e.g. '2'",
        }
    }
}

/// Whether a character is white space, as `str::trim` counts it.
pub open spec fn is_space(c: char) -> bool {
    let u = c as u32;
    (9 <= u <= 13) || u == 32 || u == 0x85 || u == 0xA0 || u == 0x1680 || (0x2000 <= u <= 0x200A)
        || u == 0x2028 || u == 0x2029 || u == 0x202F || u == 0x205F || u == 0x3000
}

/// How many characters of white space a text begins with.
pub open spec fn leading_spaces(q: Seq<char>) -> nat
    decreases q.len(),
{
    if q.len() > 0 && is_space(q[0]) {
        1 + leading_spaces(q.drop_first())
    } else {
        0
    }
}

/// How many characters of white space a text ends with.
pub open spec fn trailing_spaces(q: Seq<char>) -> nat
    decreases q.len(),
{
    if q.len() > 0 && is_space(q.last()) {
        1 + trailing_spaces(q.drop_last())
    } else {
        0
    }
}

/// A text without the white space at its beginning and at its end.
pub open spec fn trimmed(q: Seq<char>) -> Seq<char> {
    if leading_spaces(q) >= q.len() {
        Seq::empty()
    } else {
        q.subrange(leading_spaces(q) as int, q.len() - trailing_spaces(q))
    }
}

/// How many characters a text has once it is put in lower case: one for each of its
/// characters, but two for the capital I with a dot above.
pub open spec fn lowered_len(q: Seq<char>) -> int
    decreases q.len(),
{
    if q.len() == 0 {
        0
    } else {
        lowered_len(q.drop_last()) + (if q.last() as u32 == 0x130 {
            2int
        } else {
            1int
        })
    }
}

/// The file that a letter from a to h names, in either case, counted from 0.
pub open spec fn file_of(c: char) -> Option<int> {
    let u = c as u32;
    if 97 <= u <= 104 {
        Some(u - 97)
    } else if 65 <= u <= 72 {
        Some(u - 65)
    } else {
        None
    }
}

/// The rank that a digit from 1 to 8 names, counted from 0.
pub open spec fn rank_of(c: char) -> Option<int> {
    let u = c as u32;
    if 49 <= u <= 56 {
        Some(u - 49)
    } else {
        None
    }
}

/// What a text names as a square: after trimming, a letter from a to h in either
/// case and a digit from 1 to 8 give the index of the square; any other count of
/// characters, first character or second character gives the error for it.
pub open spec fn parsed_coord(q: Seq<char>) -> Result<int, CoordFromStrError> {
    let t = trimmed(q);
    if lowered_len(t) != 2 {
        Err(CoordFromStrError::CharacterCount)
    } else if file_of(t[0]).is_none() {
        Err(CoordFromStrError::InvalidLetter)
    } else if rank_of(t[1]).is_none() {
        Err(CoordFromStrError::InvalidNumber)
    } else {
        Ok(21 + file_of(t[0]).unwrap() + 10 * rank_of(t[1]).unwrap())
    }
}

/// A text with more than two characters is longer than two in lower case as well.
pub proof fn lemma_lowered_len(q: Seq<char>)
    ensures
        lowered_len(q) >= q.len(),
    decreases q.len(),
{
    if q.len() > 0 {
        lemma_lowered_len(q.drop_last());
    }
}

fn space(c: char) -> (b: bool)
    ensures
        b == is_space(c),
{
    let u: u32 = c as u32;
    (9 <= u && u <= 13) || u == 32 || u == 0x85 || u == 0xA0 || u == 0x1680 || (0x2000 <= u && u
        <= 0x200A) || u == 0x2028 || u == 0x2029 || u == 0x202F || u == 0x205F || u == 0x3000
}

impl UnsafeCoord {
    /// The coordinate with raw index `i`.
    pub fn at(i: i8) -> (r: Self)
        ensures
            r.index() == i,
    {
        UnsafeCoord(i)
    }

    /// Two coordinates with the same index are the same coordinate.
    pub proof fn lemma_index_injective(a: Self, b: Self)
        ensures
            a.index() == b.index() <==> a == b,
    {
    }

    /// The rank from which pawns of a side start, if the coordinate lies on one.
    pub open spec fn baseline_of(i: int) -> Option<Color> {
        if 31 <= i <= 38 {
            Some(Color::White)
        } else if 81 <= i <= 88 {
            Some(Color::Black)
        } else {
            None
        }
    }

    /// The rank on which pawns of a side promote, if the coordinate lies on one.
    pub open spec fn endline_of(i: int) -> Option<Color> {
        if 21 <= i <= 28 {
            Some(Color::Black)
        } else if 91 <= i <= 98 {
            Some(Color::White)
        } else {
            None
        }
    }

    /// The side whose pawns start on the rank of the coordinate, if it is such a rank.
    pub fn baseline(&self) -> (r: Option<Color>)
        ensures
            r == Self::baseline_of(self.index()),
    {
        if 31 <= self.0 && self.0 <= 38 {
            Some(Color::White)
        } else if 81 <= self.0 && self.0 <= 88 {
            Some(Color::Black)
        } else {
            None
        }
    }

    /// The side whose pawns promote on the rank of the coordinate, if it is such a rank.
    pub fn endline(&self) -> (r: Option<Color>)
        ensures
            r == Self::endline_of(self.index()),
    {
        if 21 <= self.0 && self.0 <= 28 {
            Some(Color::Black)
        } else if 91 <= self.0 && self.0 <= 98 {
            Some(Color::White)
        } else {
            None
        }
    }
}

impl Coord {
    /// A checked coordinate names a playable square.
    #[verifier::type_invariant]
    pub open(crate) spec fn on_board(self) -> bool {
        playable(self.index())
    }

    /// Two coordinates with the same index are the same coordinate.
    pub proof fn lemma_index_injective(a: Self, b: Self)
        ensures
            a.index() == b.index() <==> a == b,
    {
    }

    /// The playable square with index `i`.
    pub(crate) fn at(i: i8) -> (c: Self)
        requires
            playable(i as int),
        ensures
            c.index() == i,
    {
        Coord(i)
    }

    /// Every coordinate of this type names a playable square.
    pub fn check(&self)
        ensures
            playable(self.index()),
    {
        proof {
            use_type_invariant(self);
        }
    }

    /// The square that a text names: a letter from a to h, in either case, and a digit
    /// from 1 to 8, with white space around them or without.
    pub fn from_str(s: &str) -> (r: Result<Self, CoordFromStrError>)
        ensures
            match parsed_coord(s@) {
                Ok(i) => r.is_ok() && r.unwrap().index() == i,
                Err(e) => r == Err::<Self, CoordFromStrError>(e),
            },
    {
        let ghost q = s@;
        let n: usize = s.unicode_len();
        let mut a: usize = 0;
        proof {
            assert(q.subrange(0, n as int) =~= q);
        }
        while a < n && space(s.get_char(a))
            invariant
                a <= n,
                n == q.len(),
                q == s@,
                leading_spaces(q) == a + leading_spaces(q.subrange(a as int, n as int)),
            decreases n - a,
        {
            proof {
                assert(q.subrange(a as int, n as int).drop_first() =~= q.subrange(a + 1, n as int));
            }
            a += 1;
        }
        if a == n {
            proof {
                assert(trimmed(q) =~= Seq::<char>::empty());
            }
            return Err(CoordFromStrError::CharacterCount);
        }
        let mut b: usize = n;
        assert(!is_space(q[a as int]));
        while b > a && space(s.get_char(b - 1))
            invariant
                a < b <= n,
                !is_space(q[a as int]),
                n == q.len(),
                q == s@,
                trailing_spaces(q) == (n - b) + trailing_spaces(q.subrange(0, b as int)),
            decreases b,
        {
            proof {
                assert(q.subrange(0, b as int).drop_last() =~= q.subrange(0, b - 1));
            }
            b -= 1;
        }
        let ghost t = trimmed(q);
        proof {
            assert(leading_spaces(q) == a);
            assert(!is_space(q[a as int]));
            assert(b > a);
            assert(q.subrange(0, b as int).last() == q[b - 1]);
            assert(trailing_spaces(q) == n - b);
            assert(t =~= q.subrange(a as int, b as int));
            lemma_lowered_len(t);
        }
        let len: usize = b - a;
        if len > 2 {
            return Err(CoordFromStrError::CharacterCount);
        }
        let c1: char = s.get_char(a);
        proof {
            assert(t[0] == c1);
            reveal_with_fuel(lowered_len, 3);
            if len == 1 {
                assert(t.drop_last() =~= Seq::<char>::empty());
            } else {
                assert(t.drop_last().drop_last() =~= Seq::<char>::empty());
                assert(t.drop_last().last() == t[0]);
            }
        }
        if len == 1 {
            if c1 as u32 == 0x130 {
                return Err(CoordFromStrError::InvalidLetter);
            }
            return Err(CoordFromStrError::CharacterCount);
        }
        let c2: char = s.get_char(a + 1);
        proof {
            assert(t[1] == c2);
        }
        if c1 as u32 == 0x130 || c2 as u32 == 0x130 {
            return Err(CoordFromStrError::CharacterCount);
        }
        let u1: u32 = c1 as u32;
        let x: i8 = if 97 <= u1 && u1 <= 104 {
            (u1 - 97) as i8
        } else if 65 <= u1 && u1 <= 72 {
            (u1 - 65) as i8
        } else {
            return Err(CoordFromStrError::InvalidLetter);
        };
        let u2: u32 = c2 as u32;
        let y: i8 = if 49 <= u2 && u2 <= 56 {
            (u2 - 49) as i8
        } else {
            return Err(CoordFromStrError::InvalidNumber);
        };
        Ok(Self::from_xy(x, y))
    }

    /// The square in file `x` and rank `y`, both counted from 0.
    pub fn from_xy(x: i8, y: i8) -> (c: Self)
        requires
            0 <= x <= 7,
            0 <= y <= 7,
        ensures
            c.index() == 21 + x + 10 * y,
    {
        Coord(21 + x + y * 10)
    }

    /// File and rank of the square, both counted from 0.
    pub fn as_xy(&self) -> (r: (i8, i8))
        ensures
            0 <= r.0 <= 7,
            0 <= r.1 <= 7,
            self.index() == 21 + r.0 + 10 * r.1,
    {
        proof {
            use_type_invariant(self);
        }
        (self.0 % 10 - 1, self.0 / 10 - 2)
    }

    /// The coordinate `x` files and `y` ranks away, which may be off the playable squares.
    pub fn rel(self, x: i8, y: i8) -> (r: UnsafeCoord)
        requires
            -2 <= x <= 2,
            -2 <= y <= 2,
        ensures
            r.index() == self.index() + x + 10 * y,
    {
        proof {
            use_type_invariant(self);
        }
        UnsafeCoord(self.0 + x + y * 10)
    }

    /// The same coordinate without the knowledge that it is playable.
    pub fn as_unsafe(self) -> (r: UnsafeCoord)
        ensures
            r.index() == self.index(),
    {
        UnsafeCoord(self.0)
    }

    /// The side whose pawns start on the rank of the coordinate, if it is such a rank.
    pub fn baseline(&self) -> (r: Option<Color>)
        ensures
            r == UnsafeCoord::baseline_of(self.index()),
    {
        self.as_unsafe().baseline()
    }

    /// The side whose pawns promote on the rank of the coordinate, if it is such a rank.
    pub fn endline(&self) -> (r: Option<Color>)
        ensures
            r == UnsafeCoord::endline_of(self.index()),
    {
        self.as_unsafe().endline()
    }
}

impl core::str::FromStr for Coord {
    type Err = CoordFromStrError;

    fn from_str(s: &str) -> (r: Result<Self, CoordFromStrError>)
        ensures
            match parsed_coord(s@) {
                Ok(i) => r.is_ok() && r.unwrap().index() == i,
                Err(e) => r == Err::<Self, CoordFromStrError>(e),
            },
    {
        Coord::from_str(s)
    }
}

/// The square with index `i`, as a coordinate.
pub open(crate) spec fn sq(i: int) -> Coord {
    Coord(i as i8)
}

/// The index of the square on which the king of `color` starts.
pub open spec fn home_square(color: Color) -> int {
    match color {
        Color::White => 25,
        Color::Black => 95,
    }
}

/// How many of the squares with an index below `n` hold a piece or the king of `color`.
pub open spec fn owned_below(f: Seq<Field>, color: Color, n: int) -> int
    decreases n,
{
    if n <= 0 {
        0
    } else {
        owned_below(f, color, n - 1) + (if fld(f, n - 1).owner() == Some(color) {
            1int
        } else {
            0int
        })
    }
}

/// Changing one field changes the count of a side by what that field gains or loses.
pub proof fn lemma_owned_update(f: Seq<Field>, color: Color, x: int, v: Field, n: int)
    requires
        0 <= x < f.len(),
        0 <= n,
    ensures
        owned_below(f.update(x, v), color, n) == owned_below(f, color, n) + (if x < n {
            (if v.owner() == Some(color) {
                1int
            } else {
                0int
            }) - (if f[x].owner() == Some(color) {
                1int
            } else {
                0int
            })
        } else {
            0int
        }),
    decreases n,
{
    if n > 0 {
        lemma_owned_update(f, color, x, v, n - 1);
    }
}

/// What a position is, apart from what can be computed from it: the fields, the
/// en-passant chance and the castling rights.
pub struct Position {
    pub fields: Seq<Field>,
    pub en_passant: Option<Coord>,
    pub white_left: bool,
    pub white_right: bool,
    pub black_left: bool,
    pub black_right: bool,
}

impl Position {
    /// Whether the king of `color` may still castle towards the a-file.
    pub open spec fn castle_left(self, color: Color) -> bool {
        match color {
            Color::White => self.white_left,
            Color::Black => self.black_left,
        }
    }

    /// Whether the king of `color` may still castle towards the h-file.
    pub open spec fn castle_right(self, color: Color) -> bool {
        match color {
            Color::White => self.white_right,
            Color::Black => self.black_right,
        }
    }

    /// The index of the square on which the king of `color` stands.
    pub open spec fn king_square(self, color: Color) -> int {
        choose|i: int| 0 <= i < 120 && self.fields[i] == Field::king_of(color)
    }
}

/// The position: the padded field array, both kings, the threat mask and the
/// en-passant chance.
pub struct Board {
    pub(crate) data: [Field; 120],
    pub(crate) white_king: King,
    pub(crate) black_king: King,
    pub(crate) en_passant_chance: Option<Coord>,
    pub(crate) threat_mask: ThreatMask,
}

impl View for Board {
    type V = Position;

    open spec fn view(&self) -> Position {
        Position {
            fields: self.fields(),
            en_passant: self.en_passant(),
            white_left: self.king(Color::White).castling_to_left,
            white_right: self.king(Color::White).castling_to_right,
            black_left: self.king(Color::Black).castling_to_left,
            black_right: self.king(Color::Black).castling_to_right,
        }
    }
}

impl Board {
    /// The king of `color` stands on the square that its state names, and nowhere else.
    pub open spec fn king_placed(&self, color: Color) -> bool {
        &&& playable(self.king(color).coord.index())
        &&& (self.king(color).castling_to_left || self.king(color).castling_to_right
            ==> self.king(color).coord.index() == home_square(color))
        &&& self.fields()[self.king(color).coord.index()] == Field::king_of(color)
        &&& forall|i: int|
            0 <= i < 120 && #[trigger] self.fields()[i] == Field::king_of(color) ==> i == self.king(
                color,
            ).coord.index()
    }

    /// What is kept for the king of `color` agrees with the fields and the mask: the
    /// king's square, its pin index and the pieces that give it check.
    pub open spec fn king_consistent(&self, color: Color) -> bool {
        &&& self.king_placed(color)
        &&& pins_match(
            self.fields(),
            self.king(color).coord.index(),
            color,
            self.king(color).potential_check_map@,
        )
        &&& self.king(color).aggressors@ == enemies(
            self.fields(),
            self.mask().at(self.king(color).coord.index()),
            color,
        )
        &&& owned_below(self.fields(), color, 120) <= 16
    }

    /// The position is consistent: a padded board with one king of each side and at
    /// most sixteen pieces a side, a threat mask that records exactly the attacks on
    /// it, and king states that agree with both.
    pub open spec fn wf(&self) -> bool {
        &&& shaped(self.fields())
        &&& mask_matches(self.fields(), self.mask(), Set::full())
        &&& self.king_consistent(Color::White)
        &&& self.king_consistent(Color::Black)
        &&& match self.en_passant() {
            Some(t) => playable(t.index()),
            None => true,
        }
    }

    /// The 120 fields of the padded board.
    pub open(crate) spec fn fields(&self) -> Seq<Field> {
        self.data@
    }

    /// The threat mask of the position.
    pub open(crate) spec fn mask(&self) -> ThreatMask {
        self.threat_mask
    }

    /// The state kept for the king of `color`.
    pub open(crate) spec fn king(&self, color: Color) -> King {
        match color {
            Color::White => self.white_king,
            Color::Black => self.black_king,
        }
    }

    /// The landing square of a double pawn push made by the last move, if it was one.
    pub open(crate) spec fn en_passant(&self) -> Option<Coord> {
        self.en_passant_chance
    }

    /// Whether two positions differ in nothing but their threat masks.
    pub open(crate) spec fn same_but_mask(&self, o: &Board) -> bool {
        &&& self.data == o.data
        &&& self.white_king == o.white_king
        &&& self.black_king == o.black_king
        &&& self.en_passant_chance == o.en_passant_chance
    }

    /// The threat mask of the position.
    pub fn threat_mask(&self) -> (m: &ThreatMask)
        ensures
            *m == self.mask(),
    {
        &self.threat_mask
    }

    /// The landing square of a double pawn push made by the last move, if it was one.
    pub fn en_passant_chance(&self) -> (r: Option<Coord>)
        ensures
            r == self.en_passant(),
    {
        self.en_passant_chance
    }

    /// The field at a coordinate; off the array everything reads as a sentinel.
    pub fn get<C: CommonCoord>(&self, coord: C) -> (f: &Field)
        ensures
            *f == crate::rays::fld(self.fields(), coord.index()),
    {
        let i: i8 = coord.raw();
        if 0 <= i && i < 120 {
            &self.data[i as usize]
        } else {
            &Field::Invincible
        }
    }

    /// The field at a coordinate together with the checked coordinate, for every
    /// coordinate that does not read as a sentinel.
    pub fn get_if_safe(&self, coord: UnsafeCoord) -> (r: Option<(Coord, Field)>)
        requires
            crate::rays::shaped(self.fields()),
        ensures
            r.is_some() <==> playable(coord.index()),
            r.is_some() ==> r.unwrap().0.index() == coord.index() && r.unwrap().1
                == self.fields()[coord.index()],
    {
        let field = *self.get(coord);
        if let Field::Invincible = field {
            None
        } else {
            Some((Coord(coord.0), field))
        }
    }

    /// Puts what stands on `from` onto `to` and `replace` onto `from`; returns what
    /// stood on `to`. Only the field array changes.
    pub fn move_piece(&mut self, from: Coord, to: Coord, replace: Field) -> (old_to: Field)
        ensures
            old_to == old(self).fields()[to.index()],
            final(self).fields() == old(self).fields().update(
                to.index(),
                old(self).fields()[from.index()],
            ).update(from.index(), replace),
            final(self).mask() == old(self).mask(),
            final(self).king(Color::White) == old(self).king(Color::White),
            final(self).king(Color::Black) == old(self).king(Color::Black),
            final(self).en_passant() == old(self).en_passant(),
    {
        proof {
            use_type_invariant(from);
            use_type_invariant(to);
        }
        let old_to = self.data[to.0 as usize];
        let moved = self.data[from.0 as usize];
        self.data[to.0 as usize] = moved;
        self.data[from.0 as usize] = replace;
        old_to
    }

    /// Puts `value` onto a square and returns what stood there. Only the field array
    /// changes.
    pub fn pop_field(&mut self, coord: Coord, value: Field) -> (prev: Field)
        ensures
            prev == old(self).fields()[coord.index()],
            final(self).fields() == old(self).fields().update(coord.index(), value),
            final(self).mask() == old(self).mask(),
            final(self).king(Color::White) == old(self).king(Color::White),
            final(self).king(Color::Black) == old(self).king(Color::Black),
            final(self).en_passant() == old(self).en_passant(),
    {
        proof {
            use_type_invariant(coord);
        }
        let prev = self.data[coord.0 as usize];
        self.data[coord.0 as usize] = value;
        prev
    }
}

} // verus!
