use crate::board::{Field, Piece};
use core::cmp::Ordering;
use vstd::prelude::*;
use vstd::std_specs::cmp::PartialOrdSpecImpl;
use vstd::std_specs::ops::{AddSpecImpl, NegSpecImpl};

verus! {

/// What a queen is worth.
pub const QUEEN_VALUE: i32 = 9500;

/// What a rook is worth.
pub const ROOK_VALUE: i32 = 5630;

/// What a bishop is worth.
pub const BISHOP_VALUE: i32 = 3330;

/// What a knight is worth.
pub const KNIGHT_VALUE: i32 = 3050;

/// What a pawn is worth.
pub const PAWN_VALUE: i32 = 1000;

/// What an attack on a queen is worth.
pub const QUEEN_THREATENED_VALUE: i32 = 126;

/// What an attack on a rook is worth.
pub const ROOK_THREATENED_VALUE: i32 = 96;

/// What an attack on a bishop is worth.
pub const BISHOP_THREATENED_VALUE: i32 = 84;

/// What an attack on a knight is worth.
pub const KNIGHT_THREATENED_VALUE: i32 = 80;

/// What an attack on a pawn is worth.
pub const PAWN_THREATENED_VALUE: i32 = 71;

/// What an attack on an empty square is worth.
pub const EMPTY_THREATENED_VALUE: i32 = 54;

/// What a queen gains on the a-file or the h-file.
pub const BORDER_QUEEN_PENALTY: i32 = -600;

/// What a rook gains on the a-file or the h-file.
pub const BORDER_ROOK_PENALTY: i32 = -400;

/// What a bishop gains on the a-file or the h-file.
pub const BORDER_BISHOP_PENALTY: i32 = -600;

/// What a knight gains on the a-file or the h-file.
pub const BORDER_KNIGHT_PENALTY: i32 = -1000;

/// What a pawn gains on the a-file or the h-file.
pub const BORDER_PAWN_PENALTY: i32 = 0;

/// By how much castling is tried before other moves.
pub const CASTLING_MOVE_SCORE: i32 = 900;

/// How far two evaluations may lie apart for a position to count as quiet.
pub const QUIESCENCE_BAND: i32 = 1000;

/// The outcome of a search, seen from the side at the root: a loss, a draw by
/// stalemate, an evaluation, or a win, in rising order.
#[derive(Clone, Copy, Debug, PartialEq, Eq, Ord, Structural)]
pub enum Score {
    EnemyWins,
    Stalemate,
    Value(i32),
    MeWins,
}

/// What a piece of a kind is worth.
pub open spec fn piece_value(p: Piece) -> int {
    match p {
        Piece::Queen => 9500,
        Piece::Rook => 5630,
        Piece::Bishop => 3330,
        Piece::Knight => 3050,
        Piece::Pawn => 1000,
    }
}

/// What an attack on a square is worth, by what stands on the square.
pub open spec fn bounty(f: Field) -> int {
    match f {
        Field::Empty => 54,
        Field::BlackPiece(p) | Field::WhitePiece(p) => match p {
            Piece::Queen => 126,
            Piece::Rook => 96,
            Piece::Bishop => 84,
            Piece::Knight => 80,
            Piece::Pawn => 71,
        },
        _ => 0,
    }
}

/// What a piece of a kind gains on the a-file or the h-file: nothing, or a loss.
pub open spec fn border(p: Piece) -> int {
    match p {
        Piece::Queen => -600,
        Piece::Rook => -400,
        Piece::Bishop => -600,
        Piece::Knight => -1000,
        Piece::Pawn => 0,
    }
}

impl Score {
    /// The place of a score in the order: losses first, then stalemate, then the
    /// evaluations, then wins.
    pub open spec fn class(self) -> int {
        match self {
            Score::EnemyWins => 0,
            Score::Stalemate => 1,
            Score::Value(_) => 2,
            Score::MeWins => 3,
        }
    }

    /// The evaluation of a score that is one, else 0.
    pub open spec fn amount(self) -> int {
        match self {
            Score::Value(v) => v as int,
            _ => 0,
        }
    }

    /// Whether the score is worse than `other`.
    pub open spec fn below(self, other: Score) -> bool {
        self.class() < other.class() || (self.class() == other.class() && self.amount()
            < other.amount())
    }

    /// The score seen from the other side.
    pub open spec fn negated(self) -> Score {
        match self {
            Score::MeWins => Score::EnemyWins,
            Score::EnemyWins => Score::MeWins,
            Score::Stalemate => Score::Stalemate,
            Score::Value(v) => Score::Value((-v) as i32),
        }
    }

    /// The score with `o` added to its evaluation, if it is one.
    pub open spec fn plus(self, o: int) -> Score {
        match self {
            Score::Value(v) => Score::Value((v + o) as i32),
            other => other,
        }
    }

    /// Whether the score is an evaluation that differs from the evaluation `last` by
    /// no more than the quiescence band.
    pub open spec fn quiet_after(self, last: Score) -> bool {
        match (self, last) {
            (Score::Value(a), Score::Value(b)) => -1000 <= a - b <= 1000,
            _ => false,
        }
    }

    /// The worst score.
    pub fn min() -> (s: Self)
        ensures
            s == Score::EnemyWins,
    {
        Self::EnemyWins
    }

    /// The best score.
    pub fn max() -> (s: Self)
        ensures
            s == Score::MeWins,
    {
        Self::MeWins
    }

    /// What a piece of a kind is worth.
    pub fn value_from_piece(p: Piece) -> (v: i32)
        ensures
            v == piece_value(p),
    {
        match p {
            Piece::Queen => QUEEN_VALUE,
            Piece::Rook => ROOK_VALUE,
            Piece::Bishop => BISHOP_VALUE,
            Piece::Knight => KNIGHT_VALUE,
            Piece::Pawn => PAWN_VALUE,
        }
    }

    /// What an attack on a square is worth, by what stands on the square.
    pub fn threat_bounty(f: Field) -> (v: i32)
        ensures
            v == bounty(f),
    {
        match f {
            Field::Empty => EMPTY_THREATENED_VALUE,
            Field::BlackPiece(p) | Field::WhitePiece(p) => match p {
                Piece::Queen => QUEEN_THREATENED_VALUE,
                Piece::Rook => ROOK_THREATENED_VALUE,
                Piece::Bishop => BISHOP_THREATENED_VALUE,
                Piece::Knight => KNIGHT_THREATENED_VALUE,
                Piece::Pawn => PAWN_THREATENED_VALUE,
            },
            _ => 0,
        }
    }

    /// What a piece of a kind gains on the a-file or the h-file: nothing, or a loss.
    pub fn border_penalty(p: Piece) -> (v: i32)
        ensures
            v == border(p),
    {
        match p {
            Piece::Queen => BORDER_QUEEN_PENALTY,
            Piece::Rook => BORDER_ROOK_PENALTY,
            Piece::Bishop => BORDER_BISHOP_PENALTY,
            Piece::Knight => BORDER_KNIGHT_PENALTY,
            Piece::Pawn => BORDER_PAWN_PENALTY,
        }
    }

    /// Whether the score is an evaluation that lies within the quiescence band of
    /// the evaluation `last`.
    pub fn is_in_quiescence_bounds(self, last: Score) -> (b: bool)
        ensures
            b == self.quiet_after(last),
    {
        match (self, last) {
            (Score::Value(a), Score::Value(b)) => {
                let d: i64 = a as i64 - b as i64;
                -(QUIESCENCE_BAND as i64) <= d && d <= QUIESCENCE_BAND as i64
            },
            _ => false,
        }
    }

    /// Whether the score is worse than `other`.
    pub fn is_below(self, other: Score) -> (b: bool)
        ensures
            b == self.below(other),
    {
        match (self, other) {
            (Score::Value(a), Score::Value(b)) => a < b,
            (Score::MeWins, _) => false,
            (_, Score::MeWins) => true,
            (Score::EnemyWins, Score::EnemyWins) => false,
            (Score::EnemyWins, _) => true,
            (Score::Stalemate, Score::Value(_)) => true,
            (Score::Stalemate, _) => false,
            (Score::Value(_), _) => false,
        }
    }

    /// The score with `o` added to its evaluation, if it is one.
    pub fn plus_value(self, o: i32) -> (r: Score)
        requires
            i32::MIN <= self.amount() + o <= i32::MAX,
        ensures
            r == self.plus(o as int),
    {
        match self {
            Score::Value(v) => Score::Value(v + o),
            other => other,
        }
    }
}

impl core::ops::Add<i32> for Score {
    type Output = Self;

    fn add(self, o: i32) -> (r: Self) {
        self.plus_value(o)
    }
}

impl AddSpecImpl<i32> for Score {
    open spec fn obeys_add_spec() -> bool {
        true
    }

    open spec fn add_req(self, o: i32) -> bool {
        i32::MIN <= self.amount() + o <= i32::MAX
    }

    open spec fn add_spec(self, o: i32) -> Score {
        self.plus(o as int)
    }
}

impl core::ops::Neg for Score {
    type Output = Self;

    fn neg(self) -> (r: Self) {
        match self {
            Self::MeWins => Self::EnemyWins,
            Self::EnemyWins => Self::MeWins,
            Self::Stalemate => Self::Stalemate,
            Self::Value(v) => Self::Value(-v),
        }
    }
}

impl NegSpecImpl for Score {
    open spec fn obeys_neg_spec() -> bool {
        true
    }

    open spec fn neg_req(self) -> bool {
        self.amount() != i32::MIN
    }

    open spec fn neg_spec(self) -> Score {
        self.negated()
    }
}

impl PartialOrd for Score {
    fn partial_cmp(&self, other: &Self) -> (r: Option<Ordering>) {
        if self.is_below(*other) {
            Some(Ordering::Less)
        } else if other.is_below(*self) {
            Some(Ordering::Greater)
        } else {
            Some(Ordering::Equal)
        }
    }
}

impl PartialOrdSpecImpl for Score {
    open spec fn obeys_partial_cmp_spec() -> bool {
        true
    }

    open spec fn partial_cmp_spec(&self, other: &Score) -> Option<Ordering> {
        if self.below(*other) {
            Some(Ordering::Less)
        } else if other.below(*self) {
            Some(Ordering::Greater)
        } else {
            Some(Ordering::Equal)
        }
    }
}

/// The order of the scores: a loss is below a stalemate, a stalemate below every
/// evaluation, and every evaluation below a win.
pub proof fn lemma_score_order(n: i32)
    ensures
        Score::EnemyWins.below(Score::Stalemate),
        Score::Stalemate.below(Score::Value(n)),
        Score::Value(n).below(Score::MeWins),
{
}

/// Negation swaps win and loss, keeps a stalemate, and negates an evaluation; twice
/// applied it changes nothing.
pub proof fn lemma_negated_twice(s: Score)
    requires
        s.amount() != i32::MIN,
    ensures
        s.negated().negated() == s,
        Score::MeWins.negated() == Score::EnemyWins,
        Score::Stalemate.negated() == Score::Stalemate,
{
}

} // verus!
