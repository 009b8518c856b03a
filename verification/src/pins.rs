use crate::board::{playable, Board, Color, CommonCoord, Coord, Field, Piece};
use crate::list::List;
use crate::rays::{
    attacks, extends, field_slides, fld, is_step, lemma_attackers_bound, lemma_attacks_lift,
    lemma_hits_extend, lemma_hits_on_line, lemma_step, ray_hits, room, shaped, slide_hits,
    through,
};
use crate::threat::{ids, mask_matches, Direction, King};
use vstd::prelude::*;

verus! {

/// The first square that is not empty on the way from `a` in direction `d`, if the
/// way meets one before it leaves the playable squares.
pub open spec fn first_piece(f: Seq<Field>, a: int, d: int) -> Option<int>
    decreases room(a, d),
{
    if is_step(d) && playable(a) && playable(a + d) {
        if fld(f, a + d) == Field::Empty {
            first_piece(f, a + d, d)
        } else {
            Some(a + d)
        }
    } else {
        None
    }
}

/// The first piece on a way is hit by the ray along that way, and is not empty.
pub proof fn lemma_first_piece(f: Seq<Field>, a: int, d: int)
    ensures
        first_piece(f, a, d).is_some() ==> ray_hits(f, a, d, first_piece(f, a, d).unwrap()) && fld(
            f,
            first_piece(f, a, d).unwrap(),
        ) != Field::Empty && playable(first_piece(f, a, d).unwrap()),
    decreases room(a, d),
{
    if is_step(d) && playable(a) && playable(a + d) {
        lemma_step(a, d);
        if fld(f, a + d) == Field::Empty {
            lemma_first_piece(f, a + d, d);
        }
    }
}

/// A ray can be walked back: what it hits reaches its origin in the opposite direction.
pub proof fn lemma_hits_reverse(f: Seq<Field>, a: int, d: int, s: int)
    requires
        ray_hits(f, a, d, s),
    ensures
        ray_hits(f, s, -d, a),
    decreases room(a, d),
{
    lemma_step(a, d);
    if a + d != s {
        lemma_hits_reverse(f, a + d, d, s);
        lemma_hits_on_line(f, a + d, d, s);
        assert(ray_hits(f, a + d, -d, a));
        lemma_hits_extend(f, s, -d, a + d, a);
    } else {
        lemma_hits_on_line(f, a, d, s);
    }
}

/// The pin seen from the king on `k` in direction `d`: the king's own piece that
/// comes first on that way, and the enemy slider that comes next and slides along it.
pub open spec fn pin_on(f: Seq<Field>, k: int, color: Color, d: int) -> Option<(int, int)> {
    match first_piece(f, k, d) {
        Some(s) => if fld(f, s).owner() == Some(color) {
            match first_piece(f, s, d) {
                Some(a) => if fld(f, a).owner() == Some(color.opposite()) && field_slides(
                    fld(f, a),
                    d,
                ) {
                    Some((s, a))
                } else {
                    None
                },
                None => None,
            }
        } else {
            None
        },
        None => None,
    }
}

/// Whether the piece on `s` is the one pinned in direction `dir`.
pub open spec fn pins_square(f: Seq<Field>, k: int, color: Color, dir: Direction, s: int) -> bool {
    pin_on(f, k, color, dir.step()).is_some() && pin_on(f, k, color, dir.step()).unwrap().0 == s
}

/// The pin index of a king says of each square whether the piece on it is pinned,
/// by which attacker and in which direction.
pub open spec fn pins_match(
    f: Seq<Field>,
    k: int,
    color: Color,
    map: Seq<Option<(Coord, Direction)>>,
) -> bool {
    &&& map.len() == 120
    &&& forall|s: int|
        0 <= s < 120 ==> match #[trigger] map[s] {
            Some((a, dir)) => pin_on(f, k, color, dir.step()) == Some((s, a.index())),
            None => forall|dir: Direction| !pins_square(f, k, color, dir, s),
        }
}

/// What a pin means: the pinned piece is the king's own, and without it the
/// attacker would attack the king.
pub proof fn lemma_pin_exposes(f: Seq<Field>, k: int, color: Color, d: int, s: int, a: int)
    requires
        f.len() == 120,
        pin_on(f, k, color, d) == Some((s, a)),
    ensures
        playable(s),
        playable(a),
        fld(f, s).owner() == Some(color),
        fld(f, a).owner() == Some(color.opposite()),
        ray_hits(f, k, d, s),
        ray_hits(f, s, d, a),
        attacks(f.update(s, Field::Empty), a, k),
{
    lemma_first_piece(f, k, d);
    lemma_first_piece(f, s, d);
    lemma_hits_reverse(f, k, d, s);
    lemma_hits_reverse(f, s, d, a);
    lemma_hits_on_line(f, k, d, s);
    lemma_hits_on_line(f, s, d, a);
    assert(slide_hits(f, a, -d, s));
    assert(through(f, s, a, -d, k));
    assert(extends(f, s, a, k));
    lemma_attacks_lift(f, s, a, k);
}

/// The coordinates of a list whose pieces belong to the side opposing `color`.
pub open spec fn enemies(f: Seq<Field>, q: Seq<Coord>, color: Color) -> Seq<Coord> {
    q.filter(is_enemy(f, color))
}

/// The test of a coordinate: whether the piece on it belongs to the side opposing `color`.
pub open spec fn is_enemy(f: Seq<Field>, color: Color) -> spec_fn(Coord) -> bool {
    |c: Coord| fld(f, c.index()).owner() == Some(color.opposite())
}

/// A pin index without entries.
fn empty_pin_map() -> (map: [Option<(Coord, Direction)>; 120])
    ensures
        forall|s: int| 0 <= s < 120 ==> (#[trigger] map@[s]).is_none(),
{
    let mut map: [Option<(Coord, Direction)>; 120] = [None;120];
    let mut i: usize = 0;
    while i < 120
        invariant
            i <= 120,
            forall|s: int| 0 <= s < i ==> (#[trigger] map@[s]).is_none(),
        decreases 120 - i,
    {
        map[i] = None;
        i += 1;
    }
    map
}

impl King {
    /// The state of a king on its home square: all castling rights, no pin, no check.
    pub fn new(color: Color) -> (k: Self)
        ensures
            k.coord.index() == (match color {
                Color::Black => 95int,
                Color::White => 25int,
            }),
            forall|s: int| 0 <= s < 120 ==> (#[trigger] k.potential_check_map@[s]).is_none(),
            k.castling_to_left,
            k.castling_to_right,
            k.aggressors@ == Seq::<Coord>::empty(),
    {
        Self {
            coord: match color {
                Color::Black => Coord::from_xy(4, 7),
                Color::White => Coord::from_xy(4, 0),
            },
            potential_check_map: empty_pin_map(),
            castling_to_left: true,
            castling_to_right: true,
            aggressors: List::new(),
        }
    }

    /// The pin recorded for a square; nothing for a coordinate off the array.
    pub fn get_potential_check<C: CommonCoord>(&self, coord: C) -> (r: &Option<(Coord, Direction)>)
        ensures
            *r == (if 0 <= coord.index() < 120 {
                self.potential_check_map@[coord.index()]
            } else {
                None
            }),
    {
        let i: i8 = coord.raw();
        if 0 <= i && i < 120 {
            &self.potential_check_map[i as usize]
        } else {
            &None
        }
    }

    /// Empties the pin index.
    pub fn clean_check_map(&mut self)
        ensures
            forall|s: int| 0 <= s < 120 ==> (#[trigger] final(self).potential_check_map@[s]).is_none(),
            final(self).coord == old(self).coord,
            final(self).castling_to_left == old(self).castling_to_left,
            final(self).castling_to_right == old(self).castling_to_right,
            final(self).aggressors == old(self).aggressors,
    {
        let mut i: usize = 0;
        while i < 120
            invariant
                i <= 120,
                forall|s: int| 0 <= s < i ==> (#[trigger] self.potential_check_map@[s]).is_none(),
                self.coord == old(self).coord,
                self.castling_to_left == old(self).castling_to_left,
                self.castling_to_right == old(self).castling_to_right,
                self.aggressors == old(self).aggressors,
            decreases 120 - i,
        {
            self.potential_check_map[i] = None;
            i += 1;
        }
    }
}

impl Clone for King {
    fn clone(&self) -> (r: Self)
        ensures
            r.coord == self.coord,
            r.potential_check_map == self.potential_check_map,
            r.castling_to_left == self.castling_to_left,
            r.castling_to_right == self.castling_to_right,
            r.aggressors@ == self.aggressors@,
    {
        Self {
            coord: self.coord,
            potential_check_map: self.potential_check_map,
            castling_to_left: self.castling_to_left,
            castling_to_right: self.castling_to_right,
            aggressors: self.aggressors.clone(),
        }
    }
}

/// Whether what stands on a field slides in a direction.
fn slides_in(x: Field, dir: Direction) -> (b: bool)
    ensures
        b == field_slides(x, dir.step()),
{
    match x {
        Field::WhitePiece(p) | Field::BlackPiece(p) => match p {
            Piece::Queen => true,
            Piece::Rook => !dir.is_diagonal(),
            Piece::Bishop => dir.is_diagonal(),
            _ => false,
        },
        _ => false,
    }
}

/// The eight directions, in the order in which the rays of a king are scanned.
fn all_directions() -> (dirs: [Direction; 8])
    ensures
        dirs@ == seq![
            Direction::Up,
            Direction::Down,
            Direction::Left,
            Direction::Right,
            Direction::UpLeft,
            Direction::UpRight,
            Direction::DownLeft,
            Direction::DownRight,
        ],
{
    let dirs = [
        Direction::Up,
        Direction::Down,
        Direction::Left,
        Direction::Right,
        Direction::UpLeft,
        Direction::UpRight,
        Direction::DownLeft,
        Direction::DownRight,
    ];
    assert(dirs@ =~= seq![
        Direction::Up,
        Direction::Down,
        Direction::Left,
        Direction::Right,
        Direction::UpLeft,
        Direction::UpRight,
        Direction::DownLeft,
        Direction::DownRight,
    ]);
    dirs
}

impl Board {
    /// The first piece on the way from a square in a direction, with its square.
    pub(crate) fn scan(&self, from: Coord, dx: i8, dy: i8) -> (r: Option<(Coord, Field)>)
        requires
            shaped(self.fields()),
            -1 <= dx <= 1,
            -1 <= dy <= 1,
            is_step(dx + 10 * dy),
        ensures
            match r {
                Some((c, v)) => first_piece(self.fields(), from.index(), dx + 10 * dy) == Some(
                    c.index(),
                ) && v == self.fields()[c.index()],
                None => first_piece(self.fields(), from.index(), dx + 10 * dy).is_none(),
            },
    {
        let ghost f = self.fields();
        let ghost d = dx + 10 * dy;
        let mut cur = from;
        proof {
            use_type_invariant(from);
        }
        loop
            invariant
                shaped(self.fields()),
                f == self.fields(),
                d == dx + 10 * dy,
                -1 <= dx <= 1,
                -1 <= dy <= 1,
                is_step(d),
                playable(cur.index()),
                first_piece(f, cur.index(), d) == first_piece(f, from.index(), d),
            decreases room(cur.index(), d),
        {
            let next = cur.rel(dx, dy);
            proof {
                lemma_step(cur.index(), d);
            }
            match self.get_if_safe(next) {
                Some((c, field)) => {
                    if field == Field::Empty {
                        cur = c;
                    } else {
                        return Some((c, field));
                    }
                },
                None => {
                    return None;
                },
            }
        }
    }

    /// The pin of the king on `king` in one direction, if there is one: the pinned
    /// piece and the attacker.
    fn pin_in(&self, king: Coord, color: Color, dir: Direction) -> (r: Option<(Coord, Coord)>)
        requires
            shaped(self.fields()),
        ensures
            match r {
                Some((s, a)) => pin_on(self.fields(), king.index(), color, dir.step()) == Some(
                    (s.index(), a.index()),
                ),
                None => pin_on(self.fields(), king.index(), color, dir.step()).is_none(),
            },
    {
        let (dx, dy) = dir.get_xy();
        match self.scan(king, dx, dy) {
            Some((s, v)) => {
                proof {
                    use_type_invariant(s);
                }
                if v.is_color_piece_include_king(core::ops::Not::not(color)) {
                    match self.scan(s, dx, dy) {
                        Some((a, w)) => {
                            proof {
                                use_type_invariant(a);
                            }
                            if w.is_color_piece_include_king(color) && slides_in(w, dir) {
                                Some((s, a))
                            } else {
                                None
                            }
                        },
                        None => None,
                    }
                } else {
                    None
                }
            },
            None => None,
        }
    }

    /// The pin index of the king of `color` standing on `king`.
    fn get_potential_checks(&self, king: Coord, color: Color) -> (map: [Option<
        (Coord, Direction),
    >; 120])
        requires
            shaped(self.fields()),
        ensures
            pins_match(self.fields(), king.index(), color, map@),
    {
        let ghost f = self.fields();
        let ghost k = king.index();
        let dirs = all_directions();
        let mut map: [Option<(Coord, Direction)>; 120] = empty_pin_map();
        let mut i: usize = 0;
        while i < 8
            invariant
                i <= 8,
                shaped(self.fields()),
                f == self.fields(),
                k == king.index(),
                dirs@ == seq![
                    Direction::Up,
                    Direction::Down,
                    Direction::Left,
                    Direction::Right,
                    Direction::UpLeft,
                    Direction::UpRight,
                    Direction::DownLeft,
                    Direction::DownRight,
                ],
                forall|s: int|
                    0 <= s < 120 ==> match #[trigger] map@[s] {
                        Some((a, dir)) => pin_on(f, k, color, dir.step()) == Some((s, a.index())),
                        None => forall|j: int| 0 <= j < i ==> !pins_square(f, k, color, dirs@[j], s),
                    },
            decreases 8 - i,
        {
            let dir = dirs[i];
            match self.pin_in(king, color, dir) {
                Some((s, a)) => {
                    proof {
                        use_type_invariant(s);
                    }
                    map[s.raw() as usize] = Some((a, dir));
                },
                None => {},
            }
            i += 1;
        }
        proof {
            assert forall|s: int| 0 <= s < 120 implies match #[trigger] map@[s] {
                Some((a, dir)) => pin_on(f, k, color, dir.step()) == Some((s, a.index())),
                None => forall|dir: Direction| !pins_square(f, k, color, dir, s),
            } by {
                if map@[s].is_none() {
                    assert forall|dir: Direction| !pins_square(f, k, color, dir, s) by {
                        let j: int = match dir {
                            Direction::Up => 0,
                            Direction::Down => 1,
                            Direction::Left => 2,
                            Direction::Right => 3,
                            Direction::UpLeft => 4,
                            Direction::UpRight => 5,
                            Direction::DownLeft => 6,
                            Direction::DownRight => 7,
                        };
                        assert(dirs@[j] == dir);
                    }
                }
            }
        }
        map
    }

    /// The state kept for the king of `color`.
    pub fn get_king(&self, color: Color) -> (k: &King)
        ensures
            *k == self.king(color),
    {
        match color {
            Color::White => &self.white_king,
            Color::Black => &self.black_king,
        }
    }

    /// Rebuilds the pin index of both kings from the field array.
    pub fn update_potential_checks(&mut self)
        requires
            shaped(old(self).fields()),
        ensures
            final(self).fields() == old(self).fields(),
            final(self).mask() == old(self).mask(),
            final(self).en_passant() == old(self).en_passant(),
            forall|c: Color|
                {
                    &&& (#[trigger] final(self).king(c)).coord == old(self).king(c).coord
                    &&& final(self).king(c).castling_to_left == old(self).king(c).castling_to_left
                    &&& final(self).king(c).castling_to_right == old(self).king(c).castling_to_right
                    &&& final(self).king(c).aggressors == old(self).king(c).aggressors
                    &&& pins_match(
                        final(self).fields(),
                        final(self).king(c).coord.index(),
                        c,
                        final(self).king(c).potential_check_map@,
                    )
                },
    {
        let black = self.get_potential_checks(self.black_king.coord, Color::Black);
        let white = self.get_potential_checks(self.white_king.coord, Color::White);
        self.black_king.potential_check_map = black;
        self.white_king.potential_check_map = white;
    }

    /// Whether a piece or the king of the side opposing `color` is recorded as an
    /// attacker of the square.
    pub fn get_threatened_by<C: CommonCoord>(&self, coord: C, color: Color) -> (b: bool)
        requires
            self.mask().wf(),
        ensures
            b == (0 <= coord.index() < 120 && enemies(
                self.fields(),
                self.mask().at(coord.index()),
                color,
            ).len() > 0),
    {
        let i: i8 = coord.raw();
        if i < 0 || i >= 120 {
            return false;
        }
        let l = self.threat_mask.get(coord);
        let n: usize = l.len();
        let ghost q = l@;
        let ghost pred = is_enemy(self.fields(), color);
        let mut j: usize = 0;
        proof {
            assert(q.subrange(0, 0) =~= Seq::<Coord>::empty());
        }
        while j < n
            invariant
                j <= n,
                n == l@.len(),
                q == l@,
                0 <= coord.index() < 120,
                q == self.mask().at(coord.index()),
                pred == is_enemy(self.fields(), color),
                q.subrange(0, j as int).filter(pred).len() == 0,
            decreases n - j,
        {
            let t = l.get(j);
            proof {
                assert(q.subrange(0, j + 1) =~= q.subrange(0, j as int).push(t));
                Seq::lemma_filter_push(q.subrange(0, j as int), t, pred);
            }
            if self.get(t).is_color_piece_include_king(color) {
                proof {
                    use_type_invariant(t);
                    assert(pred(q[j as int]));
                    q.lemma_filter_contains(pred, j as int);
                }
                return true;
            }
            j += 1;
        }
        proof {
            assert(q.subrange(0, n as int) =~= q);
        }
        false
    }

    /// Rebuilds the list of the pieces that give check to the king of `color`.
    pub fn update_aggressors(&mut self, color: Color)
        requires
            shaped(old(self).fields()),
            mask_matches(old(self).fields(), old(self).mask(), Set::full()),
        ensures
            final(self).fields() == old(self).fields(),
            final(self).mask() == old(self).mask(),
            final(self).en_passant() == old(self).en_passant(),
            final(self).king(color.opposite()) == old(self).king(color.opposite()),
            final(self).king(color).coord == old(self).king(color).coord,
            final(self).king(color).castling_to_left == old(self).king(color).castling_to_left,
            final(self).king(color).castling_to_right == old(self).king(color).castling_to_right,
            final(self).king(color).potential_check_map == old(self).king(
                color,
            ).potential_check_map,
            final(self).king(color).aggressors@ == enemies(
                old(self).fields(),
                old(self).mask().at(old(self).king(color).coord.index()),
                color,
            ),
    {
        let kc: Coord = self.get_king(color).coord;
        let mut agg: List<Coord, 16> = List::new();
        let ghost f = self.fields();
        let ghost q = self.mask().at(kc.index());
        let ghost pred = is_enemy(f, color);
        proof {
            use_type_invariant(kc);
            assert(q.subrange(0, 0) =~= Seq::<Coord>::empty());
            let r = ids(q);
            assert forall|i: int| 0 <= i < r.len() implies attacks(f, #[trigger] r[i], kc.index()) by {
                assert(r.contains(r[i]));
                assert(self.mask().has(kc.index(), r[i]));
            }
            lemma_attackers_bound(f, kc.index(), r);
        }
        let n: usize = self.threat_mask.get(kc).len();
        let mut j: usize = 0;
        while j < n
            invariant
                j <= n <= 16,
                f == self.fields(),
                self.mask().wf(),
                playable(kc.index()),
                q == self.mask().at(kc.index()),
                n == q.len(),
                pred == is_enemy(f, color),
                agg@ == q.subrange(0, j as int).filter(pred),
                agg@.len() <= j,
            decreases n - j,
        {
            let t = self.threat_mask.get(kc).get(j);
            proof {
                assert(q.subrange(0, j + 1) =~= q.subrange(0, j as int).push(t));
                Seq::lemma_filter_push(q.subrange(0, j as int), t, pred);
            }
            if self.get(t).is_color_piece_include_king(color) {
                agg.append(t);
            }
            j += 1;
        }
        proof {
            assert(q.subrange(0, n as int) =~= q);
        }
        match color {
            Color::White => {
                self.white_king.aggressors = agg;
            },
            Color::Black => {
                self.black_king.aggressors = agg;
            },
        }
    }
}

} // verus!
