use crate::board::{playable, Board, Color, CommonCoord, Field};
use crate::legal::{lemma_aggressors};
use crate::pins::{lemma_pin_exposes};
use crate::rays::{
    approach, attacks, extends, fld, lemma_attacks_place, lemma_hits_between,
    lemma_slider_direction, on_line, steps,
};
use crate::threat::{ids, is_slider, lemma_mask_unique, mask_matches};
use vstd::prelude::*;

verus! {

/// On a consistent board each side has exactly one king: it stands on the square
/// that the state of that king names, and on no other.
pub proof fn lemma_one_king(b: Board, color: Color)
    requires
        b.wf(),
    ensures
        playable(b.king(color).coord.index()),
        b.fields()[b.king(color).coord.index()] == Field::king_of(color),
        forall|i: int|
            0 <= i < 120 && b.fields()[i] == Field::king_of(color) ==> i == b.king(
                color,
            ).coord.index(),
{
    assert(b.king_consistent(color));
}

/// On a consistent board whatever the mask records for a square attacks that
/// square by the rules of its kind, and whatever attacks a square is recorded.
pub proof fn lemma_threats_exact(b: Board, s: int, t: int)
    requires
        b.wf(),
        0 <= s < 120,
    ensures
        b.mask().has(s, t) <==> attacks(b.fields(), t, s),
        ids(b.mask().at(s)).no_duplicates(),
{
}

/// On a consistent board no square has more than sixteen attackers recorded, and
/// no king more than sixteen pieces listed as giving check.
pub proof fn lemma_threats_bounded(b: Board, color: Color, s: int)
    requires
        b.wf(),
        0 <= s < 120,
    ensures
        b.mask().at(s).len() <= 16,
        b.king(color).aggressors@.len() <= 16,
{
    let f = b.fields();
    let q = ids(b.mask().at(s));
    assert forall|i: int| 0 <= i < q.len() implies attacks(f, #[trigger] q[i], s) by {
        assert(q.contains(q[i]));
        assert(b.mask().has(s, q[i]));
    }
    crate::rays::lemma_attackers_bound(f, s, q);
    let k = b.king(color).coord.index();
    assert(b.king_consistent(color));
    let r = ids(b.mask().at(k));
    assert forall|i: int| 0 <= i < r.len() implies attacks(f, #[trigger] r[i], k) by {
        assert(r.contains(r[i]));
        assert(b.mask().has(k, r[i]));
    }
    crate::rays::lemma_attackers_bound(f, k, r);
    b.mask().at(k).lemma_filter_len(crate::pins::is_enemy(f, color));
}

/// A slider attacks a square only over empty squares: every square that lies
/// strictly between the two is empty.
pub proof fn lemma_attack_path_clear(f: Seq<Field>, t: int, s: int, m: int)
    requires
        attacks(f, t, s),
        is_slider(fld(f, t)),
        on_line(t, approach(t, s), m),
        steps(t, approach(t, s), m) < steps(t, approach(t, s), s),
    ensures
        fld(f, m) == Field::Empty,
{
    lemma_slider_direction(f, t, s);
    lemma_hits_between(f, t, approach(t, s), m, s);
}

/// On a consistent board an entry of a pin index names a piece of the king's own
/// side and a piece of the other side that would attack the king if the pinned
/// piece were taken off the board, or were put on an empty square that does not
/// lie between that piece and the king.
pub proof fn lemma_pin_sound(b: Board, color: Color, s: int, e: int)
    requires
        b.wf(),
        0 <= s < 120,
        b.king(color).potential_check_map@[s].is_some(),
    ensures
        ({
            let f = b.fields();
            let k = b.king(color).coord.index();
            let a = b.king(color).potential_check_map@[s].unwrap().0.index();
            let lifted = f.update(s, Field::Empty);
            &&& f[s].owner() == Some(color)
            &&& f[a].owner() == Some(color.opposite())
            &&& attacks(lifted, a, k)
            &&& (playable(e) && lifted[e] == Field::Empty && !extends(lifted, e, a, k) ==> attacks(
                lifted.update(e, f[s]),
                a,
                k,
            ))
        }),
{
    let f = b.fields();
    let k = b.king(color).coord.index();
    let entry = b.king(color).potential_check_map@[s].unwrap();
    let a = entry.0.index();
    assert(b.king_consistent(color));
    lemma_pin_exposes(f, k, color, entry.1.step(), s, a);
    let lifted = f.update(s, Field::Empty);
    if playable(e) && lifted[e] == Field::Empty && !extends(lifted, e, a, k) {
        if e != a {
            lemma_attacks_place(lifted, e, f[s], a, k);
        }
    }
}

/// On a consistent board the pieces listed as giving check to a king are exactly
/// the pieces of the other side that the mask records for the king's square.
pub proof fn lemma_aggressors_exact(b: Board, color: Color, t: int)
    requires
        b.wf(),
    ensures
        ids(b.king(color).aggressors@).contains(t) <==> b.mask().has(
            b.king(color).coord.index(),
            t,
        ) && fld(b.fields(), t).owner() == Some(color.opposite()),
        ids(b.king(color).aggressors@).no_duplicates(),
{
    lemma_aggressors(b, color);
    assert(b.king_consistent(color));
}

/// A mask kept up to date move by move records the same attackers for every
/// square as a mask built anew from the fields.
pub proof fn lemma_rebuilt_mask_agrees(kept: Board, rebuilt: Board, s: int, t: int)
    requires
        kept.wf(),
        rebuilt.fields() == kept.fields(),
        mask_matches(rebuilt.fields(), rebuilt.mask(), Set::full()),
        0 <= s < 120,
    ensures
        kept.mask().has(s, t) == rebuilt.mask().has(s, t),
{
    lemma_mask_unique(kept.fields(), kept.mask(), rebuilt.mask());
}

} // verus!
