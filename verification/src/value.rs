//! The game-theoretic value of a position under optimal play, defined by
//! backward induction, together with the facts the search engine rests
//! on: the value is the minimum over the legal moves, and it does not see
//! which rotation of a board it is given.

use vstd::prelude::*;

use crate::lines::{lemma_wins_rot1, wins};
use crate::model::{lemma_used_in_bounds, lemma_used_in_update, out_min, used_in, Outcome, Piece};
use crate::rotate::{
    lemma_rot1_maps, lemma_rot_board_len, rot1_board, rot1_src, rot1_tgt, rot_board,
};

verus! {

/// The outcome, for the mover `p`, of placing at flat index `i`: an
/// immediate three-in-a-row wins; filling the last cell without one ties;
/// otherwise the opponent's value of the resulting position, seen from
/// the other side.
pub open spec fn move_outcome(s: Seq<Piece>, p: Piece, i: int) -> Outcome
    decreases 9 - used_in(s), 0int, 0int,
        via move_outcome_decreases
{
    if s.len() == 9 && 0 <= i < 9 && s[i] == Piece::Blank && p != Piece::Blank {
        let t = s.update(i, p);
        if wins(t, p) {
            Outcome::Win
        } else if used_in(t) == 9 {
            Outcome::Tie
        } else {
            value(t, p.spec_opposite()).spec_opposite()
        }
    } else {
        Outcome::Loss
    }
}

#[via_fn]
proof fn move_outcome_decreases(s: Seq<Piece>, p: Piece, i: int) {
    if s.len() == 9 && 0 <= i < 9 && s[i] == Piece::Blank && p != Piece::Blank {
        lemma_used_in_update(s, i, p);
        lemma_used_in_bounds(s.update(i, p));
    }
}

/// The best outcome among the blank cells at or after flat index `i`,
/// scanned in row-major order; `Loss` when none is left.
pub open spec fn best_from(s: Seq<Piece>, p: Piece, i: int) -> Outcome
    decreases 9 - used_in(s), 1int, 9 - i,
{
    if s.len() == 9 && p != Piece::Blank && 0 <= i < 9 {
        let rest = best_from(s, p, i + 1);
        if s[i] == Piece::Blank {
            out_min(move_outcome(s, p, i), rest)
        } else {
            rest
        }
    } else {
        Outcome::Loss
    }
}

/// The value of the position for the player `p` about to move: the best
/// outcome any placement can force against optimal replies.
pub open spec fn value(s: Seq<Piece>, p: Piece) -> Outcome
    decreases 9 - used_in(s), 2int, 0int,
{
    best_from(s, p, 0)
}

/// The outcome of a position for the player `q` who has just moved into
/// it: the shape every cached entry is measured against.
pub open spec fn after_value(s: Seq<Piece>, q: Piece) -> Outcome {
    if wins(s, q) {
        Outcome::Win
    } else if used_in(s) == 9 {
        Outcome::Tie
    } else {
        value(s, q.spec_opposite()).spec_opposite()
    }
}

/// A move's outcome is the just-moved value of the position it creates.
pub proof fn lemma_move_outcome_after(s: Seq<Piece>, p: Piece, i: int)
    requires
        s.len() == 9,
        0 <= i < 9,
        s[i] == Piece::Blank,
        p != Piece::Blank,
    ensures
        move_outcome(s, p, i) == after_value(s.update(i, p), p),
{
}

/// `best_from` really is the stable minimum over the remaining blank
/// cells: no legal move does better, some legal move attains it, and with
/// no blank cell left it is `Loss`.
pub proof fn lemma_best_from_is_min(s: Seq<Piece>, p: Piece, i: int)
    requires
        s.len() == 9,
        p != Piece::Blank,
        0 <= i <= 9,
    ensures
        forall|j: int|
            i <= j < 9 && s[j] == Piece::Blank ==> best_from(s, p, i).rank() <= (
            #[trigger] move_outcome(s, p, j)).rank(),
        (exists|j: int| i <= j < 9 && s[j] == Piece::Blank) ==> exists|j: int|
            i <= j < 9 && s[j] == Piece::Blank && #[trigger] move_outcome(s, p, j) == best_from(
                s,
                p,
                i,
            ),
        !(exists|j: int| i <= j < 9 && s[j] == Piece::Blank) ==> best_from(s, p, i)
            == Outcome::Loss,
    decreases 9 - i,
{
    if i < 9 {
        lemma_best_from_is_min(s, p, i + 1);
        let rest = best_from(s, p, i + 1);
        if s[i] == Piece::Blank {
            let here = move_outcome(s, p, i);
            assert(best_from(s, p, i) == out_min(here, rest));
            if here.rank() <= rest.rank() {
                assert(move_outcome(s, p, i) == best_from(s, p, i));
            } else {
                assert(rest.rank() < here.rank());
                if !(exists|j: int| i + 1 <= j < 9 && s[j] == Piece::Blank) {
                    assert(rest == Outcome::Loss);
                    assert(here.rank() <= 2);
                    assert(false);
                }
            }
        }
    }
}

/// A quarter turn does not change how many cells are marked.
pub proof fn lemma_used_in_rot1(s: Seq<Piece>)
    requires
        s.len() == 9,
    ensures
        used_in(rot1_board(s)) == used_in(s),
{
    let t = rot1_board(s);
    assert(t[0] == s[6]);
    assert(t[1] == s[3]);
    assert(t[2] == s[0]);
    assert(t[3] == s[7]);
    assert(t[4] == s[4]);
    assert(t[5] == s[1]);
    assert(t[6] == s[8]);
    assert(t[7] == s[5]);
    assert(t[8] == s[2]);
    reveal_with_fuel(used_in, 11);
}

/// Placing and then rotating is rotating and then placing at the rotated
/// cell.
pub proof fn lemma_update_rot1(s: Seq<Piece>, i: int, p: Piece)
    requires
        s.len() == 9,
        0 <= i < 9,
    ensures
        rot1_board(s.update(i, p)) == rot1_board(s).update(rot1_tgt(i), p),
{
    lemma_rot1_maps(i);
    assert forall|j: int| 0 <= j < 9 implies rot1_board(s.update(i, p))[j] == rot1_board(
        s,
    ).update(rot1_tgt(i), p)[j] by {
        lemma_rot1_maps(j);
    }
    assert(rot1_board(s.update(i, p)) =~= rot1_board(s).update(rot1_tgt(i), p));
}

/// A move's outcome is unchanged when board and move are rotated
/// together.
pub proof fn lemma_move_outcome_rot1(s: Seq<Piece>, p: Piece, i: int)
    requires
        s.len() == 9,
        p != Piece::Blank,
        0 <= i < 9,
        s[i] == Piece::Blank,
    ensures
        move_outcome(rot1_board(s), p, rot1_tgt(i)) == move_outcome(s, p, i),
    decreases 9 - used_in(s), 0int,
{
    lemma_used_in_bounds(s);
    let rs = rot1_board(s);
    lemma_rot1_maps(i);
    assert(rs[rot1_tgt(i)] == s[i]);
    let t = s.update(i, p);
    lemma_update_rot1(s, i, p);
    lemma_wins_rot1(t, p);
    lemma_used_in_rot1(t);
    lemma_used_in_update(s, i, p);
    if !wins(t, p) && used_in(t) != 9 {
        lemma_used_in_bounds(t);
        lemma_value_rot1(t, p.spec_opposite());
    }
}

/// The value of a position is unchanged by a quarter turn of the board:
/// the turn is a bijection between the legal moves on the two boards that
/// preserves each move's outcome.
pub proof fn lemma_value_rot1(s: Seq<Piece>, p: Piece)
    requires
        s.len() == 9,
        p != Piece::Blank,
    ensures
        value(rot1_board(s), p) == value(s, p),
    decreases 9 - used_in(s), 1int,
{
    let rs = rot1_board(s);
    lemma_best_from_is_min(s, p, 0);
    lemma_best_from_is_min(rs, p, 0);
    if exists|j: int| 0 <= j < 9 && s[j] == Piece::Blank {
        let j0 = choose|j: int|
            0 <= j < 9 && s[j] == Piece::Blank && #[trigger] move_outcome(s, p, j) == best_from(
                s,
                p,
                0,
            );
        lemma_rot1_maps(j0);
        lemma_move_outcome_rot1(s, p, j0);
        assert(rs[rot1_tgt(j0)] == s[j0]);
        assert(value(rs, p).rank() <= value(s, p).rank());
        assert(exists|j: int| 0 <= j < 9 && rs[j] == Piece::Blank) by {
            assert(rs[rot1_tgt(j0)] == Piece::Blank);
        }
        let j1 = choose|j: int|
            0 <= j < 9 && rs[j] == Piece::Blank && #[trigger] move_outcome(rs, p, j) == best_from(
                rs,
                p,
                0,
            );
        let i1 = rot1_src(j1);
        lemma_rot1_maps(j1);
        assert(rs[j1] == s[i1]);
        lemma_move_outcome_rot1(s, p, i1);
        assert(move_outcome(rs, p, j1) == move_outcome(s, p, i1));
        assert(value(s, p).rank() <= value(rs, p).rank());
        assert(value(rs, p) == value(s, p));
    } else {
        assert forall|j: int| 0 <= j < 9 implies rs[j] != Piece::Blank by {
            lemma_rot1_maps(j);
            assert(rs[j] == s[rot1_src(j)]);
        }
        assert(!(exists|j: int| 0 <= j < 9 && s[j] == Piece::Blank));
        assert(!(exists|j: int| 0 <= j < 9 && rs[j] == Piece::Blank));
    }
}

/// `k`-fold version: the value ignores any number of quarter turns.
pub proof fn lemma_value_rot(s: Seq<Piece>, p: Piece, k: nat)
    requires
        s.len() == 9,
        p != Piece::Blank,
    ensures
        value(rot_board(s, k), p) == value(s, p),
    decreases k,
{
    if k > 0 {
        lemma_value_rot(s, p, (k - 1) as nat);
        lemma_rot_board_len(s, (k - 1) as nat);
        lemma_value_rot1(rot_board(s, (k - 1) as nat), p);
    }
}

/// `k`-fold version: winning lines ignore any number of quarter turns.
pub proof fn lemma_wins_rot(s: Seq<Piece>, p: Piece, k: nat)
    requires
        s.len() == 9,
    ensures
        wins(rot_board(s, k), p) == wins(s, p),
    decreases k,
{
    if k > 0 {
        lemma_wins_rot(s, p, (k - 1) as nat);
        lemma_rot_board_len(s, (k - 1) as nat);
        lemma_wins_rot1(rot_board(s, (k - 1) as nat), p);
    }
}

/// `k`-fold version: the mark count ignores any number of quarter turns.
pub proof fn lemma_used_in_rot(s: Seq<Piece>, k: nat)
    requires
        s.len() == 9,
    ensures
        used_in(rot_board(s, k)) == used_in(s),
    decreases k,
{
    if k > 0 {
        lemma_used_in_rot(s, (k - 1) as nat);
        lemma_rot_board_len(s, (k - 1) as nat);
        lemma_used_in_rot1(rot_board(s, (k - 1) as nat));
    }
}

/// The just-moved value ignores any number of quarter turns.
pub proof fn lemma_after_value_rot(s: Seq<Piece>, q: Piece, k: nat)
    requires
        s.len() == 9,
        q != Piece::Blank,
    ensures
        after_value(rot_board(s, k), q) == after_value(s, q),
{
    lemma_wins_rot(s, q, k);
    lemma_used_in_rot(s, k);
    if !wins(s, q) && used_in(s) != 9 {
        if q.spec_opposite() != Piece::Blank {
            lemma_value_rot(s, q.spec_opposite(), k);
        }
    }
}

/// The first blank cell, in row-major order, whose move attains the
/// position's value; 9 when the board is full.
pub open spec fn first_best_from(s: Seq<Piece>, p: Piece, i: int) -> int
    decreases 9 - i,
{
    if 0 <= i < 9 {
        if s[i] == Piece::Blank && move_outcome(s, p, i) == value(s, p) {
            i
        } else {
            first_best_from(s, p, i + 1)
        }
    } else {
        9
    }
}

pub open spec fn first_best(s: Seq<Piece>, p: Piece) -> int {
    first_best_from(s, p, 0)
}

proof fn lemma_first_best_from_skip(s: Seq<Piece>, p: Piece, l: int, i: int)
    requires
        0 <= l <= i < 9,
        s[i] == Piece::Blank,
        move_outcome(s, p, i) == value(s, p),
        forall|j: int|
            0 <= j < i && s[j] == Piece::Blank ==> (#[trigger] move_outcome(s, p, j)) != value(
                s,
                p,
            ),
    ensures
        first_best_from(s, p, l) == i,
    decreases i - l,
{
    if l < i {
        lemma_first_best_from_skip(s, p, l + 1, i);
    }
}

/// The cell found by scanning for the first blank cell whose move attains
/// the value, given that the earlier blank cells all miss it.
pub proof fn lemma_first_best_found(s: Seq<Piece>, p: Piece, i: int)
    requires
        0 <= i < 9,
        s[i] == Piece::Blank,
        move_outcome(s, p, i) == value(s, p),
        forall|j: int|
            0 <= j < i && s[j] == Piece::Blank ==> (#[trigger] move_outcome(s, p, j)) != value(
                s,
                p,
            ),
    ensures
        first_best(s, p) == i,
{
    lemma_first_best_from_skip(s, p, 0, i);
}

} // verus!
