//! The transposition cache: results keyed by the canonical (minimum)
//! rotation of a board, with the stored coordinate kept in the canonical
//! frame and rotated back on lookup.

use vstd::prelude::*;

use std::collections::HashMap;

use crate::model::{Board, Coord, Outcome, Piece};
use crate::rotate::{
    canon_k, canon_key, enc_rot, lemma_canon_key_rotation_invariant, lemma_canon_min,
    lemma_rot_board_add, lemma_rot_board_mod, lemma_rot_coord_add, lemma_rot_coord_mod, rot_board,
    rot_coord,
};

verus! {

/// What `Cache::add` does to the cache contents: the board's canonical key
/// maps to the result, with the coordinate carried into the canonical
/// rotation frame.
pub open spec fn cache_add(
    m: Map<u32, (Coord, Outcome)>,
    s: Seq<Piece>,
    res: (Coord, Outcome),
) -> Map<u32, (Coord, Outcome)> {
    m.insert(canon_key(s) as u32, (rot_coord(res.0, canon_k(s)), res.1))
}

/// What `Cache::check` returns: a hit on the board's canonical key hands
/// the stored coordinate back after the rotations that return the
/// canonical frame to the probed board's own frame.
pub open spec fn cache_check(m: Map<u32, (Coord, Outcome)>, s: Seq<Piece>) -> Option<
    (Coord, Outcome),
> {
    let key = canon_key(s) as u32;
    if m.dom().contains(key) {
        Some((rot_coord(m[key].0, (4 - canon_k(s)) as nat), m[key].1))
    } else {
        None
    }
}

/// No two of the four rotations of `s` share an encoding: the board has
/// no rotational self-symmetry.
pub open spec fn distinct_rotations(s: Seq<Piece>) -> bool {
    forall|i: nat, j: nat|
        i < j < 4 ==> (#[trigger] enc_rot(s, i)) != (#[trigger] enc_rot(s, j))
}

/// After a result is stored for a board, looking any rotation of that
/// board up returns the same outcome with the coordinate rotated the same
/// way. On a board with a rotational self-symmetry the canonical frame is
/// ambiguous, so the claim is made for boards without one.
pub proof fn lemma_cache_rotation_correct(
    m: Map<u32, (Coord, Outcome)>,
    s: Seq<Piece>,
    c: Coord,
    o: Outcome,
    r: nat,
)
    requires
        s.len() == 9,
        c.in_bounds(),
        r < 4,
        distinct_rotations(s),
    ensures
        cache_check(cache_add(m, s, (c, o)), rot_board(s, r)) == Some((rot_coord(c, r), o)),
{
    let k = canon_k(s);
    let t = rot_board(s, r);
    let m1 = cache_add(m, s, (c, o));
    lemma_canon_min(s);
    lemma_canon_min(t);
    lemma_canon_key_rotation_invariant(s, r);
    let kk = canon_k(t);
    assert(enc_rot(t, kk) == enc_rot(s, ((kk + r) % 4) as nat)) by {
        lemma_rot_board_add(s, r, kk);
        lemma_rot_board_mod(s, (r + kk) as nat);
    }
    assert(((kk + r) % 4) as nat == k) by {
        let j = ((kk + r) % 4) as nat;
        assert(enc_rot(s, j) == enc_rot(s, k));
        if j != k {
            if j < k {
                assert(enc_rot(s, j) != enc_rot(s, k));
            } else {
                assert(enc_rot(s, k) != enc_rot(s, j));
            }
        }
    }
    assert(rot_coord(rot_coord(c, k), (4 - kk) as nat) == rot_coord(c, r)) by {
        lemma_rot_coord_add(c, k, (4 - kk) as nat);
        assert(k + (4 - kk) as nat == (k + 4 - kk) as nat);
        lemma_rot_coord_mod(c, (k + 4 - kk) as nat);
        assert((k + 4 - kk) % 4 == r as int);
    }
    assert(m1.dom().contains(canon_key(t) as u32));
    assert(m1[canon_key(t) as u32] == (rot_coord(c, k), o));
}

/// The centre cell is fixed by every rotation.
proof fn lemma_rot_coord_center(k: nat)
    ensures
        rot_coord(Coord(1, 1), k) == Coord(1, 1),
    decreases k,
{
    if k > 0 {
        lemma_rot_coord_center((k - 1) as nat);
    }
}

/// For the centre cell the stored coordinate is immune to the ambiguity
/// of a symmetric board's canonical frame, so the rotation claim holds on
/// every board.
pub proof fn lemma_cache_rotation_correct_center(
    m: Map<u32, (Coord, Outcome)>,
    s: Seq<Piece>,
    o: Outcome,
    r: nat,
)
    requires
        s.len() == 9,
        r < 4,
    ensures
        cache_check(cache_add(m, s, (Coord(1, 1), o)), rot_board(s, r)) == Some(
            (rot_coord(Coord(1, 1), r), o),
        ),
{
    lemma_canon_min(s);
    lemma_canon_min(rot_board(s, r));
    lemma_canon_key_rotation_invariant(s, r);
    lemma_rot_coord_center(canon_k(s));
    lemma_rot_coord_center(canon_k(rot_board(s, r)));
    lemma_rot_coord_center((4 - canon_k(rot_board(s, r))) as nat);
    lemma_rot_coord_center(r);
}

/// A memo of search results, one entry per canonical board.
pub struct Cache {
    map: HashMap<u32, (Coord, Outcome)>,
}

impl View for Cache {
    type V = Map<u32, (Coord, Outcome)>;

    closed spec fn view(&self) -> Map<u32, (Coord, Outcome)> {
        self.map@
    }
}

impl Cache {
    /// Every stored coordinate lies on the grid, so a hit can always be
    /// rotated back.
    #[verifier::type_invariant]
    closed spec fn inv(self) -> bool {
        forall|key: u32|
            self.map@.dom().contains(key) ==> (#[trigger] self.map@[key]).0.in_bounds()
    }

    pub fn new() -> (c: Cache)
        ensures
            c@ == Map::<u32, (Coord, Outcome)>::empty(),
    {
        Cache { map: HashMap::new() }
    }

    /// How many canonical boards have an entry.
    pub fn len(&self) -> (r: usize)
        ensures
            r == self@.len(),
    {
        self.map.len()
    }

    /// Stores a result for `board`, keyed by its canonical rotation, the
    /// coordinate carried into the canonical frame.
    pub fn add(&mut self, board: &Board, res: (Coord, Outcome))
        requires
            res.0.in_bounds(),
        ensures
            final(self)@ == cache_add(old(self)@, board@, res),
    {
        proof {
            use_type_invariant(&*self);
        }
        let (rotations, rotated) = board.rotate_min();
        let stored = Board::right_rotate_coord(res.0, rotations);
        let mut m: HashMap<u32, (Coord, Outcome)> = HashMap::new();
        core::mem::swap(&mut m, &mut self.map);
        m.insert(rotated, (stored, res.1));
        self.map = m;
    }

    /// Looks `board` up under its canonical key; on a hit the stored
    /// coordinate comes back rotated into `board`'s own frame.
    pub fn check(&self, board: Board) -> (r: Option<(Coord, Outcome)>)
        ensures
            r == cache_check(self@, board@),
    {
        proof {
            use_type_invariant(&*self);
        }
        let (rotations, rotated) = board.rotate_min();
        let back_rotations = 4 - rotations;
        match self.map.get(&rotated) {
            None => None,
            Some(entry) => {
                let coord = entry.0;
                let outcome = entry.1;
                Some((Board::right_rotate_coord(coord, back_rotations), outcome))
            },
        }
    }
}

} // verus!
