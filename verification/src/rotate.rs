//! Quarter-turn rotations of coordinates and boards, the packed integer
//! encoding of a board, and the canonical (minimum-encoding) rotation.

use vstd::prelude::*;

use crate::model::{blank_board, Board, Coord, Piece};

verus! {

/// One clockwise quarter turn of a coordinate: (r, c) moves to (c, 2 - r).
pub open spec fn rot1_coord(c: Coord) -> Coord {
    Coord(c.1, (2 - c.0) as usize)
}

/// `k` quarter turns of a coordinate.
pub open spec fn rot_coord(c: Coord, k: nat) -> Coord
    decreases k,
{
    if k == 0 {
        c
    } else {
        rot1_coord(rot_coord(c, (k - 1) as nat))
    }
}

pub proof fn lemma_rot_coord_in_bounds(c: Coord, k: nat)
    requires
        c.in_bounds(),
    ensures
        rot_coord(c, k).in_bounds(),
    decreases k,
{
    if k > 0 {
        lemma_rot_coord_in_bounds(c, (k - 1) as nat);
    }
}

/// Four quarter turns bring every in-bounds coordinate back to itself.
pub proof fn lemma_rot_coord_4(c: Coord)
    requires
        c.in_bounds(),
    ensures
        rot_coord(c, 4) == c,
{
    reveal_with_fuel(rot_coord, 5);
}

/// Turning `a` times and then `b` more is turning `a + b` times.
pub proof fn lemma_rot_coord_add(c: Coord, a: nat, b: nat)
    ensures
        rot_coord(c, a + b) == rot_coord(rot_coord(c, a), b),
    decreases b,
{
    if b > 0 {
        lemma_rot_coord_add(c, a, (b - 1) as nat);
        assert(a + b - 1 == (a + (b - 1) as nat));
    }
}

/// Only the turn count modulo four matters.
pub proof fn lemma_rot_coord_mod(c: Coord, k: nat)
    requires
        c.in_bounds(),
    ensures
        rot_coord(c, k) == rot_coord(c, (k % 4) as nat),
    decreases k,
{
    if k >= 4 {
        lemma_rot_coord_add(c, 4, (k - 4) as nat);
        lemma_rot_coord_4(c);
        lemma_rot_coord_mod(c, (k - 4) as nat);
        assert((k - 4) % 4 == k % 4) by {
            assert(k == 4 + (k - 4));
        }
    }
}

/// Rotating `k` times and then enough further turns to reach a multiple of
/// four is the identity.
pub proof fn lemma_rotation_order_four(c: Coord, k: nat)
    requires
        c.in_bounds(),
        k <= 4,
    ensures
        rot_coord(c, 4) == c,
        rot_coord(rot_coord(c, k), (4 - k) as nat) == c,
{
    lemma_rot_coord_4(c);
    lemma_rot_coord_add(c, k, (4 - k) as nat);
}

/// Flat index of the cell that one clockwise quarter turn moves into flat
/// index `i`: position (r, c) of the rotated board is read from (2 - c, r)
/// of the source.
pub open spec fn rot1_src(i: int) -> int {
    (2 - i % 3) * 3 + i / 3
}

/// Flat index that one clockwise quarter turn carries flat index `i` to;
/// the inverse of `rot1_src`.
pub open spec fn rot1_tgt(i: int) -> int {
    (i % 3) * 3 + (2 - i / 3)
}

pub proof fn lemma_rot1_maps(i: int)
    requires
        0 <= i < 9,
    ensures
        0 <= rot1_src(i) < 9,
        0 <= rot1_tgt(i) < 9,
        rot1_src(rot1_tgt(i)) == i,
        rot1_tgt(rot1_src(i)) == i,
{
}

/// The flat form of the coordinate rotation agrees with the index map.
pub proof fn lemma_rot1_tgt_coord(c: Coord)
    requires
        c.in_bounds(),
    ensures
        rot1_coord(c).flat() == rot1_tgt(c.flat()),
        rot1_coord(c).in_bounds(),
{
}

/// One clockwise quarter turn of a whole board.
pub open spec fn rot1_board(s: Seq<Piece>) -> Seq<Piece> {
    Seq::new(9, |i: int| s[rot1_src(i)])
}

/// `k` quarter turns of a whole board.
pub open spec fn rot_board(s: Seq<Piece>, k: nat) -> Seq<Piece>
    decreases k,
{
    if k == 0 {
        s
    } else {
        rot1_board(rot_board(s, (k - 1) as nat))
    }
}

pub proof fn lemma_rot_board_len(s: Seq<Piece>, k: nat)
    requires
        s.len() == 9,
    ensures
        rot_board(s, k).len() == 9,
    decreases k,
{
    if k > 0 {
        lemma_rot_board_len(s, (k - 1) as nat);
    }
}

/// Four quarter turns bring a board back to itself.
pub proof fn lemma_rot_board_4(s: Seq<Piece>)
    requires
        s.len() == 9,
    ensures
        rot_board(s, 4) == s,
{
    reveal_with_fuel(rot_board, 5);
    let t = rot1_board(rot1_board(rot1_board(rot1_board(s))));
    assert(t[0] == s[0]);
    assert(t[1] == s[1]);
    assert(t[2] == s[2]);
    assert(t[3] == s[3]);
    assert(t[4] == s[4]);
    assert(t[5] == s[5]);
    assert(t[6] == s[6]);
    assert(t[7] == s[7]);
    assert(t[8] == s[8]);
    assert(t =~= s);
}

/// Turning `a` times and then `b` more is turning `a + b` times.
pub proof fn lemma_rot_board_add(s: Seq<Piece>, a: nat, b: nat)
    ensures
        rot_board(s, a + b) == rot_board(rot_board(s, a), b),
    decreases b,
{
    if b > 0 {
        lemma_rot_board_add(s, a, (b - 1) as nat);
        assert(a + b - 1 == (a + (b - 1) as nat));
    }
}

/// Only the turn count modulo four matters.
pub proof fn lemma_rot_board_mod(s: Seq<Piece>, k: nat)
    requires
        s.len() == 9,
    ensures
        rot_board(s, k) == rot_board(s, (k % 4) as nat),
    decreases k,
{
    if k >= 4 {
        lemma_rot_board_add(s, 4, (k - 4) as nat);
        lemma_rot_board_4(s);
        lemma_rot_board_mod(s, (k - 4) as nat);
        assert((k - 4) % 4 == k % 4) by {
            assert(k == 4 + (k - 4));
        }
    }
}

/// Rotating the board carries each cell to the rotated coordinate.
pub proof fn lemma_rot1_board_cell(s: Seq<Piece>, c: Coord)
    requires
        s.len() == 9,
        c.in_bounds(),
    ensures
        rot1_board(s)[rot1_coord(c).flat()] == s[c.flat()],
{
    lemma_rot1_tgt_coord(c);
    lemma_rot1_maps(c.flat());
}

/// Rotating board and coordinate together is coherent for any number of
/// turns: the cell read at the rotated coordinate of the rotated board is
/// the cell at the original coordinate of the original board.
pub proof fn lemma_rot_board_cell(s: Seq<Piece>, c: Coord, k: nat)
    requires
        s.len() == 9,
        c.in_bounds(),
    ensures
        rot_board(s, k)[rot_coord(c, k).flat()] == s[c.flat()],
    decreases k,
{
    if k > 0 {
        lemma_rot_board_cell(s, c, (k - 1) as nat);
        lemma_rot_board_len(s, (k - 1) as nat);
        lemma_rot_coord_in_bounds(c, (k - 1) as nat);
        lemma_rot1_board_cell(rot_board(s, (k - 1) as nat), rot_coord(c, (k - 1) as nat));
    }
}

/// The base-4 packing of a row of cells, first cell in the lowest digit.
pub open spec fn pack(s: Seq<Piece>) -> int
    decreases s.len(),
{
    if s.len() == 0 {
        0
    } else {
        s[0].spec_code() + 4 * pack(s.skip(1))
    }
}

/// Powers of four, for bounding the packed encoding.
pub open spec fn pow4(n: nat) -> int
    decreases n,
{
    if n == 0 {
        1
    } else {
        4 * pow4((n - 1) as nat)
    }
}

pub proof fn lemma_pack_bounds(s: Seq<Piece>)
    ensures
        0 <= pack(s) < pow4(s.len()),
    decreases s.len(),
{
    if s.len() > 0 {
        lemma_pack_bounds(s.skip(1));
    }
}

/// Distinct boards pack to distinct integers: the packing reads back as
/// base-4 digits.
pub proof fn lemma_pack_injective(s: Seq<Piece>, t: Seq<Piece>)
    requires
        s.len() == t.len(),
        pack(s) == pack(t),
    ensures
        s == t,
    decreases s.len(),
{
    if s.len() > 0 {
        assert(s[0].spec_code() == t[0].spec_code() && pack(s.skip(1)) == pack(t.skip(1))) by {
            lemma_pack_bounds(s.skip(1));
            lemma_pack_bounds(t.skip(1));
        }
        assert(s[0] == t[0]);
        lemma_pack_injective(s.skip(1), t.skip(1));
        assert forall|i: int| 0 <= i < s.len() implies s[i] == t[i] by {
            if i > 0 {
                assert(s.skip(1)[i - 1] == s[i]);
                assert(t.skip(1)[i - 1] == t[i]);
            }
        }
        assert(s =~= t);
    } else {
        assert(s =~= t);
    }
}

/// The encoding of the board after `k` quarter turns.
pub open spec fn enc_rot(s: Seq<Piece>, k: nat) -> int {
    pack(rot_board(s, k))
}

/// How many quarter turns reach the rotation with the smallest encoding;
/// the first of the tied turn counts wins.
pub open spec fn canon_k(s: Seq<Piece>) -> nat {
    let e0 = enc_rot(s, 0);
    let e1 = enc_rot(s, 1);
    let e2 = enc_rot(s, 2);
    let e3 = enc_rot(s, 3);
    if e0 <= e1 && e0 <= e2 && e0 <= e3 {
        0
    } else if e1 <= e2 && e1 <= e3 {
        1
    } else if e2 <= e3 {
        2
    } else {
        3
    }
}

/// The smallest encoding among the four rotations: the cache key.
pub open spec fn canon_key(s: Seq<Piece>) -> int {
    enc_rot(s, canon_k(s))
}

/// `canon_k` picks a true stable minimum over the four rotations.
pub proof fn lemma_canon_min(s: Seq<Piece>)
    ensures
        canon_k(s) < 4,
        forall|k: nat| k < 4 ==> canon_key(s) <= enc_rot(s, k),
        forall|k: nat| k < canon_k(s) ==> enc_rot(s, k) > canon_key(s),
{
    assert forall|k: nat| k < 4 implies canon_key(s) <= enc_rot(s, k) by {
        assert(k == 0 || k == 1 || k == 2 || k == 3);
    }
    assert forall|k: nat| k < canon_k(s) implies enc_rot(s, k) > canon_key(s) by {
        assert(k == 0 || k == 1 || k == 2);
    }
}

impl Board {
    /// `times` quarter turns of a single coordinate; only `times % 4`
    /// matters.
    pub fn right_rotate_coord(coord: Coord, times: usize) -> (r: Coord)
        requires
            coord.in_bounds(),
        ensures
            r == rot_coord(coord, times as nat),
            r.in_bounds(),
    {
        let t = times % 4;
        let mut c = coord;
        let mut i: usize = 0;
        while i < t
            invariant
                i <= t,
                coord.in_bounds(),
                c == rot_coord(coord, i as nat),
                c.in_bounds(),
            decreases t - i,
        {
            c = Coord(c.1, 2 - c.0);
            i = i + 1;
        }
        proof {
            lemma_rot_coord_mod(coord, times as nat);
        }
        c
    }

    /// One clockwise quarter turn of the whole board.
    fn rotated_once(&self) -> (r: Board)
        ensures
            r@ == rot1_board(self@),
    {
        let mut out = Board::new();
        let mut i: usize = 0;
        while i < 9
            invariant
                i <= 9,
                out@.len() == 9,
                forall|j: int| 0 <= j < i ==> out@[j] == rot1_board(self@)[j],
            decreases 9 - i,
        {
            let src: usize = (2 - i % 3) * 3 + i / 3;
            proof {
                lemma_rot1_maps(i as int);
                assert(src == rot1_src(i as int));
            }
            out.0[i] = self.0[src];
            i = i + 1;
        }
        proof {
            assert(out@ =~= rot1_board(self@));
        }
        out
    }

    /// The board after `times` quarter turns; only `times % 4` matters.
    pub fn right_rotate(&self, times: usize) -> (r: Board)
        ensures
            r@ == rot_board(self@, times as nat),
            r@ == rot_board(self@, (times % 4) as nat),
    {
        let t = times % 4;
        let mut b = *self;
        let mut i: usize = 0;
        while i < t
            invariant
                i <= t,
                b@ == rot_board(self@, i as nat),
            decreases t - i,
        {
            b = b.rotated_once();
            i = i + 1;
        }
        proof {
            lemma_rot_board_mod(self@, times as nat);
        }
        b
    }

    /// The packed base-4 encoding of the board, two bits per cell, the
    /// first cell in the lowest bits.
    pub fn encode(&self) -> (r: u32)
        ensures
            r as int == pack(self@),
    {
        proof {
            reveal_with_fuel(pow4, 10);
        }
        let mut acc: u32 = 0;
        let mut i: usize = 9;
        while i > 0
            invariant
                i <= 9,
                acc as int == pack(self@.skip(i as int)),
            decreases i,
        {
            i = i - 1;
            proof {
                reveal_with_fuel(pow4, 10);
                lemma_pack_bounds(self@.skip(i + 1));
                assert(self@.skip(i + 1).len() == 8 - i);
                assert(pow4((8 - i) as nat) <= pow4(8)) by {
                    reveal_with_fuel(pow4, 10);
                    assert forall|n: nat| n < 9 implies #[trigger] pow4(n) <= pow4(8) by {
                        assert(n == 0 || n == 1 || n == 2 || n == 3 || n == 4 || n == 5 || n == 6
                            || n == 7 || n == 8);
                    }
                }
                assert(self@.skip(i as int)[0] == self@[i as int]);
                assert(self@.skip(i as int).skip(1) =~= self@.skip(i + 1));
            }
            let code: u32 = match self.0[i] {
                Piece::Blank => 0,
                Piece::Circle => 1,
                Piece::Cross => 2,
            };
            acc = acc * 4 + code;
        }
        proof {
            assert(self@.skip(0) =~= self@);
        }
        acc
    }

    /// The stable minimum over the four rotations: how many turns reach
    /// the smallest encoding, and that encoding, the canonical key.
    pub fn rotate_min(&self) -> (r: (usize, u32))
        ensures
            r.0 as nat == canon_k(self@),
            r.1 as int == canon_key(self@),
            r.0 < 4,
    {
        let e0 = self.encode();
        let e1 = self.right_rotate(1).encode();
        let e2 = self.right_rotate(2).encode();
        let e3 = self.right_rotate(3).encode();
        if e0 <= e1 && e0 <= e2 && e0 <= e3 {
            (0, e0)
        } else if e1 <= e2 && e1 <= e3 {
            (1, e1)
        } else if e2 <= e3 {
            (2, e2)
        } else {
            (3, e3)
        }
    }
}

/// The canonical key does not see which of its four rotations a board is
/// presented in.
pub proof fn lemma_canon_key_rotation_invariant(s: Seq<Piece>, r: nat)
    requires
        s.len() == 9,
        r < 4,
    ensures
        canon_key(rot_board(s, r)) == canon_key(s),
{
    let t = rot_board(s, r);
    assert forall|k: nat| k < 4 implies enc_rot(t, k) == enc_rot(s, ((k + r) % 4) as nat) by {
        lemma_rot_board_add(s, r, k);
        assert(rot_board(s, r + k) == rot_board(t, k));
        lemma_rot_board_mod(s, (r + k) as nat);
        assert((r + k) % 4 == (k + r) % 4);
    }
    lemma_canon_min(s);
    lemma_canon_min(t);
    let e0 = enc_rot(s, 0);
    let e1 = enc_rot(s, 1);
    let e2 = enc_rot(s, 2);
    let e3 = enc_rot(s, 3);
    if r == 0 {
        assert(enc_rot(t, 0) == e0 && enc_rot(t, 1) == e1 && enc_rot(t, 2) == e2 && enc_rot(t, 3)
            == e3);
    } else if r == 1 {
        assert(enc_rot(t, 0) == e1 && enc_rot(t, 1) == e2 && enc_rot(t, 2) == e3 && enc_rot(t, 3)
            == e0);
    } else if r == 2 {
        assert(enc_rot(t, 0) == e2 && enc_rot(t, 1) == e3 && enc_rot(t, 2) == e0 && enc_rot(t, 3)
            == e1);
    } else {
        assert(enc_rot(t, 0) == e3 && enc_rot(t, 1) == e0 && enc_rot(t, 2) == e1 && enc_rot(t, 3)
            == e2);
    }
}

} // verus!
