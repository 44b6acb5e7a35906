//! The eight winning lines of the grid, win detection, and the fact that
//! a quarter turn carries winning lines onto winning lines.

use vstd::prelude::*;

use crate::model::{Board, Piece};
use crate::rotate::rot1_board;

verus! {

/// Flat indices of the cells of line `l`: three columns, three rows, the
/// two diagonals, in the order the search examines them.
pub open spec fn line(l: int) -> (int, int, int) {
    if l == 0 {
        (0, 3, 6)
    } else if l == 1 {
        (1, 4, 7)
    } else if l == 2 {
        (2, 5, 8)
    } else if l == 3 {
        (0, 1, 2)
    } else if l == 4 {
        (3, 4, 5)
    } else if l == 5 {
        (6, 7, 8)
    } else if l == 6 {
        (0, 4, 8)
    } else {
        (2, 4, 6)
    }
}

/// Line `l` is filled by `p` throughout.
pub open spec fn line_is(s: Seq<Piece>, l: int, p: Piece) -> bool {
    s[line(l).0] == p && s[line(l).1] == p && s[line(l).2] == p
}

/// `p` has three in a row somewhere on the board.
pub open spec fn wins(s: Seq<Piece>, p: Piece) -> bool {
    p != Piece::Blank && exists|l: int| 0 <= l < 8 && #[trigger] line_is(s, l, p)
}

/// The cells of line `l`, for the line scans.
pub(crate) fn line_cells(l: usize) -> (r: (usize, usize, usize))
    requires
        l < 8,
    ensures
        r.0 as int == line(l as int).0,
        r.1 as int == line(l as int).1,
        r.2 as int == line(l as int).2,
        r.0 < 9 && r.1 < 9 && r.2 < 9,
{
    match l {
        0 => (0, 3, 6),
        1 => (1, 4, 7),
        2 => (2, 5, 8),
        3 => (0, 1, 2),
        4 => (3, 4, 5),
        5 => (6, 7, 8),
        6 => (0, 4, 8),
        _ => (2, 4, 6),
    }
}

impl Board {
    /// Whether `piece` has completed a line.
    pub fn has_win(&self, piece: Piece) -> (r: bool)
        ensures
            r == wins(self@, piece),
    {
        if matches!(piece, Piece::Blank) {
            return false;
        }
        let mut l: usize = 0;
        while l < 8
            invariant
                l <= 8,
                piece != Piece::Blank,
                forall|j: int| 0 <= j < l ==> !line_is(self@, j, piece),
            decreases 8 - l,
        {
            let (a, b, c) = line_cells(l);
            if self.0[a] == piece && self.0[b] == piece && self.0[c] == piece {
                proof {
                    assert(line_is(self@, l as int, piece));
                }
                return true;
            }
            l = l + 1;
        }
        false
    }
}

/// Line `l` is filled throughout by a single mark.
pub open spec fn line_complete(s: Seq<Piece>, l: int) -> bool {
    s[line(l).0] != Piece::Blank && s[line(l).1] == s[line(l).0] && s[line(l).2] == s[line(l).0]
}

/// The mark owning the first completed line at or after `l`, scanning the
/// lines in their fixed order.
pub open spec fn first_line_owner(s: Seq<Piece>, l: int) -> Option<Piece>
    decreases 8 - l,
{
    if l < 0 || l >= 8 {
        None
    } else {
        if line_complete(s, l) {
            Some(s[line(l).0])
        } else {
            first_line_owner(s, l + 1)
        }
    }
}

proof fn lemma_line_owner_from(s: Seq<Piece>, l: int)
    requires
        s.len() == 9,
        0 <= l <= 8,
    ensures
        first_line_owner(s, l) is None <==> (forall|j: int|
            l <= j < 8 ==> !(#[trigger] line_complete(s, j))),
        first_line_owner(s, l) matches Some(p) ==> p != Piece::Blank && (exists|j: int|
            l <= j < 8 && #[trigger] line_is(s, j, p)),
    decreases 8 - l,
{
    if l < 8 {
        lemma_line_owner_from(s, l + 1);
        if line_complete(s, l) {
            assert(line_is(s, l, s[line(l).0]));
        }
    }
}

/// The first-matching-line scan agrees with the win predicate: it finds
/// nobody exactly when nobody has three in a row, and whoever it names
/// has three in a row.
pub proof fn lemma_first_line_owner_wins(s: Seq<Piece>)
    requires
        s.len() == 9,
    ensures
        first_line_owner(s, 0) is None <==> (forall|p: Piece| !(#[trigger] wins(s, p))),
        first_line_owner(s, 0) matches Some(p) ==> wins(s, p),
{
    lemma_line_owner_from(s, 0);
    if first_line_owner(s, 0) is None {
        assert forall|p: Piece| !(#[trigger] wins(s, p)) by {
            if wins(s, p) {
                let l = choose|l: int| 0 <= l < 8 && #[trigger] line_is(s, l, p);
                assert(line_complete(s, l));
            }
        }
    } else {
        let p = first_line_owner(s, 0)->Some_0;
        assert(wins(s, p));
    }
}

/// One quarter turn carries each winning line onto a winning line, so the
/// winner is preserved.
pub proof fn lemma_wins_rot1(s: Seq<Piece>, p: Piece)
    requires
        s.len() == 9,
    ensures
        wins(rot1_board(s), p) == wins(s, p),
{
    let t = rot1_board(s);
    assert(t[0] == s[6]);
    assert(t[1] == s[3]);
    assert(t[2] == s[0]);
    assert(t[3] == s[7]);
    assert(t[4] == s[4]);
    assert(t[5] == s[1]);
    assert(t[6] == s[8]);
    assert(t[7] == s[5]);
    assert(t[8] == s[2]);
    if wins(s, p) {
        let l = choose|l: int| 0 <= l < 8 && #[trigger] line_is(s, l, p);
        if l == 0 {
            assert(line_is(t, 3, p));
        } else if l == 1 {
            assert(line_is(t, 4, p));
        } else if l == 2 {
            assert(line_is(t, 5, p));
        } else if l == 3 {
            assert(line_is(t, 2, p));
        } else if l == 4 {
            assert(line_is(t, 1, p));
        } else if l == 5 {
            assert(line_is(t, 0, p));
        } else if l == 6 {
            assert(line_is(t, 7, p));
        } else {
            assert(line_is(t, 6, p));
        }
        assert(wins(t, p));
    }
    if wins(t, p) {
        let l = choose|l: int| 0 <= l < 8 && #[trigger] line_is(t, l, p);
        if l == 0 {
            assert(line_is(s, 5, p));
        } else if l == 1 {
            assert(line_is(s, 4, p));
        } else if l == 2 {
            assert(line_is(s, 3, p));
        } else if l == 3 {
            assert(line_is(s, 0, p));
        } else if l == 4 {
            assert(line_is(s, 1, p));
        } else if l == 5 {
            assert(line_is(s, 2, p));
        } else if l == 6 {
            assert(line_is(s, 7, p));
        } else {
            assert(line_is(s, 6, p));
        }
        assert(wins(s, p));
    }
}

} // verus!
