//! The data model: cell contents, coordinates, outcomes, players, errors,
//! and the 3x3 board with its placement primitives.

use vstd::prelude::*;

verus! {

/// What a single cell of the grid holds.
#[derive(Clone, Copy, Debug, PartialEq, Eq, Structural)]
pub enum Piece {
    Blank,
    Circle,
    Cross,
}

impl Piece {
    /// The mark of the other player; `Blank` has no other side.
    pub open spec fn spec_opposite(self) -> Piece {
        match self {
            Piece::Blank => Piece::Blank,
            Piece::Circle => Piece::Cross,
            Piece::Cross => Piece::Circle,
        }
    }

    pub fn opposite(self) -> (r: Piece)
        ensures
            r == self.spec_opposite(),
    {
        match self {
            Piece::Blank => Piece::Blank,
            Piece::Circle => Piece::Cross,
            Piece::Cross => Piece::Circle,
        }
    }

    /// The two-bit code a cell contributes to the packed board encoding.
    pub open spec fn spec_code(self) -> int {
        match self {
            Piece::Blank => 0,
            Piece::Circle => 1,
            Piece::Cross => 2,
        }
    }
}

/// The outcome of optimal play, seen from the player about to move.
/// `Win` is best for the mover, `Loss` worst.
#[derive(Clone, Copy, Debug, PartialEq, Eq, Structural)]
pub enum Outcome {
    Win,
    Tie,
    Loss,
}

impl Outcome {
    /// Position in the mover's preference order: lower is better.
    pub open spec fn rank(self) -> int {
        match self {
            Outcome::Win => 0,
            Outcome::Tie => 1,
            Outcome::Loss => 2,
        }
    }

    /// The same result seen from the other player.
    pub open spec fn spec_opposite(self) -> Outcome {
        match self {
            Outcome::Win => Outcome::Loss,
            Outcome::Tie => Outcome::Tie,
            Outcome::Loss => Outcome::Win,
        }
    }

    pub fn opposite(self) -> (r: Outcome)
        ensures
            r == self.spec_opposite(),
    {
        match self {
            Outcome::Win => Outcome::Loss,
            Outcome::Tie => Outcome::Tie,
            Outcome::Loss => Outcome::Win,
        }
    }
}

/// Switching perspective twice is the identity, and a tie has no side.
pub proof fn lemma_outcome_opposite_involution(o: Outcome)
    ensures
        o.spec_opposite().spec_opposite() == o,
        Outcome::Tie.spec_opposite() == Outcome::Tie,
{
}

/// The smaller of two outcomes under the mover's preference order.
pub open spec fn out_min(a: Outcome, b: Outcome) -> Outcome {
    if a.rank() <= b.rank() {
        a
    } else {
        b
    }
}

/// Who is sitting at the board.
#[derive(Clone, Copy, Debug, PartialEq, Eq, Structural)]
pub enum Player {
    Human,
    Computer,
}

impl Player {
    pub open spec fn spec_opposite(self) -> Player {
        match self {
            Player::Human => Player::Computer,
            Player::Computer => Player::Human,
        }
    }

    pub fn opposite(self) -> (r: Player)
        ensures
            r == self.spec_opposite(),
    {
        match self {
            Player::Human => Player::Computer,
            Player::Computer => Player::Human,
        }
    }
}

/// The ways a board operation can be refused.
#[derive(Clone, Copy, Debug, PartialEq, Eq, Structural)]
pub enum GameError {
    /// A coordinate outside the 3x3 grid was supplied.
    OutOfBounds,
    /// A placement targeted a cell that already holds a mark.
    CellOccupied,
    /// No move can be made: the board is full, or none was supplied.
    NoLegalMove,
}

/// A cell position: row and column, each in 0..3.
#[derive(Clone, Copy, Debug, PartialEq, Eq, Structural)]
pub struct Coord(pub usize, pub usize);

impl Coord {
    pub open spec fn in_bounds(self) -> bool {
        self.0 < 3 && self.1 < 3
    }

    /// The row-major flattening used for storage and bit packing.
    pub open spec fn flat(self) -> int {
        self.0 * 3 + self.1
    }

    pub fn out_of_bounds(self) -> (r: Result<(), GameError>)
        ensures
            r is Ok <==> self.in_bounds(),
            r is Err ==> r == Err::<(), GameError>(GameError::OutOfBounds),
    {
        if self.0 > 2 || self.1 > 2 {
            Err(GameError::OutOfBounds)
        } else {
            Ok(())
        }
    }

    pub fn flat_ind(self) -> (r: usize)
        requires
            self.in_bounds(),
        ensures
            r == self.flat(),
            r < 9,
    {
        self.0 * 3 + self.1
    }
}

/// How many cells of a board hold a mark.
pub open spec fn used_in(s: Seq<Piece>) -> int
    decreases s.len(),
{
    if s.len() == 0 {
        0
    } else {
        used_in(s.drop_last()) + if s.last() == Piece::Blank {
            0int
        } else {
            1int
        }
    }
}

pub proof fn lemma_used_in_bounds(s: Seq<Piece>)
    ensures
        0 <= used_in(s) <= s.len(),
    decreases s.len(),
{
    if s.len() > 0 {
        lemma_used_in_bounds(s.drop_last());
    }
}

/// Marking a blank cell raises the count by one.
pub proof fn lemma_used_in_update(s: Seq<Piece>, i: int, p: Piece)
    requires
        0 <= i < s.len(),
        s[i] == Piece::Blank,
        p != Piece::Blank,
    ensures
        used_in(s.update(i, p)) == used_in(s) + 1,
    decreases s.len(),
{
    let t = s.update(i, p);
    if i == s.len() - 1 {
        assert(t.drop_last() =~= s.drop_last());
    } else {
        assert(t.drop_last() =~= s.drop_last().update(i, p));
        lemma_used_in_update(s.drop_last(), i, p);
    }
}

/// A board is full exactly when no cell is blank.
pub proof fn lemma_used_in_full(s: Seq<Piece>)
    ensures
        used_in(s) == s.len() <==> (forall|j: int| 0 <= j < s.len() ==> s[j] != Piece::Blank),
    decreases s.len(),
{
    if s.len() > 0 {
        lemma_used_in_full(s.drop_last());
        lemma_used_in_bounds(s.drop_last());
        if used_in(s) == s.len() {
            assert forall|j: int| 0 <= j < s.len() implies s[j] != Piece::Blank by {
                if j < s.len() - 1 {
                    assert(s.drop_last()[j] == s[j]);
                }
            }
        } else {
            if forall|j: int| 0 <= j < s.len() ==> s[j] != Piece::Blank {
                assert forall|j: int| 0 <= j < s.drop_last().len() implies s.drop_last()[j]
                    != Piece::Blank by {
                    assert(s.drop_last()[j] == s[j]);
                }
                assert(false);
            }
        }
    }
}

/// The all-blank starting position.
pub open spec fn blank_board() -> Seq<Piece> {
    Seq::new(9, |i: int| Piece::Blank)
}

/// The 3x3 grid, stored row-major as nine cells.
#[derive(Clone, Copy, Debug, PartialEq, Eq)]
pub struct Board(pub [Piece; 9]);

impl View for Board {
    type V = Seq<Piece>;

    open spec fn view(&self) -> Seq<Piece> {
        self.0@
    }
}

impl Board {
    pub fn new() -> (b: Board)
        ensures
            b@ == blank_board(),
    {
        let b = Board([Piece::Blank; 9]);
        proof {
            assert(b@ =~= blank_board());
        }
        b
    }

    pub fn get(&self, coord: Coord) -> (r: Result<Piece, GameError>)
        ensures
            coord.in_bounds() ==> r == Ok::<Piece, GameError>(self@[coord.flat()]),
            !coord.in_bounds() ==> r == Err::<Piece, GameError>(GameError::OutOfBounds),
    {
        if coord.0 < 3 && coord.1 < 3 {
            Ok(self.0[coord.flat_ind()])
        } else {
            Err(GameError::OutOfBounds)
        }
    }

    /// Writes a cell unconditionally; the occupancy checks live in
    /// `place` and `reset`.
    fn set(&mut self, coord: Coord, piece: Piece)
        requires
            coord.in_bounds(),
        ensures
            final(self)@ == old(self)@.update(coord.flat(), piece),
    {
        let i = coord.flat_ind();
        self.0[i] = piece;
    }

    /// Puts `piece` on a blank in-bounds cell; refuses anything else and
    /// leaves the board as it was.
    pub fn place(&mut self, coord: Coord, piece: Piece) -> (r: Result<(), GameError>)
        ensures
            r is Ok <==> coord.in_bounds() && old(self)@[coord.flat()] == Piece::Blank,
            r is Ok ==> final(self)@ == old(self)@.update(coord.flat(), piece),
            !coord.in_bounds() ==> r == Err::<(), GameError>(GameError::OutOfBounds),
            coord.in_bounds() && old(self)@[coord.flat()] != Piece::Blank ==> r == Err::<(),
                GameError,
            >(GameError::CellOccupied),
            r is Err ==> *final(self) == *old(self),
    {
        match self.get(coord) {
            Err(e) => Err(e),
            Ok(Piece::Circle) | Ok(Piece::Cross) => Err(GameError::CellOccupied),
            Ok(Piece::Blank) => {
                self.set(coord, piece);
                Ok(())
            },
        }
    }

    /// Clears an in-bounds cell back to blank.
    pub fn reset(&mut self, coord: Coord) -> (r: Result<(), GameError>)
        ensures
            r is Ok <==> coord.in_bounds(),
            r is Ok ==> final(self)@ == old(self)@.update(coord.flat(), Piece::Blank),
            r is Err ==> r == Err::<(), GameError>(GameError::OutOfBounds) && *final(self) == *old(
                self,
            ),
    {
        match self.get(coord) {
            Err(e) => Err(e),
            Ok(_) => {
                self.set(coord, Piece::Blank);
                Ok(())
            },
        }
    }

    pub fn used_cells(&self) -> (r: usize)
        ensures
            r == used_in(self@),
    {
        let mut count: usize = 0;
        let mut i: usize = 0;
        while i < 9
            invariant
                i <= 9,
                count == used_in(self@.take(i as int)),
                count <= i,
            decreases 9 - i,
        {
            proof {
                assert(self@.take(i + 1).drop_last() =~= self@.take(i as int));
                assert(self@.take(i + 1).last() == self@[i as int]);
            }
            if !matches!(self.0[i], Piece::Blank) {
                count = count + 1;
            }
            i = i + 1;
        }
        proof {
            assert(self@.take(9) =~= self@);
        }
        count
    }
}

} // verus!
