//! The search engine: a game holds a board, the player who moves first,
//! and the transposition cache; `best_move` runs memoized backward
//! induction and is proved to return the game-theoretic value of the
//! position together with a cell attaining it.

use vstd::prelude::*;

use crate::cache::{cache_add, Cache};
use crate::lines::{first_line_owner, line_cells};
use crate::model::{
    blank_board, lemma_used_in_bounds, lemma_used_in_full, lemma_used_in_update, used_in, Board,
    Coord, GameError, Outcome, Piece, Player,
};
use crate::rng::{fresh_rng, rng_below, rng_bool};
use crate::rotate::{
    canon_k, canon_key, lemma_pack_bounds, lemma_pack_injective, lemma_rot_board_len, pack, pow4,
    rot_board, rot_coord,
};
use crate::value::{
    after_value, best_from, first_best, lemma_after_value_rot, lemma_best_from_is_min,
    lemma_first_best_found, lemma_move_outcome_after, lemma_used_in_rot, move_outcome, value,
};

verus! {

/// How the engine settles ties among equally good moves: take the first
/// in scan order, or draw one at random.
#[derive(Clone, Copy, Debug, PartialEq, Eq, Structural)]
pub enum TieBreak {
    First,
    Random,
}

/// `s` is a board whose packed encoding is `key`.
pub open spec fn board_for_key(key: u32, s: Seq<Piece>) -> bool {
    s.len() == 9 && pack(s) == key as int
}

/// The mark that moved last into a position, under the convention that
/// `om` is the mark moving into every odd-count position.
pub open spec fn mover_of(s: Seq<Piece>, om: Piece) -> Piece {
    if used_in(s) % 2 == 1 {
        om
    } else {
        om.spec_opposite()
    }
}

/// A cache entry is sound: whatever board its key decodes to, the stored
/// outcome is the just-moved value of that board for the mark the parity
/// convention says moved last.
pub open spec fn entry_ok(key: u32, v: (Coord, Outcome), om: Piece) -> bool {
    forall|s: Seq<Piece>|
        #[trigger] board_for_key(key, s) ==> v.1 == after_value(s, mover_of(s, om))
}

/// Every entry of the cache is sound under the parity convention `om`.
pub open spec fn cache_ok(m: Map<u32, (Coord, Outcome)>, om: Piece) -> bool {
    forall|key: u32| m.dom().contains(key) ==> entry_ok(key, #[trigger] m[key], om)
}

/// Every board behind `key` holds more than `n` marks.
pub open spec fn key_deeper_than(key: u32, n: int) -> bool {
    forall|s: Seq<Piece>| #[trigger] board_for_key(key, s) ==> used_in(s) > n
}

/// The parity convention induced by `p` being about to move on `s`.
pub open spec fn odd_mover(s: Seq<Piece>, p: Piece) -> Piece {
    if used_in(s) % 2 == 0 {
        p
    } else {
        p.spec_opposite()
    }
}

/// Whose mark is placed next: crosses open and the marks alternate.
pub open spec fn current_piece(s: Seq<Piece>) -> Piece {
    if used_in(s) % 2 == 0 {
        Piece::Cross
    } else {
        Piece::Circle
    }
}

/// The player holding `p`, given who went first.
pub open spec fn spec_player_by_piece(first: Player, p: Piece) -> Player {
    if (first == Player::Computer) == (p == Piece::Cross) {
        Player::Computer
    } else {
        Player::Human
    }
}

/// The player whose turn it is.
pub open spec fn spec_current_player(g: Game) -> Player {
    if used_in(g.board@) % 2 == 0 {
        g.first
    } else {
        g.first.spec_opposite()
    }
}

/// The canonical rotation of the board reached by playing `piece` at
/// cell `i` of `s`: the board a cache entry for that move describes.
pub open spec fn canon_after(s: Seq<Piece>, piece: Piece, i: int) -> Seq<Piece> {
    rot_board(s.update(i, piece), canon_k(s.update(i, piece)))
}

/// The canonical board after a move is a valid preimage of its cache
/// key, with the same mark count as the position it canonicalizes, and
/// the parity convention names `piece` as its last mover.
proof fn lemma_canon_after_facts(s: Seq<Piece>, piece: Piece, i: int)
    requires
        s.len() == 9,
        piece != Piece::Blank,
        0 <= i < 9,
        s[i] == Piece::Blank,
    ensures
        board_for_key(canon_key(s.update(i, piece)) as u32, canon_after(s, piece, i)),
        used_in(canon_after(s, piece, i)) == used_in(s) + 1,
        mover_of(canon_after(s, piece, i), odd_mover(s, piece)) == piece,
        after_value(canon_after(s, piece, i), piece) == move_outcome(s, piece, i),
{
    let t = s.update(i, piece);
    let kk = canon_k(t);
    let s0 = canon_after(s, piece, i);
    lemma_used_in_bounds(s);
    lemma_used_in_update(s, i, piece);
    lemma_rot_board_len(t, kk);
    lemma_pack_bounds(s0);
    assert(pow4(9) == 262144) by {
        reveal_with_fuel(pow4, 10);
    }
    assert((canon_key(t) as u32) as int == canon_key(t));
    lemma_used_in_rot(t, kk);
    lemma_after_value_rot(t, piece, kk);
    lemma_move_outcome_after(s, piece, i);
}

/// A sound cache entry found under the key of the position after a move
/// stores exactly that move's outcome.
proof fn lemma_cache_hit(
    m: Map<u32, (Coord, Outcome)>,
    s: Seq<Piece>,
    piece: Piece,
    i: int,
)
    requires
        s.len() == 9,
        piece != Piece::Blank,
        0 <= i < 9,
        s[i] == Piece::Blank,
        cache_ok(m, odd_mover(s, piece)),
        m.dom().contains(canon_key(s.update(i, piece)) as u32),
    ensures
        m[canon_key(s.update(i, piece)) as u32].1 == move_outcome(s, piece, i),
{
    let key = canon_key(s.update(i, piece)) as u32;
    lemma_canon_after_facts(s, piece, i);
    assert(entry_ok(key, m[key], odd_mover(s, piece)));
    assert(board_for_key(key, canon_after(s, piece, i)));
}

/// The key of the position after a move is not deeper than that position
/// itself, so a search of the deeper tree cannot have created it.
proof fn lemma_canon_key_not_deeper(s: Seq<Piece>, piece: Piece, i: int)
    requires
        s.len() == 9,
        piece != Piece::Blank,
        0 <= i < 9,
        s[i] == Piece::Blank,
    ensures
        !key_deeper_than(canon_key(s.update(i, piece)) as u32, used_in(s) + 1),
{
    lemma_canon_after_facts(s, piece, i);
}

/// Inserting a correct result for the position after a move keeps the
/// cache sound, and the new key describes a position deeper than `s`.
proof fn lemma_cache_extend(
    m: Map<u32, (Coord, Outcome)>,
    s: Seq<Piece>,
    piece: Piece,
    i: int,
    c: Coord,
    o: Outcome,
)
    requires
        s.len() == 9,
        piece != Piece::Blank,
        0 <= i < 9,
        s[i] == Piece::Blank,
        cache_ok(m, odd_mover(s, piece)),
        o == move_outcome(s, piece, i),
    ensures
        cache_ok(cache_add(m, s.update(i, piece), (c, o)), odd_mover(s, piece)),
        key_deeper_than(canon_key(s.update(i, piece)) as u32, used_in(s)),
        !m.dom().contains(canon_key(s.update(i, piece)) as u32) ==> m.submap_of(
            cache_add(m, s.update(i, piece), (c, o)),
        ),
{
    let om = odd_mover(s, piece);
    let t = s.update(i, piece);
    let key = canon_key(t) as u32;
    let s0 = canon_after(s, piece, i);
    let m1 = cache_add(m, t, (c, o));
    lemma_canon_after_facts(s, piece, i);
    assert forall|sx: Seq<Piece>| #[trigger] board_for_key(key, sx) implies sx == s0 by {
        lemma_pack_injective(sx, s0);
    }
    assert(entry_ok(key, (rot_coord(c, canon_k(t)), o), om));
    assert forall|k: u32| m1.dom().contains(k) implies entry_ok(k, #[trigger] m1[k], om) by {
        if k != key {
            assert(m.dom().contains(k));
            assert(m1[k] == m[k]);
        }
    }
    assert(key_deeper_than(key, used_in(s)));
}

/// Playing a mark and handing the turn over flips the board's parity but
/// not the convention it induces.
proof fn lemma_odd_mover_step(s: Seq<Piece>, piece: Piece, i: int)
    requires
        s.len() == 9,
        piece != Piece::Blank,
        0 <= i < 9,
        s[i] == Piece::Blank,
    ensures
        odd_mover(s.update(i, piece), piece.spec_opposite()) == odd_mover(s, piece),
{
    lemma_used_in_update(s, i, piece);
}

/// One game: the position, who opened, the memo of searched positions,
/// and how ties among equally good moves are settled.
pub struct Game {
    pub board: Board,
    pub first: Player,
    pub cache: Cache,
    pub tie_break: TieBreak,
}

fn rank_of(o: Outcome) -> (r: u32)
    ensures
        r as int == o.rank(),
{
    match o {
        Outcome::Win => 0,
        Outcome::Tie => 1,
        Outcome::Loss => 2,
    }
}

impl Game {
    /// A fresh game on an empty board; a coin decides who goes first, and
    /// ties among equally good moves are drawn at random.
    pub fn new() -> (g: Game)
        ensures
            g.board@ == blank_board(),
            g.cache@ == Map::<u32, (Coord, Outcome)>::empty(),
            g.tie_break == TieBreak::Random,
    {
        let mut rng = fresh_rng();
        let first = if rng_bool(&mut rng) {
            Player::Computer
        } else {
            Player::Human
        };
        Game { board: Board::new(), first, cache: Cache::new(), tie_break: TieBreak::Random }
    }

    /// The player whose turn it is, with the mark they place.
    pub fn current_player(&self) -> (r: (Player, Piece))
        ensures
            r.0 == spec_current_player(*self),
            r.1 == current_piece(self.board@),
    {
        if self.board.used_cells() % 2 == 0 {
            (self.first, Piece::Cross)
        } else {
            (self.first.opposite(), Piece::Circle)
        }
    }

    /// Which player holds `piece`, given who went first.
    pub fn player_by_piece(&self, piece: Piece) -> (r: Player)
        ensures
            r == spec_player_by_piece(self.first, piece),
    {
        if (self.first == Player::Computer) == (piece == Piece::Cross) {
            Player::Computer
        } else {
            Player::Human
        }
    }

    /// The player owning the first completed line, scanning the lines in
    /// their fixed order; `None` when no line is complete.
    pub fn winner(&self) -> (r: Option<Player>)
        ensures
            r == match first_line_owner(self.board@, 0) {
                Option::None => Option::<Player>::None,
                Option::Some(p) => Option::Some(spec_player_by_piece(self.first, p)),
            },
    {
        let mut l: usize = 0;
        while l < 8
            invariant
                l <= 8,
                first_line_owner(self.board@, 0) == first_line_owner(self.board@, l as int),
            decreases 8 - l,
        {
            let (a, b, c) = line_cells(l);
            let pa = self.board.0[a];
            if !matches!(pa, Piece::Blank) && self.board.0[b] == pa && self.board.0[c] == pa {
                return Some(self.player_by_piece(pa));
            }
            l = l + 1;
        }
        None
    }

    /// The memoized backward-induction search. Returns `None` exactly on
    /// a full board; otherwise a blank cell and the outcome that placing
    /// `piece` there forces under optimal play, which is the best any
    /// cell can force. The board comes back unchanged; the cache only
    /// grows, stays sound, and every new entry describes a deeper
    /// position. With `TieBreak::First` the returned cell is the first
    /// best cell in row-major order.
    #[verifier::rlimit(100)]
    pub fn best_move(&mut self, piece: Piece) -> (res: Option<(Coord, Outcome)>)
        requires
            piece != Piece::Blank,
            cache_ok(old(self).cache@, odd_mover(old(self).board@, piece)),
        ensures
            final(self).board@ == old(self).board@,
            final(self).first == old(self).first,
            final(self).tie_break == old(self).tie_break,
            cache_ok(final(self).cache@, odd_mover(old(self).board@, piece)),
            old(self).cache@.submap_of(final(self).cache@),
            forall|key: u32|
                #[trigger] final(self).cache@.dom().contains(key) && !old(
                    self,
                ).cache@.dom().contains(key) ==> key_deeper_than(key, used_in(old(self).board@)),
            res is None <==> used_in(old(self).board@) == 9,
            res matches Some(r) ==> r.0.in_bounds() && old(self).board@[r.0.flat()]
                == Piece::Blank && r.1 == value(old(self).board@, piece) && move_outcome(
                old(self).board@,
                piece,
                r.0.flat(),
            ) == r.1,
            old(self).tie_break == TieBreak::First ==> (res matches Some(r) ==> r.0.flat()
                == first_best(old(self).board@, piece)),
        decreases 9 - used_in(self.board@),
    {
        let ghost s = self.board@;
        let ghost om = odd_mover(s, piece);
        let ghost cache0 = self.cache@;
        let mut best: Option<Outcome> = None;
        let mut cands: Vec<Coord> = Vec::new();
        let mut i: usize = 0;
        proof {
            lemma_used_in_bounds(s);
        }
        while i < 9
            invariant
                i <= 9,
                piece != Piece::Blank,
                s == old(self).board@,
                om == odd_mover(s, piece),
                cache0 == old(self).cache@,
                self.board@ == s,
                s.len() == 9,
                self.first == old(self).first,
                self.tie_break == old(self).tie_break,
                cache_ok(self.cache@, om),
                cache0.submap_of(self.cache@),
                forall|key: u32|
                    #[trigger] self.cache@.dom().contains(key) && !cache0.dom().contains(key)
                        ==> key_deeper_than(key, used_in(s)),
                best is None <==> (forall|j: int| 0 <= j < i ==> s[j] != Piece::Blank),
                best matches Some(b) ==> (exists|j: int|
                    0 <= j < i && s[j] == Piece::Blank && #[trigger] move_outcome(s, piece, j)
                        == b),
                best matches Some(b) ==> (forall|j: int|
                    0 <= j < i && s[j] == Piece::Blank ==> b.rank() <= (#[trigger] move_outcome(
                        s,
                        piece,
                        j,
                    )).rank()),
                forall|j: int|
                    0 <= j < i && s[j] == Piece::Blank ==> (#[trigger] move_outcome(s, piece, j))
                        != Outcome::Win,
                best matches Some(b) ==> cands@.len() > 0 && 0 <= cands@[0].flat() < i,
                best matches Some(b) ==> (forall|t: int|
                    0 <= t < cands@.len() ==> (#[trigger] cands@[t]).in_bounds()
                        && s[cands@[t].flat()] == Piece::Blank && move_outcome(
                        s,
                        piece,
                        cands@[t].flat(),
                    ) == b),
                best matches Some(b) ==> (forall|j: int|
                    0 <= j < cands@[0].flat() && s[j] == Piece::Blank ==> (#[trigger] move_outcome(
                        s,
                        piece,
                        j,
                    )).rank() > b.rank()),
                best is None ==> cands@.len() == 0,
            decreases 9 - i,
        {
            let coord = Coord(i / 3, i % 3);
            proof {
                assert(i as int == 3 * (i as int / 3) + i as int % 3) by {
                    vstd::arithmetic::div_mod::lemma_fundamental_div_mod(i as int, 3);
                }
                assert(coord.in_bounds());
                assert(coord.flat() == i);
            }
            if matches!(self.board.0[i], Piece::Blank) {
                self.board.0[i] = piece;
                let ghost t = self.board@;
                proof {
                    assert(t == s.update(i as int, piece));
                    lemma_used_in_update(s, i as int, piece);
                    lemma_used_in_bounds(t);
                }
                let cached = self.cache.check(self.board);
                let o: Outcome;
                match cached {
                    Some(pair) => {
                        o = pair.1;
                        proof {
                            lemma_cache_hit(self.cache@, s, piece, i as int);
                            assert(o == move_outcome(s, piece, i as int));
                        }
                    },
                    None => {
                        let ghost cache_pre = self.cache@;
                        if self.board.has_win(piece) {
                            o = Outcome::Win;
                            proof {
                                lemma_move_outcome_after(s, piece, i as int);
                                assert(o == move_outcome(s, piece, i as int));
                            }
                        } else {
                            proof {
                                lemma_odd_mover_step(s, piece, i as int);
                            }
                            let sub = self.best_move(piece.opposite());
                            match sub {
                                None => {
                                    o = Outcome::Tie;
                                },
                                Some(r2) => {
                                    o = r2.1.opposite();
                                },
                            }
                            proof {
                                lemma_move_outcome_after(s, piece, i as int);
                                assert(o == move_outcome(s, piece, i as int));
                            }
                        }
                        proof {
                            // the searches since the lookup only created
                            // entries for deeper positions, so this key is
                            // still absent and the insert only grows the map
                            if self.cache@.dom().contains(canon_key(t) as u32) {
                                if !cache_pre.dom().contains(canon_key(t) as u32) {
                                    lemma_canon_key_not_deeper(s, piece, i as int);
                                    assert(false);
                                } else {
                                    assert(false);
                                }
                            }
                        }
                        let ghost cache_mid = self.cache@;
                        self.cache.add(&self.board, (coord, o));
                        proof {
                            lemma_cache_extend(cache_mid, s, piece, i as int, coord, o);
                            assert(cache_pre.submap_of(cache_mid));
                            vstd::map_lib::lemma_submap_of_trans(cache0, cache_pre, cache_mid);
                            vstd::map_lib::lemma_submap_of_trans(cache0, cache_mid, self.cache@);
                            assert forall|key: u32|
                                #[trigger] self.cache@.dom().contains(key)
                                    && !cache0.dom().contains(key) implies key_deeper_than(
                                key,
                                used_in(s),
                            ) by {
                                if key != canon_key(t) as u32 {
                                    assert(cache_mid.dom().contains(key));
                                    if !cache_pre.dom().contains(key) {
                                        assert(key_deeper_than(key, used_in(t)));
                                        assert forall|sx: Seq<Piece>| #[trigger] board_for_key(
                                            key,
                                            sx,
                                        ) implies used_in(sx) > used_in(s) by {}
                                    }
                                }
                            }
                        }
                    },
                }
                self.board.0[i] = Piece::Blank;
                proof {
                    assert(self.board@ =~= s);
                }
                if o == Outcome::Win {
                    proof {
                        lemma_best_from_is_min(s, piece, 0);
                        assert(value(s, piece).rank() <= move_outcome(s, piece, i as int).rank());
                        assert(value(s, piece) == Outcome::Win);
                        lemma_first_best_found(s, piece, i as int);
                        lemma_used_in_full(s);
                    }
                    return Some((coord, Outcome::Win));
                }
                match best {
                    None => {
                        cands.push(coord);
                        best = Some(o);
                    },
                    Some(b) => {
                        let ro = rank_of(o);
                        let rb = rank_of(b);
                        if ro < rb {
                            cands = Vec::new();
                            cands.push(coord);
                            best = Some(o);
                        } else if ro == rb {
                            cands.push(coord);
                        }
                    },
                }
            }
            i = i + 1;
        }
        match best {
            None => {
                proof {
                    lemma_used_in_full(s);
                }
                None
            },
            Some(b) => {
                proof {
                    lemma_best_from_is_min(s, piece, 0);
                    assert(s[cands@[0].flat()] == Piece::Blank);
                    assert(exists|j: int| 0 <= j < 9 && s[j] == Piece::Blank);
                    let jw = choose|j: int|
                        0 <= j < 9 && s[j] == Piece::Blank && #[trigger] move_outcome(s, piece, j)
                            == best_from(s, piece, 0);
                    assert(b.rank() <= move_outcome(s, piece, jw).rank());
                    assert(value(s, piece).rank() <= move_outcome(
                        s,
                        piece,
                        cands@[0].flat(),
                    ).rank());
                    assert(b == value(s, piece));
                    lemma_used_in_full(s);
                    assert(used_in(s) != 9);
                    assert forall|j: int|
                        0 <= j < cands@[0].flat() && s[j] == Piece::Blank implies (
                        #[trigger] move_outcome(s, piece, j)) != value(s, piece) by {}
                    lemma_first_best_found(s, piece, cands@[0].flat());
                }
                let idx: usize = match self.tie_break {
                    TieBreak::First => 0,
                    TieBreak::Random => {
                        let mut rng = fresh_rng();
                        rng_below(&mut rng, cands.len())
                    },
                };
                let c = cands[idx];
                Some((c, b))
            },
        }
    }

    /// The cell the computer plays: a best move for the mark whose turn
    /// it is. `None` exactly when the board is full. The cache persists
    /// across calls.
    pub fn computer_move(&mut self) -> (r: Option<Coord>)
        requires
            cache_ok(old(self).cache@, Piece::Cross),
        ensures
            final(self).board@ == old(self).board@,
            final(self).first == old(self).first,
            final(self).tie_break == old(self).tie_break,
            cache_ok(final(self).cache@, Piece::Cross),
            old(self).cache@.submap_of(final(self).cache@),
            r is None <==> used_in(old(self).board@) == 9,
            r matches Some(c) ==> c.in_bounds() && old(self).board@[c.flat()] == Piece::Blank
                && move_outcome(old(self).board@, current_piece(old(self).board@), c.flat())
                == value(old(self).board@, current_piece(old(self).board@)),
            old(self).tie_break == TieBreak::First ==> (r matches Some(c) ==> c.flat()
                == first_best(old(self).board@, current_piece(old(self).board@))),
    {
        let (_, piece) = self.current_player();
        proof {
            assert(odd_mover(self.board@, piece) == Piece::Cross);
        }
        match self.best_move(piece) {
            None => None,
            Some(pair) => Some(pair.0),
        }
    }

    /// Plays one turn. On the computer's turn the engine picks the move
    /// and `human` is ignored; on the human's turn the supplied cell is
    /// played. Refused with `NoLegalMove` when the computer has no cell
    /// left or no human cell was supplied, and with the placement errors
    /// otherwise; a refused move leaves the board unchanged.
    pub fn play_board_move(&mut self, human: Option<Coord>) -> (r: Result<(), GameError>)
        requires
            cache_ok(old(self).cache@, Piece::Cross),
        ensures
            final(self).first == old(self).first,
            final(self).tie_break == old(self).tie_break,
            cache_ok(final(self).cache@, Piece::Cross),
            old(self).cache@.submap_of(final(self).cache@),
            r is Err ==> final(self).board@ == old(self).board@,
            ({
                let s = old(self).board@;
                let p = current_piece(s);
                if spec_current_player(*old(self)) == Player::Computer {
                    &&& (r is Ok <==> used_in(s) < 9)
                    &&& (r is Err ==> r == Err::<(), GameError>(GameError::NoLegalMove))
                    &&& (r is Ok ==> exists|c: Coord|
                        c.in_bounds() && s[c.flat()] == Piece::Blank && #[trigger] move_outcome(
                            s,
                            p,
                            c.flat(),
                        ) == value(s, p) && final(self).board@ == s.update(c.flat(), p))
                    &&& (r is Ok && old(self).tie_break == TieBreak::First ==> final(self).board@
                        == s.update(first_best(s, p), p))
                } else {
                    &&& (r is Ok <==> (human matches Some(c) && c.in_bounds() && s[c.flat()]
                        == Piece::Blank))
                    &&& (human matches Some(c) ==> (c.in_bounds() && s[c.flat()] == Piece::Blank
                        ==> final(self).board@ == s.update(c.flat(), p)))
                    &&& (human is None ==> r == Err::<(), GameError>(GameError::NoLegalMove))
                    &&& (human matches Some(c) ==> (!c.in_bounds() ==> r == Err::<(), GameError>(
                        GameError::OutOfBounds,
                    )))
                    &&& (human matches Some(c) ==> (c.in_bounds() && s[c.flat()] != Piece::Blank
                        ==> r == Err::<(), GameError>(GameError::CellOccupied)))
                }
            }),
    {
        let (player, piece) = self.current_player();
        let coord = match player {
            Player::Computer => {
                match self.computer_move() {
                    None => {
                        proof {
                            lemma_used_in_bounds(old(self).board@);
                        }
                        return Err(GameError::NoLegalMove);
                    },
                    Some(c) => c,
                }
            },
            Player::Human => {
                match human {
                    None => {
                        return Err(GameError::NoLegalMove);
                    },
                    Some(c) => c,
                }
            },
        };
        let placed = self.board.place(coord, piece);
        proof {
            let s = old(self).board@;
            let p = current_piece(s);
            lemma_used_in_bounds(s);
            if spec_current_player(*old(self)) == Player::Computer {
                assert(coord.in_bounds() && s[coord.flat()] == Piece::Blank);
                assert(move_outcome(s, p, coord.flat()) == value(s, p));
                assert(self.board@ == s.update(coord.flat(), p));
            }
        }
        match placed {
            Ok(()) => Ok(()),
            Err(e) => Err(e),
        }
    }
}

/// A game over a given position with the computer moving first, an empty
/// cache, and deterministic tie-breaking, as the scenarios exercise it.
pub fn make_game(board: Board) -> (g: Game)
    ensures
        g.board == board,
        g.first == Player::Computer,
        g.cache@ == Map::<u32, (Coord, Outcome)>::empty(),
        g.tie_break == TieBreak::First,
{
    Game { board, first: Player::Computer, cache: Cache::new(), tie_break: TieBreak::First }
}

} // verus!
