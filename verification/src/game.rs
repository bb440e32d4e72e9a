//! Game logic for Othello (Reversi).
//!
//! The board is a pair of 64-bit bitboards, one bit per square, with
//! `square = row * 8 + col`, bit 0 = A8 (top-left) and bit 63 = H1
//! (bottom-right). Coordinate labels use standard Othello notation with A1 at
//! the bottom-left (square 56) and H8 at the top-right (square 7).

use vstd::prelude::*;
use vstd::string::StringExecFns;

use crate::bits::{
    bit64, lemma_bit_and_not, lemma_bit_of_nonzero, lemma_bit_or, lemma_bit_single,
    lemma_bit_zero, lemma_nonzero_of_bit, lemma_pop_add_bit, lemma_pop_monotone,
    lemma_pop_set_exact, pop64, popcount,
};

verus! {

/// One of the two sides of the game.
#[derive(Clone, Copy, PartialEq, Eq, Structural, Debug)]
pub enum Player {
    Black,
    White,
}

/// A turn: either placing a disc on a square (0-63) or passing.
#[derive(Clone, Copy, PartialEq, Eq, Structural, Debug)]
pub enum Move {
    Place(u8),
    Pass,
}

/// The state of an Othello game: the two occupancy masks, the side to move,
/// and the number of consecutive passes.
#[derive(Clone, Copy, PartialEq, Eq, Structural, Debug)]
pub struct Game {
    pub black: u64,
    pub white: u64,
    pub current_player: Player,
    pub passes: u8,
}

impl Player {
    /// The other side.
    pub open spec fn spec_opponent(self) -> Player {
        match self {
            Player::Black => Player::White,
            Player::White => Player::Black,
        }
    }

    /// Returns the opponent of the current player.
    pub fn opponent(&self) -> (r: Player)
        ensures
            r == self.spec_opponent(),
    {
        match self {
            Player::Black => Player::White,
            Player::White => Player::Black,
        }
    }
}

/// True when `(r, c)` is a square of the 8x8 board.
pub open spec fn in_board(r: int, c: int) -> bool {
    0 <= r < 8 && 0 <= c < 8
}

/// The square index of `(r, c)`.
pub open spec fn sq(r: int, c: int) -> int {
    r * 8 + c
}

/// The row delta of compass direction `d` (0-7, in scan order).
pub open spec fn dir_dr(d: int) -> int {
    if d <= 2 {
        -1
    } else if d <= 4 {
        0
    } else {
        1
    }
}

/// The column delta of compass direction `d` (0-7, in scan order).
pub open spec fn dir_dc(d: int) -> int {
    if d == 0 || d == 3 || d == 5 {
        -1
    } else if d == 1 || d == 6 {
        0
    } else {
        1
    }
}

/// The row reached after `j` steps from `r0` along direction `d`.
pub open spec fn ray_r(r0: int, d: int, j: int) -> int
    decreases j,
{
    if j <= 0 {
        r0
    } else {
        ray_r(r0, d, j - 1) + dir_dr(d)
    }
}

/// The column reached after `j` steps from `c0` along direction `d`.
pub open spec fn ray_c(c0: int, d: int, j: int) -> int
    decreases j,
{
    if j <= 0 {
        c0
    } else {
        ray_c(c0, d, j - 1) + dir_dc(d)
    }
}

/// The square index reached after `j` steps from `(r0, c0)` along `d`.
pub open spec fn ray_sq(r0: int, c0: int, d: int, j: int) -> int {
    sq(ray_r(r0, d, j), ray_c(c0, d, j))
}

/// True when the `j`-th step from `(r0, c0)` along direction `d` lands on the
/// board, on a square whose bit is set in `bb`.
pub open spec fn ray_disc(bb: u64, r0: int, c0: int, d: int, j: int) -> bool {
    in_board(ray_r(r0, d, j), ray_c(c0, d, j)) && bit64(bb, ray_sq(r0, c0, d, j) as u64)
}

/// True when the ray from `(r0, c0)` along direction `d` runs through exactly
/// `n` consecutive opponent discs and then hits an own disc, all on the board.
pub open spec fn ray_ok(own: u64, opp: u64, r0: int, c0: int, d: int, n: int) -> bool {
    &&& n >= 1
    &&& forall|j: int| 1 <= j <= n ==> #[trigger] ray_disc(opp, r0, c0, d, j)
    &&& ray_disc(own, r0, c0, d, n + 1)
}

/// True when placing on `(r0, c0)` captures square `i` along direction `d`.
pub open spec fn captured_dir(own: u64, opp: u64, r0: int, c0: int, d: int, i: u64) -> bool {
    exists|n: int, k: int|
        #![trigger ray_ok(own, opp, r0, c0, d, n), ray_sq(r0, c0, d, k)]
        1 <= k <= n && ray_ok(own, opp, r0, c0, d, n) && i == ray_sq(r0, c0, d, k) as u64
}

/// True when placing on square `pos` captures square `i` in some direction.
pub open spec fn captured(own: u64, opp: u64, pos: u64, i: u64) -> bool {
    exists|d: int|
        0 <= d < 8 && #[trigger] captured_dir(own, opp, pos as int / 8, pos as int % 8, d, i)
}

/// The two masks claim no square twice.
pub open spec fn disjoint_masks(own: u64, opp: u64) -> bool {
    forall|i: u64| i < 64 ==> !(#[trigger] bit64(own, i) && bit64(opp, i))
}

/// True when `pos` is an empty square on which the side holding `own` may
/// legally place a disc against `opp`.
pub open spec fn valid_placement(own: u64, opp: u64, pos: u64) -> bool {
    &&& pos < 64
    &&& !bit64(own, pos)
    &&& !bit64(opp, pos)
    &&& exists|i: u64| i < 64 && #[trigger] captured(own, opp, pos, i)
}

/// How a successful placement at `pos` takes `pre` to `post`: the mover gains
/// the placed square and every captured square, the opponent loses exactly the
/// captured squares, the turn switches, and the pass counter resets.
pub open spec fn is_move_result(pre: Game, pos: u64, post: Game) -> bool {
    &&& post.current_player == pre.current_player.spec_opponent()
    &&& post.passes == 0
    &&& forall|i: u64|
        i < 64 ==> (#[trigger] bit64(post.side_own(pre.current_player), i) <==> (bit64(
            pre.own_bb(),
            i,
        ) || i == pos || captured(pre.own_bb(), pre.opp_bb(), pos, i)))
    &&& forall|i: u64|
        i < 64 ==> (#[trigger] bit64(post.side_opp(pre.current_player), i) <==> (bit64(
            pre.opp_bb(),
            i,
        ) && !captured(pre.own_bb(), pre.opp_bb(), pos, i)))
}

/// How a pass takes `pre` to `post`: the discs stay, the turn switches, and
/// the pass counter grows by one (saturating at its largest value, so that a
/// pass always succeeds).
pub open spec fn is_pass_result(pre: Game, post: Game) -> bool {
    &&& post.black == pre.black
    &&& post.white == pre.white
    &&& post.current_player == pre.current_player.spec_opponent()
    &&& post.passes as int == (if pre.passes < 255 {
        pre.passes + 1
    } else {
        255int
    })
}

/// A captured square always holds an opponent disc, sitting on a run from the
/// placed square that ends on a disc of the mover inside the board: the flip
/// set never includes a disc whose run is not bounded that way.
pub proof fn lemma_captured_is_opponent(own: u64, opp: u64, pos: u64, i: u64)
    requires
        i < 64,
        captured(own, opp, pos, i),
    ensures
        bit64(opp, i),
        exists|d: int, n: int, k: int|
            0 <= d < 8 && 1 <= k <= n && #[trigger] ray_ok(
                own,
                opp,
                pos as int / 8,
                pos as int % 8,
                d,
                n,
            ) && i == #[trigger] ray_sq(pos as int / 8, pos as int % 8, d, k) as u64,
{
    let r0 = pos as int / 8;
    let c0 = pos as int % 8;
    let d = choose|d: int| 0 <= d < 8 && #[trigger] captured_dir(own, opp, r0, c0, d, i);
    let (n, k) = choose|n: int, k: int|
        #![trigger ray_ok(own, opp, r0, c0, d, n), ray_sq(r0, c0, d, k)]
        1 <= k <= n && ray_ok(own, opp, r0, c0, d, n) && i == ray_sq(r0, c0, d, k) as u64;
    assert(ray_disc(opp, r0, c0, d, k));
    lemma_sq_range(ray_r(r0, d, k), ray_c(c0, d, k));
}

impl Game {
    /// The two occupancy masks never claim the same square.
    pub open spec fn wf(self) -> bool {
        forall|i: u64| i < 64 ==> !(#[trigger] bit64(self.black, i) && bit64(self.white, i))
    }

    /// The mask of the side to move.
    pub open spec fn own_bb(self) -> u64 {
        if self.current_player == Player::Black {
            self.black
        } else {
            self.white
        }
    }

    /// The mask of the side not to move.
    pub open spec fn opp_bb(self) -> u64 {
        if self.current_player == Player::Black {
            self.white
        } else {
            self.black
        }
    }

    /// True when the side to move may legally place on `pos`.
    pub open spec fn spec_valid_move(self, pos: u64) -> bool {
        valid_placement(self.own_bb(), self.opp_bb(), pos)
    }

    /// The mask of `player`'s discs.
    pub open spec fn side_own(self, player: Player) -> u64 {
        if player == Player::Black {
            self.black
        } else {
            self.white
        }
    }

    /// The mask of the discs of `player`'s opponent.
    pub open spec fn side_opp(self, player: Player) -> u64 {
        if player == Player::Black {
            self.white
        } else {
            self.black
        }
    }

    /// True when `player` would have a legal placement on this board.
    pub open spec fn spec_has_move(self, player: Player) -> bool {
        exists|pos: u64|
            pos < 64 && #[trigger] valid_placement(self.side_own(player), self.side_opp(player), pos)
    }

    /// True when neither side has a legal placement.
    pub open spec fn spec_game_over(self) -> bool {
        !self.spec_has_move(Player::Black) && !self.spec_has_move(Player::White)
    }

    /// Creates a new Othello game with the standard initial position.
    pub fn new() -> (r: Game)
        ensures
            r.wf(),
            r.black == (1u64 << 28) | (1u64 << 35),
            r.white == (1u64 << 27) | (1u64 << 36),
            r.current_player == Player::Black,
            r.passes == 0,
            pop64(r.black) == 2,
            pop64(r.white) == 2,
    {
        let black = (1u64 << 28) | (1u64 << 35);
        let white = (1u64 << 27) | (1u64 << 36);
        let r = Game { black, white, current_player: Player::Black, passes: 0 };
        proof {
            assert forall|i: u64| i < 64 implies !(#[trigger] bit64(r.black, i) && bit64(
                r.white,
                i,
            )) by {
                assert(!((((1u64 << 28) | (1u64 << 35)) & (1u64 << i) != 0) && (((1u64 << 27)
                    | (1u64 << 36)) & (1u64 << i) != 0))) by (bit_vector)
                    requires
                        i < 64,
                ;
            }
            lemma_pop_two_bits(28, 35);
            lemma_pop_two_bits(27, 36);
        }
        r
    }

    /// Returns the bitboard of all occupied squares.
    pub fn occupied(&self) -> (r: u64)
        ensures
            r == (self.black | self.white),
    {
        self.black | self.white
    }

    /// Returns the bitboard of all empty squares.
    pub fn empty(&self) -> (r: u64)
        ensures
            r == !(self.black | self.white),
    {
        !self.occupied()
    }

    /// Calculates the bitboard of discs that would be flipped by placing a
    /// disc at the given position: in each of the eight compass directions,
    /// the run of opponent discs is captured exactly when it ends on a disc
    /// of the current player.
    pub fn flips(&self, pos: u8) -> (r: u64)
        requires
            pos < 64,
            self.wf(),
        ensures
            forall|i: u64|
                #![trigger bit64(r, i)]
                #![trigger captured(self.own_bb(), self.opp_bb(), pos as u64, i)]
                i < 64 ==> (bit64(r, i) <==> captured(self.own_bb(), self.opp_bb(), pos as u64, i)),
    {
        let own = if self.current_player == Player::Black {
            self.black
        } else {
            self.white
        };
        let opp = if self.current_player == Player::Black {
            self.white
        } else {
            self.black
        };
        let r0 = (pos / 8) as i32;
        let c0 = (pos % 8) as i32;
        let mut flips: u64 = 0;
        let mut d: usize = 0;
        proof {
            assert forall|i: u64| i < 64 implies !bit64(0u64, i) by {
                lemma_bit_zero(i);
            }
        }
        while d < 8
            invariant
                0 <= r0 < 8,
                0 <= c0 < 8,
                r0 == pos as int / 8,
                c0 == pos as int % 8,
                own == self.own_bb(),
                opp == self.opp_bb(),
                disjoint_masks(own, opp),
                d <= 8,
                forall|i: u64|
                    i < 64 ==> (#[trigger] bit64(flips, i) <==> exists|dd: int|
                        0 <= dd < d && #[trigger] captured_dir(own, opp, r0 as int, c0 as int, dd, i)),
            decreases 8 - d,
        {
            let gain = ray_walk(own, opp, r0, c0, d);
            let old_flips = flips;
            flips = flips | gain;
            proof {
                assert forall|i: u64| i < 64 implies (#[trigger] bit64(flips, i) <==> exists|dd: int|
                    0 <= dd < d + 1 && #[trigger] captured_dir(own, opp, r0 as int, c0 as int, dd, i)) by {
                    lemma_bit_or(old_flips, gain, i);
                    if bit64(flips, i) {
                        if bit64(old_flips, i) {
                            let dd = choose|dd: int|
                                0 <= dd < d && #[trigger] captured_dir(own, opp, r0 as int, c0 as int, dd, i);
                            assert(captured_dir(own, opp, r0 as int, c0 as int, dd, i));
                        } else {
                            assert(captured_dir(own, opp, r0 as int, c0 as int, d as int, i));
                        }
                    } else {
                        if exists|dd: int|
                            0 <= dd < d + 1 && #[trigger] captured_dir(own, opp, r0 as int, c0 as int, dd, i) {
                            let dd = choose|dd: int|
                                0 <= dd < d + 1 && #[trigger] captured_dir(own, opp, r0 as int, c0 as int, dd, i);
                            if dd < d {
                                assert(bit64(old_flips, i));
                            } else {
                                assert(bit64(gain, i));
                            }
                            assert(false);
                        }
                    }
                }
            }
            d = d + 1;
        }
        proof {
            assert forall|i: u64| i < 64 implies (bit64(flips, i) <==> captured(
                self.own_bb(),
                self.opp_bb(),
                pos as u64,
                i,
            )) by {
                if bit64(flips, i) {
                    let dd = choose|dd: int|
                        0 <= dd < 8 && #[trigger] captured_dir(own, opp, r0 as int, c0 as int, dd, i);
                    assert(captured_dir(
                        self.own_bb(),
                        self.opp_bb(),
                        pos as int / 8,
                        pos as int % 8,
                        dd,
                        i,
                    ));
                }
                if captured(self.own_bb(), self.opp_bb(), pos as u64, i) {
                    let dd = choose|dd: int|
                        0 <= dd < 8 && #[trigger] captured_dir(
                            self.own_bb(),
                            self.opp_bb(),
                            pos as int / 8,
                            pos as int % 8,
                            dd,
                            i,
                        );
                    assert(captured_dir(own, opp, r0 as int, c0 as int, dd, i));
                    assert(bit64(flips, i));
                }
            }
        }
        flips
    }

    /// Checks if a move at the given position is valid for the current player.
    pub fn is_valid_move(&self, pos: u8) -> (r: bool)
        requires
            self.wf(),
        ensures
            r == self.spec_valid_move(pos as u64),
    {
        if pos >= 64 {
            return false;
        }
        if (self.occupied() & (1u64 << pos)) != 0 {
            proof {
                lemma_bit_or(self.black, self.white, pos as u64);
            }
            return false;
        }
        proof {
            lemma_bit_or(self.black, self.white, pos as u64);
        }
        let f = self.flips(pos);
        if f != 0 {
            proof {
                let i = lemma_bit_of_nonzero(f);
                assert(captured(self.own_bb(), self.opp_bb(), pos as u64, i));
            }
            true
        } else {
            proof {
                if self.spec_valid_move(pos as u64) {
                    let i = choose|i: u64|
                        i < 64 && #[trigger] captured(self.own_bb(), self.opp_bb(), pos as u64, i);
                    assert(bit64(f, i));
                    lemma_nonzero_of_bit(f, i);
                }
            }
            false
        }
    }

    /// Places a disc at the given position and flips the captured opponent
    /// discs. Returns an error naming the cause if the move is invalid, and
    /// leaves the board unchanged in that case.
    pub fn make_move(&mut self, pos: u8) -> (r: Result<(), String>)
        requires
            old(self).wf(),
        ensures
            final(self).wf(),
            r is Ok <==> old(self).spec_valid_move(pos as u64),
            !(r is Ok) ==> *final(self) == *old(self),
            pos >= 64 ==> (r matches Err(m) && m@ == "Position out of bounds"@),
            pos < 64 && (bit64(old(self).black, pos as u64) || bit64(old(self).white, pos as u64))
                ==> (r matches Err(m) && m@ == "Square is already occupied"@),
            pos < 64 && !bit64(old(self).black, pos as u64) && !bit64(old(self).white, pos as u64)
                && !old(self).spec_valid_move(pos as u64) ==> (r matches Err(m) && m@
                == "Move does not flip any discs"@),
            r is Ok ==> is_move_result(*old(self), pos as u64, *final(self)),
            // A legal move grows the mover's disc count and never grows the
            // opponent's.
            r is Ok ==> pop64(final(self).side_own(old(self).current_player)) >= pop64(
                old(self).own_bb(),
            ) + 1,
            r is Ok ==> pop64(final(self).side_opp(old(self).current_player)) <= pop64(
                old(self).opp_bb(),
            ),
            // The set of occupied squares grows by exactly the placed square.
            r is Ok ==> forall|i: u64|
                i < 64 ==> (#[trigger] bit64(final(self).black | final(self).white, i) <==> (bit64(
                    old(self).black | old(self).white,
                    i,
                ) || i == pos as u64)),
    {
        if pos >= 64 {
            return Err(stri("Position out of bounds"));
        }
        if (self.occupied() & (1u64 << pos)) != 0 {
            proof {
                lemma_bit_or(self.black, self.white, pos as u64);
            }
            return Err(stri("Square is already occupied"));
        }
        proof {
            lemma_bit_or(self.black, self.white, pos as u64);
        }
        let f = self.flips(pos);
        if f == 0 {
            proof {
                if self.spec_valid_move(pos as u64) {
                    let i = choose|i: u64|
                        i < 64 && #[trigger] captured(self.own_bb(), self.opp_bb(), pos as u64, i);
                    assert(bit64(f, i));
                    lemma_nonzero_of_bit(f, i);
                }
            }
            return Err(stri("Move does not flip any discs"));
        }
        let ghost pre = *self;
        let pos_bit = 1u64 << pos;
        if self.current_player == Player::Black {
            self.black = self.black | (pos_bit | f);
            self.white = self.white & !f;
        } else {
            self.white = self.white | (pos_bit | f);
            self.black = self.black & !f;
        }
        self.current_player = self.current_player.opponent();
        self.passes = 0;
        proof {
            let own = pre.own_bb();
            let opp = pre.opp_bb();
            let new_own = self.side_own(pre.current_player);
            let new_opp = self.side_opp(pre.current_player);
            assert(new_own == own | (pos_bit | f));
            assert(new_opp == opp & !f);
            assert forall|i: u64| i < 64 implies (#[trigger] bit64(new_own, i) <==> (bit64(own, i)
                || i == pos as u64 || captured(own, opp, pos as u64, i))) by {
                lemma_bit_or(own, pos_bit | f, i);
                lemma_bit_or(pos_bit, f, i);
                lemma_bit_single(pos as u64, i);
            }
            assert forall|i: u64| i < 64 implies (#[trigger] bit64(new_opp, i) <==> (bit64(opp, i)
                && !captured(own, opp, pos as u64, i))) by {
                lemma_bit_and_not(opp, f, i);
                if bit64(opp, i) && !bit64(f, i) {
                    assert(!captured(own, opp, pos as u64, i));
                }
                if bit64(opp, i) && !captured(own, opp, pos as u64, i) {
                    assert(!bit64(f, i));
                }
            }
            let i0 = lemma_bit_of_nonzero(f);
            assert(captured(own, opp, pos as u64, i0));
            assert(pre.spec_valid_move(pos as u64));
            // The new position is well formed: a square is never claimed twice.
            assert forall|i: u64| i < 64 implies !(#[trigger] bit64(self.black, i) && bit64(
                self.white,
                i,
            )) by {
                assert((self.black == new_own && self.white == new_opp) || (self.black == new_opp
                    && self.white == new_own));
                if bit64(new_own, i) && bit64(new_opp, i) {
                    if captured(own, opp, pos as u64, i) {
                        assert(false);
                    } else if i == pos as u64 {
                        assert(!bit64(opp, i));
                        assert(false);
                    } else {
                        assert(bit64(own, i) && bit64(opp, i));
                        assert(false);
                    }
                }
            }
            // Disc counts: the mover gains at least the placed disc, the
            // opponent only loses discs.
            assert forall|i: u64| i < 64 && (bit64(own, i) || i == pos as u64) implies bit64(
                new_own,
                i,
            ) by {}
            lemma_pop_add_bit(own, new_own, pos as u64, 64);
            assert forall|i: u64| i < 64 && bit64(new_opp, i) implies bit64(opp, i) by {}
            lemma_pop_monotone(new_opp, opp, 64);
            // Occupancy grows by exactly the placed square.
            assert forall|i: u64| i < 64 implies (#[trigger] bit64(self.black | self.white, i)
                <==> (bit64(pre.black | pre.white, i) || i == pos as u64)) by {
                lemma_bit_or(self.black, self.white, i);
                lemma_bit_or(pre.black, pre.white, i);
                assert(bit64(self.black, i) || bit64(self.white, i) <==> bit64(new_own, i)
                    || bit64(new_opp, i));
                assert(bit64(pre.black, i) || bit64(pre.white, i) <==> bit64(own, i) || bit64(
                    opp,
                    i,
                ));
                if captured(own, opp, pos as u64, i) {
                    lemma_captured_is_opponent(own, opp, pos as u64, i);
                }
            }
        }
        Ok(())
    }

    /// Passes the turn to the opponent and increments the pass counter, which
    /// saturates at its largest value so that a pass always succeeds.
    pub fn pass(&mut self)
        requires
            old(self).wf(),
        ensures
            final(self).wf(),
            is_pass_result(*old(self), *final(self)),
    {
        self.current_player = self.current_player.opponent();
        if self.passes < 255 {
            self.passes = self.passes + 1;
        }
    }

    /// Returns a list of all legal move positions for the current player, in
    /// ascending square order.
    pub fn legal_moves(&self) -> (r: Vec<u8>)
        requires
            self.wf(),
        ensures
            forall|j: int| 0 <= j < r@.len() ==> self.spec_valid_move(#[trigger] r@[j] as u64),
            forall|j1: int, j2: int| 0 <= j1 < j2 < r@.len() ==> r@[j1] < r@[j2],
            forall|p: u64| p < 64 && self.spec_valid_move(p) ==> r@.contains(p as u8),
    {
        let mut moves: Vec<u8> = Vec::new();
        let mut pos: u8 = 0;
        while pos < 64
            invariant
                self.wf(),
                pos <= 64,
                forall|j: int| 0 <= j < moves@.len() ==> self.spec_valid_move(#[trigger] moves@[j] as u64),
                forall|j: int| 0 <= j < moves@.len() ==> #[trigger] moves@[j] < pos,
                forall|j1: int, j2: int| 0 <= j1 < j2 < moves@.len() ==> moves@[j1] < moves@[j2],
                forall|p: u64| p < pos && self.spec_valid_move(p) ==> moves@.contains(p as u8),
            decreases 64 - pos,
        {
            let ghost pre_moves = moves@;
            if self.is_valid_move(pos) {
                moves.push(pos);
            }
            proof {
                assert forall|p: u64| p < pos + 1 && self.spec_valid_move(p) implies moves@.contains(
                    p as u8,
                ) by {
                    if p < pos {
                        let j = choose|j: int| 0 <= j < pre_moves.len() && pre_moves[j] == p as u8;
                        assert(moves@[j] == p as u8);
                    } else {
                        assert(moves@[moves@.len() - 1] == p as u8);
                    }
                }
            }
            pos = pos + 1;
        }
        moves
    }

    /// Checks if the given player has any legal moves.
    pub fn has_legal_move(&self, player: Player) -> (r: bool)
        requires
            self.wf(),
        ensures
            r == self.spec_has_move(player),
    {
        let temp_game = Game {
            black: self.black,
            white: self.white,
            current_player: player,
            passes: self.passes,
        };
        let moves = temp_game.legal_moves();
        let r = moves.len() > 0;
        proof {
            assert(temp_game.own_bb() == self.side_own(player));
            assert(temp_game.opp_bb() == self.side_opp(player));
            if moves@.len() > 0 {
                assert(temp_game.spec_valid_move(moves@[0] as u64));
            } else {
                if self.spec_has_move(player) {
                    let p = choose|p: u64|
                        p < 64 && #[trigger] valid_placement(
                            self.side_own(player),
                            self.side_opp(player),
                            p,
                        );
                    assert(temp_game.spec_valid_move(p));
                    assert(moves@.contains(p as u8));
                }
            }
        }
        r
    }

    /// Checks if the game is over: neither player has a legal move in the
    /// current position, regardless of the pass counter.
    pub fn is_game_over(&self) -> (r: bool)
        requires
            self.wf(),
        ensures
            r == self.spec_game_over(),
    {
        !self.has_legal_move(Player::Black) && !self.has_legal_move(Player::White)
    }

    /// Returns the winner of the game, or None if it's a tie or not over.
    pub fn winner(&self) -> (r: Option<Player>)
        requires
            self.wf(),
        ensures
            !self.spec_game_over() ==> r is None,
            self.spec_game_over() && pop64(self.black) > pop64(self.white) ==> r == Some(
                Player::Black,
            ),
            self.spec_game_over() && pop64(self.white) > pop64(self.black) ==> r == Some(
                Player::White,
            ),
            self.spec_game_over() && pop64(self.black) == pop64(self.white) ==> r is None,
    {
        if !self.is_game_over() {
            return None;
        }
        let black_count = popcount(self.black);
        let white_count = popcount(self.white);
        if black_count > white_count {
            Some(Player::Black)
        } else if white_count > black_count {
            Some(Player::White)
        } else {
            None
        }
    }

    /// Returns the count of black and white discs as (black, white).
    pub fn disc_count(&self) -> (r: (u32, u32))
        ensures
            r.0 == pop64(self.black),
            r.1 == pop64(self.white),
    {
        (popcount(self.black), popcount(self.white))
    }

    /// Converts a position (0-63) to a coordinate label, e.g. 56 -> "A1".
    /// Uses standard Othello notation where A1 is bottom-left, H8 top-right.
    pub fn pos_to_coord(pos: u8) -> (r: String)
        requires
            pos < 64,
        ensures
            r@ == spec_pos_to_coord(pos as int),
    {
        let letters = "ABCDEFGH";
        let digits = "87654321";
        proof {
            reveal_strlit("ABCDEFGH");
            reveal_strlit("87654321");
        }
        let col = (pos % 8) as usize;
        let row = (pos / 8) as usize;
        let col_s = letters.substring_char(col, col + 1);
        let row_s = digits.substring_char(row, row + 1);
        let out = String::from_str(col_s).concat(row_s);
        proof {
            assert(out@[0] == letters@[col as int]);
            assert(out@[1] == digits@[row as int]);
            assert(letters@[col as int] == col_letter(col as int));
            assert(digits@[row as int] == row_digit(row as int));
            assert(out@ =~= spec_pos_to_coord(pos as int));
        }
        out
    }

    /// Converts a coordinate label to a position (0-63), e.g. "A1" -> 56.
    /// Accepts lowercase letters and rejects any other label with an error
    /// naming the offending part.
    pub fn coord_to_pos(coord: &str) -> (r: Result<u8, String>)
        ensures
            r is Ok <==> (coord@.len() == 2 && col_index_of(coord@[0]) >= 0 && row_index_of(
                coord@[1],
            ) >= 0),
            r matches Ok(p) ==> p as int == row_index_of(coord@[1]) * 8 + col_index_of(coord@[0]),
            coord@.len() != 2 ==> (r matches Err(m) && m@
                == "Coordinate must be exactly 2 characters"@),
            coord@.len() == 2 && col_index_of(coord@[0]) < 0 ==> (r matches Err(m) && m@
                == "Column must be A-H"@),
            coord@.len() == 2 && col_index_of(coord@[0]) >= 0 && row_index_of(coord@[1]) < 0 ==> (
            r matches Err(m) && m@ == "Row must be 1-8"@),
    {
        if coord.unicode_len() != 2 {
            return Err(stri("Coordinate must be exactly 2 characters"));
        }
        let c0 = coord.get_char(0);
        let c1 = coord.get_char(1);
        let col: u8 = if c0 == 'A' || c0 == 'a' {
            0
        } else if c0 == 'B' || c0 == 'b' {
            1
        } else if c0 == 'C' || c0 == 'c' {
            2
        } else if c0 == 'D' || c0 == 'd' {
            3
        } else if c0 == 'E' || c0 == 'e' {
            4
        } else if c0 == 'F' || c0 == 'f' {
            5
        } else if c0 == 'G' || c0 == 'g' {
            6
        } else if c0 == 'H' || c0 == 'h' {
            7
        } else {
            return Err(stri("Column must be A-H"));
        };
        let row: u8 = if c1 == '1' {
            7
        } else if c1 == '2' {
            6
        } else if c1 == '3' {
            5
        } else if c1 == '4' {
            4
        } else if c1 == '5' {
            3
        } else if c1 == '6' {
            2
        } else if c1 == '7' {
            1
        } else if c1 == '8' {
            0
        } else {
            return Err(stri("Row must be 1-8"));
        };
        Ok(row * 8 + col)
    }
}

/// The column letter of column index `c`.
pub open spec fn col_letter(c: int) -> char {
    if c == 0 {
        'A'
    } else if c == 1 {
        'B'
    } else if c == 2 {
        'C'
    } else if c == 3 {
        'D'
    } else if c == 4 {
        'E'
    } else if c == 5 {
        'F'
    } else if c == 6 {
        'G'
    } else {
        'H'
    }
}

/// The row label digit of row index `r`: row 0 prints as '8', row 7 as '1'.
pub open spec fn row_digit(r: int) -> char {
    if r == 0 {
        '8'
    } else if r == 1 {
        '7'
    } else if r == 2 {
        '6'
    } else if r == 3 {
        '5'
    } else if r == 4 {
        '4'
    } else if r == 5 {
        '3'
    } else if r == 6 {
        '2'
    } else {
        '1'
    }
}

/// The two-character label of square `pos`.
pub open spec fn spec_pos_to_coord(pos: int) -> Seq<char> {
    seq![col_letter(pos % 8), row_digit(pos / 8)]
}

/// The column index named by a letter, in either case, or -1 for any other
/// character.
pub open spec fn col_index_of(ch: char) -> int {
    if ch == 'A' || ch == 'a' {
        0
    } else if ch == 'B' || ch == 'b' {
        1
    } else if ch == 'C' || ch == 'c' {
        2
    } else if ch == 'D' || ch == 'd' {
        3
    } else if ch == 'E' || ch == 'e' {
        4
    } else if ch == 'F' || ch == 'f' {
        5
    } else if ch == 'G' || ch == 'g' {
        6
    } else if ch == 'H' || ch == 'h' {
        7
    } else {
        -1
    }
}

/// The row index named by a digit label, or -1 for any other character:
/// label '1' is the bottom row (index 7), label '8' the top row (index 0).
pub open spec fn row_index_of(ch: char) -> int {
    if ch == '1' {
        7
    } else if ch == '2' {
        6
    } else if ch == '3' {
        5
    } else if ch == '4' {
        4
    } else if ch == '5' {
        3
    } else if ch == '6' {
        2
    } else if ch == '7' {
        1
    } else if ch == '8' {
        0
    } else {
        -1
    }
}

/// Encoding and decoding coordinate labels round-trips on every one of the
/// 64 squares: the label of `pos` parses back to exactly `pos`.
pub proof fn lemma_coord_round_trip(pos: u64)
    requires
        pos < 64,
    ensures
        spec_pos_to_coord(pos as int).len() == 2,
        col_index_of(spec_pos_to_coord(pos as int)[0]) == pos as int % 8,
        row_index_of(spec_pos_to_coord(pos as int)[1]) == pos as int / 8,
        row_index_of(spec_pos_to_coord(pos as int)[1]) * 8 + col_index_of(
            spec_pos_to_coord(pos as int)[0],
        ) == pos as int,
{
}

/// The character of one board cell: 'B' for a black disc, 'W' for a white
/// disc, '.' for an empty square.
pub open spec fn cell_char(g: Game, row: int, col: int) -> char {
    if bit64(g.black, sq(row, col) as u64) {
        'B'
    } else if bit64(g.white, sq(row, col) as u64) {
        'W'
    } else {
        '.'
    }
}

/// The text of row `row` from column `col` on: cells separated by blanks,
/// closed by a newline.
pub open spec fn cells_text(g: Game, row: int, col: int) -> Seq<char>
    decreases 8 - col,
{
    if col >= 8 {
        seq!['\n']
    } else {
        seq![cell_char(g, row, col), ' '] + cells_text(g, row, col + 1)
    }
}

/// The text of the rows of the board from `row` down: each opens with its
/// row label and a blank.
pub open spec fn rows_text(g: Game, row: int) -> Seq<char>
    decreases 8 - row,
{
    if row >= 8 {
        Seq::empty()
    } else {
        seq![row_digit(row), ' '] + cells_text(g, row, 0) + rows_text(g, row + 1)
    }
}

/// The whole board text: the column header line, then the eight rows.
pub open spec fn spec_render(g: Game) -> Seq<char> {
    "  A B C D E F G H\n"@ + rows_text(g, 0)
}

impl Game {
    /// Renders the board as text: a column header line, then one line per
    /// row with its label and the cells from left to right.
    pub fn render(&self) -> (r: String)
        ensures
            r@ == spec_render(*self),
    {
        let digits = "87654321";
        proof {
            reveal_strlit("87654321");
        }
        let mut out = String::from_str("  A B C D E F G H\n");
        let mut row: usize = 0;
        while row < 8
            invariant
                row <= 8,
                digits@ =~= seq!['8', '7', '6', '5', '4', '3', '2', '1'],
                out@ + rows_text(*self, row as int) == spec_render(*self),
            decreases 8 - row,
        {
            let ghost row_start = out@;
            let label = digits.substring_char(row, row + 1);
            out.append(label);
            out.append(" ");
            proof {
                assert(label@ =~= seq![row_digit(row as int)]);
                reveal_strlit(" ");
                assert(out@ =~= row_start + seq![row_digit(row as int), ' ']);
            }
            let mut col: usize = 0;
            while col < 8
                invariant
                    row < 8,
                    col <= 8,
                    row_start + rows_text(*self, row as int) == spec_render(*self),
                    out@ + cells_text(*self, row as int, col as int) + rows_text(
                        *self,
                        row as int + 1,
                    ) == spec_render(*self),
                decreases 8 - col,
            {
                let ghost col_start = out@;
                let s = (row * 8 + col) as u64;
                if (self.black & (1u64 << s)) != 0 {
                    out.append("B ");
                    proof {
                        reveal_strlit("B ");
                    }
                } else if (self.white & (1u64 << s)) != 0 {
                    out.append("W ");
                    proof {
                        reveal_strlit("W ");
                    }
                } else {
                    out.append(". ");
                    proof {
                        reveal_strlit(". ");
                    }
                }
                proof {
                    assert(out@ =~= col_start + seq![
                        cell_char(*self, row as int, col as int),
                        ' ',
                    ]);
                    assert(out@ + cells_text(*self, row as int, col as int + 1) + rows_text(
                        *self,
                        row as int + 1,
                    ) =~= col_start + cells_text(*self, row as int, col as int) + rows_text(
                        *self,
                        row as int + 1,
                    ));
                }
                col = col + 1;
            }
            out.append("\n");
            proof {
                reveal_strlit("\n");
                assert(cells_text(*self, row as int, 8) =~= seq!['\n']);
                assert(out@ + rows_text(*self, row as int + 1) =~= row_start + (seq![
                    row_digit(row as int),
                    ' ',
                ] + cells_text(*self, row as int, 0) + rows_text(*self, row as int + 1)));
                assert(seq![row_digit(row as int), ' '] + cells_text(*self, row as int, 0)
                    + rows_text(*self, row as int + 1) =~= rows_text(*self, row as int));
            }
            row = row + 1;
        }
        proof {
            assert(rows_text(*self, 8) =~= Seq::<char>::empty());
            assert(out@ =~= out@ + rows_text(*self, 8));
        }
        out
    }
}

/// The well-formedness of a board is exactly the mask form of its data
/// invariant: the two occupancy masks never intersect, so `black & white`
/// is zero on every reachable board.
pub proof fn lemma_wf_masks_disjoint(g: Game)
    ensures
        g.wf() <==> (g.black & g.white == 0),
{
    let b = g.black;
    let w = g.white;
    if b & w == 0 {
        assert forall|i: u64| i < 64 implies !(#[trigger] bit64(g.black, i) && bit64(
            g.white,
            i,
        )) by {
            assert(!((b & (1u64 << i) != 0) && (w & (1u64 << i) != 0))) by (bit_vector)
                requires
                    b & w == 0u64,
                    i < 64,
            ;
        }
    }
    if g.wf() && b & w != 0 {
        let i = lemma_bit_of_nonzero(b & w);
        assert((b & w) & (1u64 << i) != 0 ==> (b & (1u64 << i) != 0 && w & (1u64 << i) != 0))
            by (bit_vector);
        assert(bit64(g.black, i));
        assert(bit64(g.white, i));
        assert(false);
    }
}

/// A well-formed board holds at most 64 discs in total.
pub proof fn lemma_disc_count_bound(g: Game)
    requires
        g.wf(),
    ensures
        pop64(g.black) + pop64(g.white) <= 64,
{
    crate::bits::lemma_pop_disjoint_or(g.black, g.white, 64);
    crate::bits::lemma_pop_upto_le(g.black | g.white, 64);
}

/// The text of one board cell: "B" for a black disc, "W" for a white disc,
/// "." for an empty square.
pub open spec fn cell_label(g: Game, row: int, col: int) -> Seq<char> {
    if bit64(g.black, sq(row, col) as u64) {
        "B"@
    } else if bit64(g.white, sq(row, col) as u64) {
        "W"@
    } else {
        "."@
    }
}

/// Renders the board as eight rows of eight cell labels, top row first.
pub fn game_to_board(game: &Game) -> (r: Vec<Vec<String>>)
    ensures
        r@.len() == 8,
        forall|i: int| 0 <= i < 8 ==> #[trigger] r@[i]@.len() == 8,
        forall|i: int, j: int|
            0 <= i < 8 && 0 <= j < 8 ==> #[trigger] r@[i]@[j]@ == cell_label(*game, i, j),
{
    let mut board: Vec<Vec<String>> = Vec::new();
    let mut row: usize = 0;
    while row < 8
        invariant
            row <= 8,
            board@.len() == row,
            forall|i: int| 0 <= i < row ==> #[trigger] board@[i]@.len() == 8,
            forall|i: int, j: int|
                0 <= i < row && 0 <= j < 8 ==> #[trigger] board@[i]@[j]@ == cell_label(*game, i, j),
        decreases 8 - row,
    {
        let mut cells: Vec<String> = Vec::new();
        let mut col: usize = 0;
        while col < 8
            invariant
                row < 8,
                col <= 8,
                cells@.len() == col,
                forall|j: int|
                    0 <= j < col ==> #[trigger] cells@[j]@ == cell_label(*game, row as int, j),
            decreases 8 - col,
        {
            let s = (row * 8 + col) as u64;
            let cell = if (game.black & (1u64 << s)) != 0 {
                stri("B")
            } else if (game.white & (1u64 << s)) != 0 {
                stri("W")
            } else {
                stri(".")
            };
            cells.push(cell);
            col = col + 1;
        }
        board.push(cells);
        row = row + 1;
    }
    board
}

/// Builds an owned string from a literal.
fn stri(s: &str) -> (r: String)
    ensures
        r@ == s@,
{
    String::from_str(s)
}

/// The row and column deltas of compass direction `d`, in scan order.
fn dir_delta(d: usize) -> (r: (i32, i32))
    requires
        d < 8,
    ensures
        r.0 as int == dir_dr(d as int),
        r.1 as int == dir_dc(d as int),
{
    match d {
        0 => (-1, -1),
        1 => (-1, 0),
        2 => (-1, 1),
        3 => (0, -1),
        4 => (0, 1),
        5 => (1, -1),
        6 => (1, 0),
        _ => (1, 1),
    }
}

/// After `j` steps, each coordinate has moved `j` times its delta.
proof fn lemma_ray_span(r0: int, c0: int, d: int, j: int)
    requires
        j >= 0,
    ensures
        dir_dr(d) == 1 ==> ray_r(r0, d, j) == r0 + j,
        dir_dr(d) == -1 ==> ray_r(r0, d, j) == r0 - j,
        dir_dr(d) == 0 ==> ray_r(r0, d, j) == r0,
        dir_dc(d) == 1 ==> ray_c(c0, d, j) == c0 + j,
        dir_dc(d) == -1 ==> ray_c(c0, d, j) == c0 - j,
        dir_dc(d) == 0 ==> ray_c(c0, d, j) == c0,
    decreases j,
{
    if j > 0 {
        lemma_ray_span(r0, c0, d, j - 1);
    }
}

/// Walks one direction from `(r0, c0)` and returns the mask of the discs the
/// placement captures along it.
fn ray_walk(own: u64, opp: u64, r0: i32, c0: i32, d: usize) -> (gain: u64)
    requires
        d < 8,
        0 <= r0 < 8,
        0 <= c0 < 8,
        disjoint_masks(own, opp),
    ensures
        forall|i: u64|
            i < 64 ==> (#[trigger] bit64(gain, i) <==> captured_dir(
                own,
                opp,
                r0 as int,
                c0 as int,
                d as int,
                i,
            )),
{
    let (dr, dc) = dir_delta(d);
    let mut rr = r0 + dr;
    let mut cc = c0 + dc;
    let mut k: i32 = 1;
    let mut run: u64 = 0;
    proof {
        assert forall|i: u64| i < 64 implies !bit64(0u64, i) by {
            lemma_bit_zero(i);
        }
        assert(ray_r(r0 as int, d as int, 0) == r0 as int);
        assert(ray_c(c0 as int, d as int, 0) == c0 as int);
        assert(ray_r(r0 as int, d as int, 1) == r0 as int + dir_dr(d as int));
        assert(ray_c(c0 as int, d as int, 1) == c0 as int + dir_dc(d as int));
    }
    while 0 <= rr && rr < 8 && 0 <= cc && cc < 8
        invariant
            d < 8,
            0 <= r0 < 8,
            0 <= c0 < 8,
            disjoint_masks(own, opp),
            dr as int == dir_dr(d as int),
            dc as int == dir_dc(d as int),
            1 <= k <= 8,
            rr as int == ray_r(r0 as int, d as int, k as int),
            cc as int == ray_c(c0 as int, d as int, k as int),
            forall|j: int| 1 <= j < k ==> #[trigger] ray_disc(opp, r0 as int, c0 as int, d as int, j),
            forall|i: u64|
                i < 64 ==> (#[trigger] bit64(run, i) <==> exists|j: int|
                    1 <= j < k && i == #[trigger] ray_sq(r0 as int, c0 as int, d as int, j) as u64),
        decreases 8 - k,
    {
        let s_i = rr * 8 + cc;
        let s = s_i as u64;
        proof {
            assert(s as int == ray_sq(r0 as int, c0 as int, d as int, k as int));
        }
        if opp & (1u64 << s) != 0 {
            let old_run = run;
            run = run | (1u64 << s);
            proof {
                assert(ray_disc(opp, r0 as int, c0 as int, d as int, k as int));
                assert forall|i: u64| i < 64 implies (#[trigger] bit64(run, i) <==> (bit64(
                    old_run,
                    i,
                ) || i == s)) by {
                    lemma_bit_or(old_run, 1u64 << s, i);
                    lemma_bit_single(s, i);
                }
                // The step count stays within the board span, so it is at most 7 here.
                lemma_ray_span(r0 as int, c0 as int, d as int, k as int);
                assert(dir_dr(d as int) != 0 || dir_dc(d as int) != 0);
                assert(k <= 7);
                assert forall|i: u64| i < 64 implies (bit64(run, i) <==> exists|j: int|
                    1 <= j < k + 1 && i == #[trigger] ray_sq(r0 as int, c0 as int, d as int, j) as u64) by {
                    if bit64(run, i) {
                        if bit64(old_run, i) {
                            let j = choose|j: int|
                                1 <= j < k && i == #[trigger] ray_sq(r0 as int, c0 as int, d as int, j) as u64;
                            assert(1 <= j < k + 1 && i == ray_sq(r0 as int, c0 as int, d as int, j) as u64);
                        } else {
                            assert(1 <= k < k + 1 && i == ray_sq(r0 as int, c0 as int, d as int, k as int) as u64);
                        }
                    }
                }
            }
            proof {
                assert(ray_r(r0 as int, d as int, k as int + 1) == ray_r(
                    r0 as int,
                    d as int,
                    k as int,
                ) + dir_dr(d as int));
                assert(ray_c(c0 as int, d as int, k as int + 1) == ray_c(
                    c0 as int,
                    d as int,
                    k as int,
                ) + dir_dc(d as int));
            }
            rr = rr + dr;
            cc = cc + dc;
            k = k + 1;
        } else if own & (1u64 << s) != 0 {
            proof {
                lemma_run_is_captured(own, opp, r0 as int, c0 as int, d as int, k as int, run, s);
            }
            return run;
        } else {
            proof {
                lemma_no_capture_blocked(own, opp, r0 as int, c0 as int, d as int, k as int, s);
                assert forall|i: u64| i < 64 implies !bit64(0u64, i) by {
                    lemma_bit_zero(i);
                }
            }
            return 0u64;
        }
    }
    proof {
        lemma_no_capture_off_board(own, opp, r0 as int, c0 as int, d as int, k as int);
        assert forall|i: u64| i < 64 implies !bit64(0u64, i) by {
            lemma_bit_zero(i);
        }
    }
    0u64
}

/// When the walk finds an own disc at step `k` past opponent discs at steps
/// `1..k`, the captured squares along `d` are exactly those of the run mask.
proof fn lemma_run_is_captured(own: u64, opp: u64, r0: int, c0: int, d: int, k: int, run: u64, s: u64)
    requires
        disjoint_masks(own, opp),
        1 <= k,
        forall|j: int| 1 <= j < k ==> #[trigger] ray_disc(opp, r0, c0, d, j),
        forall|i: u64|
            i < 64 ==> (#[trigger] bit64(run, i) <==> exists|j: int|
                1 <= j < k && i == #[trigger] ray_sq(r0, c0, d, j) as u64),
        s as int == ray_sq(r0, c0, d, k),
        in_board(ray_r(r0, d, k), ray_c(c0, d, k)),
        bit64(own, s),
    ensures
        forall|i: u64|
            i < 64 ==> (#[trigger] bit64(run, i) <==> captured_dir(own, opp, r0, c0, d, i)),
{
    assert(ray_disc(own, r0, c0, d, k));
    assert forall|i: u64| i < 64 implies (#[trigger] bit64(run, i) <==> captured_dir(
        own,
        opp,
        r0,
        c0,
        d,
        i,
    )) by {
        if bit64(run, i) {
            let j = choose|j: int| 1 <= j < k && i == #[trigger] ray_sq(r0, c0, d, j) as u64;
            assert(ray_ok(own, opp, r0, c0, d, k - 1));
            assert(i == ray_sq(r0, c0, d, j) as u64);
            assert(captured_dir(own, opp, r0, c0, d, i));
        }
        if captured_dir(own, opp, r0, c0, d, i) {
            let (n, j) = choose|n: int, j: int|
                #![trigger ray_ok(own, opp, r0, c0, d, n), ray_sq(r0, c0, d, j)]
                1 <= j <= n && ray_ok(own, opp, r0, c0, d, n) && i == ray_sq(r0, c0, d, j) as u64;
            // The run of a successful ray ends exactly where the walk found
            // the own disc: the masks are disjoint, so a square cannot hold
            // both an opponent disc and an own disc.
            if n < k - 1 {
                assert(ray_disc(opp, r0, c0, d, n + 1));
                assert(ray_disc(own, r0, c0, d, n + 1));
                let t = ray_sq(r0, c0, d, n + 1) as u64;
                assert(in_board(ray_r(r0, d, n + 1), ray_c(c0, d, n + 1)));
                lemma_sq_range(ray_r(r0, d, n + 1), ray_c(c0, d, n + 1));
                assert(false);
            }
            if n > k - 1 {
                assert(ray_disc(opp, r0, c0, d, k));
                lemma_sq_range(ray_r(r0, d, k), ray_c(c0, d, k));
                assert(false);
            }
            assert(n == k - 1);
            assert(1 <= j < k && i == ray_sq(r0, c0, d, j) as u64);
            assert(bit64(run, i));
        }
    }
}

/// When the walk stops on a square holding neither side's disc at step `k`,
/// no square is captured along direction `d`.
proof fn lemma_no_capture_blocked(own: u64, opp: u64, r0: int, c0: int, d: int, k: int, s: u64)
    requires
        disjoint_masks(own, opp),
        1 <= k,
        forall|j: int| 1 <= j < k ==> #[trigger] ray_disc(opp, r0, c0, d, j),
        s as int == ray_sq(r0, c0, d, k),
        in_board(ray_r(r0, d, k), ray_c(c0, d, k)),
        !bit64(own, s),
        !bit64(opp, s),
    ensures
        forall|i: u64| i < 64 ==> !captured_dir(own, opp, r0, c0, d, i),
{
    assert forall|i: u64| i < 64 implies !captured_dir(own, opp, r0, c0, d, i) by {
        if captured_dir(own, opp, r0, c0, d, i) {
            let (n, j) = choose|n: int, j: int|
                #![trigger ray_ok(own, opp, r0, c0, d, n), ray_sq(r0, c0, d, j)]
                1 <= j <= n && ray_ok(own, opp, r0, c0, d, n) && i == ray_sq(r0, c0, d, j) as u64;
            if n + 1 < k {
                assert(ray_disc(opp, r0, c0, d, n + 1));
                assert(ray_disc(own, r0, c0, d, n + 1));
                lemma_sq_range(ray_r(r0, d, n + 1), ray_c(c0, d, n + 1));
                assert(false);
            }
            if n + 1 == k {
                assert(ray_disc(own, r0, c0, d, k));
                assert(false);
            }
            if n + 1 > k {
                assert(ray_disc(opp, r0, c0, d, k));
                assert(false);
            }
        }
    }
}

/// When the walk runs off the board at step `k`, no square is captured along
/// direction `d`.
proof fn lemma_no_capture_off_board(own: u64, opp: u64, r0: int, c0: int, d: int, k: int)
    requires
        disjoint_masks(own, opp),
        1 <= k,
        forall|j: int| 1 <= j < k ==> #[trigger] ray_disc(opp, r0, c0, d, j),
        !in_board(ray_r(r0, d, k), ray_c(c0, d, k)),
    ensures
        forall|i: u64| i < 64 ==> !captured_dir(own, opp, r0, c0, d, i),
{
    assert forall|i: u64| i < 64 implies !captured_dir(own, opp, r0, c0, d, i) by {
        if captured_dir(own, opp, r0, c0, d, i) {
            let (n, j) = choose|n: int, j: int|
                #![trigger ray_ok(own, opp, r0, c0, d, n), ray_sq(r0, c0, d, j)]
                1 <= j <= n && ray_ok(own, opp, r0, c0, d, n) && i == ray_sq(r0, c0, d, j) as u64;
            if n + 1 < k {
                assert(ray_disc(opp, r0, c0, d, n + 1));
                assert(ray_disc(own, r0, c0, d, n + 1));
                lemma_sq_range(ray_r(r0, d, n + 1), ray_c(c0, d, n + 1));
                assert(false);
            }
            if n + 1 == k {
                assert(ray_disc(own, r0, c0, d, k));
                assert(false);
            }
            if n + 1 > k {
                assert(ray_disc(opp, r0, c0, d, k));
                assert(false);
            }
        }
    }
}

/// A board square's index lies below 64.
proof fn lemma_sq_range(r: int, c: int)
    requires
        in_board(r, c),
    ensures
        0 <= sq(r, c) < 64,
{
}

/// A mask of two distinct bits has a population count of two.
proof fn lemma_pop_two_bits(s: u64, t: u64)
    requires
        s < 64,
        t < 64,
        s != t,
    ensures
        pop64((1u64 << s) | (1u64 << t)) == 2,
{
    let m = (1u64 << s) | (1u64 << t);
    assert forall|i: u64| i < 64 implies bit64(m, i) == (bit64(1u64 << s, i) || i == t) by {
        lemma_bit_or(1u64 << s, 1u64 << t, i);
        lemma_bit_single(t, i);
    }
    assert(!bit64(1u64 << s, t)) by {
        lemma_bit_single(s, t);
    }
    lemma_pop_set_exact(1u64 << s, m, t, 64);
    assert forall|i: u64| i < 64 implies bit64(1u64 << s, i) == (bit64(0u64, i) || i == s) by {
        lemma_bit_single(s, i);
        lemma_bit_zero(i);
    }
    assert(!bit64(0u64, s)) by {
        lemma_bit_zero(s);
    }
    lemma_pop_set_exact(0u64, 1u64 << s, s, 64);
    lemma_pop_zero(64);
}

/// The zero mask has population count zero below any position.
proof fn lemma_pop_zero(n: int)
    requires
        n <= 64,
    ensures
        crate::bits::pop_upto(0u64, n) == 0,
    decreases n,
{
    if n > 0 {
        lemma_pop_zero(n - 1);
        lemma_bit_zero((n - 1) as u64);
    }
}

} // verus!
