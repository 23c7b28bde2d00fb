//! Deciding who has won: a player is done once every one of their balls
//! has fallen out of the cube at layer 4.

use vstd::prelude::*;

use crate::ball_bitmask::{col_of, cols_ok, depth_of, layer_bit, lemma_col_single_facts};
use crate::bits::bit64;
use crate::board::Board;
use crate::state::Compact;
use crate::Player;

verus! {

/// Outcome of a position.
#[derive(Clone, Copy, PartialEq, Eq, Structural, Debug)]
pub enum Winner {
    Nobody,
    Both,
    One(Player),
}

/// Whether every ball of `p` has reached layer 4.
pub open(crate) spec fn player_done(board: Board, balls: u64, p: Player) -> bool {
    forall|c: int|
        0 <= c < 9 && board.ball_owner(c) == Some(p) ==> #[trigger] depth_of(balls, c) == 4
}

/// The winner of a position: nobody while both players still have balls in
/// the cube, the player whose balls are all out, or both at once.
pub open(crate) spec fn winner_of(board: Board, balls: u64) -> Winner {
    match (player_done(board, balls, Player::Gold), player_done(board, balls, Player::Silver)) {
        (false, false) => Winner::Nobody,
        (true, false) => Winner::One(Player::Gold),
        (false, true) => Winner::One(Player::Silver),
        (true, true) => Winner::Both,
    }
}

/// Precomputed per-player masks of the in-cube cells holding that player's
/// balls at any of the four layers.
pub struct WinningChecker {
    pub(crate) gold_ball_mask: u64,
    pub(crate) silver_ball_mask: u64,
    pub(crate) board: Ghost<Board>,
}

/// The mask covers, at each of the four layers, exactly the cells whose
/// ball belongs to `p`.
pub open(crate) spec fn mask_wf(board: Board, mask: u64, p: Player) -> bool {
    &&& mask >> 36 == 0
    &&& forall|l: int, c: int|
        0 <= l < 4 && 0 <= c < 9 ==> #[trigger] layer_bit(mask, l, c) == (board.ball_owner(c)
            == Some(p))
}

impl WinningChecker {
    /// The board this checker was built for.
    pub open(crate) spec fn spec_board(self) -> Board {
        self.board@
    }

    pub open(crate) spec fn wf(self) -> bool {
        &&& mask_wf(self.spec_board(), self.gold_ball_mask, Player::Gold)
        &&& mask_wf(self.spec_board(), self.silver_ball_mask, Player::Silver)
    }

    /// Build the two ownership masks from the board.
    pub fn new(board: &Board) -> (r: Self)
        ensures
            r.wf(),
            r.spec_board() == *board,
    {
        let mut gold_ball_mask: u64 = 0;
        let mut silver_ball_mask: u64 = 0;
        proof {
            assert forall|l2: int, c2: int| 0 <= l2 < 4 && 0 <= c2 < 9 implies !#[trigger] layer_bit(
                0u64,
                l2,
                c2,
            ) by {
                crate::bits::lemma_zero_word((9 * l2 + c2) as u64, 0);
            }
            crate::bits::lemma_zero_word(36, 0);
        }
        let mut l: u8 = 0;
        while l < 4
            invariant
                l <= 4,
                gold_ball_mask >> 36 == 0,
                silver_ball_mask >> 36 == 0,
                forall|l2: int, c2: int|
                    0 <= l2 < l && 0 <= c2 < 9 ==> #[trigger] layer_bit(gold_ball_mask, l2, c2) == (
                    board.ball_owner(c2) == Some(Player::Gold)),
                forall|l2: int, c2: int|
                    0 <= l2 < l && 0 <= c2 < 9 ==> #[trigger] layer_bit(silver_ball_mask, l2, c2)
                        == (board.ball_owner(c2) == Some(Player::Silver)),
                forall|l2: int, c2: int|
                    l <= l2 < 4 && 0 <= c2 < 9 ==> !#[trigger] layer_bit(gold_ball_mask, l2, c2),
                forall|l2: int, c2: int|
                    l <= l2 < 4 && 0 <= c2 < 9 ==> !#[trigger] layer_bit(silver_ball_mask, l2, c2),
            decreases 4 - l,
        {
            let mut c: u8 = 0;
            while c < 9
                invariant
                    l < 4,
                    c <= 9,
                    gold_ball_mask >> 36 == 0,
                    silver_ball_mask >> 36 == 0,
                    forall|l2: int, c2: int|
                        0 <= l2 < l && 0 <= c2 < 9 ==> #[trigger] layer_bit(gold_ball_mask, l2, c2)
                            == (board.ball_owner(c2) == Some(Player::Gold)),
                    forall|l2: int, c2: int|
                        0 <= l2 < l && 0 <= c2 < 9 ==> #[trigger] layer_bit(
                            silver_ball_mask,
                            l2,
                            c2,
                        ) == (board.ball_owner(c2) == Some(Player::Silver)),
                    forall|c2: int|
                        0 <= c2 < c ==> #[trigger] layer_bit(gold_ball_mask, l as int, c2) == (
                        board.ball_owner(c2) == Some(Player::Gold)),
                    forall|c2: int|
                        0 <= c2 < c ==> #[trigger] layer_bit(silver_ball_mask, l as int, c2) == (
                        board.ball_owner(c2) == Some(Player::Silver)),
                    forall|c2: int|
                        c <= c2 < 9 ==> !#[trigger] layer_bit(gold_ball_mask, l as int, c2),
                    forall|c2: int|
                        c <= c2 < 9 ==> !#[trigger] layer_bit(silver_ball_mask, l as int, c2),
                    forall|l2: int, c2: int|
                        l < l2 < 4 && 0 <= c2 < 9 ==> !#[trigger] layer_bit(gold_ball_mask, l2, c2),
                    forall|l2: int, c2: int|
                        l < l2 < 4 && 0 <= c2 < 9 ==> !#[trigger] layer_bit(
                            silver_ball_mask,
                            l2,
                            c2,
                        ),
                decreases 9 - c,
            {
                match board.ball(c) {
                    Some(Player::Gold) => {
                        let ghost before = gold_ball_mask;
                        gold_ball_mask = gold_ball_mask | (1u64 << (9 * l + c));
                        proof {
                            lemma_mask_set(before, gold_ball_mask, l as int, c as int);
                        }
                    },
                    Some(Player::Silver) => {
                        let ghost before = silver_ball_mask;
                        silver_ball_mask = silver_ball_mask | (1u64 << (9 * l + c));
                        proof {
                            lemma_mask_set(before, silver_ball_mask, l as int, c as int);
                        }
                    },
                    None => {},
                }
                c += 1;
            }
            l += 1;
        }
        Self { gold_ball_mask, silver_ball_mask, board: Ghost(*board) }
    }

    /// Decide the outcome: a player has won exactly when none of their
    /// balls remains at any layer of the cube, and both can finish on the
    /// same move.
    pub fn won(&self, state: &Compact) -> (r: Winner)
        requires
            self.wf(),
            state.inv(self.spec_board()),
        ensures
            r == winner_of(self.spec_board(), state.spec_balls()),
    {
        let gw = (state.get_ball_bits() & self.gold_ball_mask) == 0;
        let sw = (state.get_ball_bits() & self.silver_ball_mask) == 0;
        proof {
            lemma_mask_overlap(
                self.spec_board(),
                state.spec_balls(),
                self.gold_ball_mask,
                Player::Gold,
            );
            lemma_mask_overlap(
                self.spec_board(),
                state.spec_balls(),
                self.silver_ball_mask,
                Player::Silver,
            );
        }
        match (gw, sw) {
            (false, false) => Winner::Nobody,
            (true, false) => Winner::One(Player::Gold),
            (false, true) => Winner::One(Player::Silver),
            (true, true) => Winner::Both,
        }
    }
}

/// Setting the bit of one cell at one layer of an ownership mask.
proof fn lemma_mask_set(before: u64, after: u64, l: int, c: int)
    requires
        0 <= l < 4,
        0 <= c < 9,
        before >> 36 == 0,
        after == before | (1u64 << ((9 * l + c) as u64)),
    ensures
        after >> 36 == 0,
        forall|l2: int, c2: int|
            0 <= l2 < 4 && 0 <= c2 < 9 ==> #[trigger] layer_bit(after, l2, c2) == ((l2 == l && c2
                == c) || layer_bit(before, l2, c2)),
{
    assert forall|l2: int, c2: int| 0 <= l2 < 4 && 0 <= c2 < 9 implies #[trigger] layer_bit(
        after,
        l2,
        c2,
    ) == ((l2 == l && c2 == c) || layer_bit(before, l2, c2)) by {
        crate::bits::lemma_set_bit36(before, (9 * l + c) as u64, (9 * l2 + c2) as u64);
        assert((9 * l2 + c2 == 9 * l + c) == (l2 == l && c2 == c));
    }
    crate::bits::lemma_set_bit36(before, (9 * l + c) as u64, 0);
}

/// A player's balls and the player's ownership mask overlap exactly when
/// some ball of that player still sits inside the cube.
proof fn lemma_mask_overlap(board: Board, balls: u64, mask: u64, p: Player)
    requires
        cols_ok(balls),
        mask_wf(board, mask, p),
    ensures
        (balls & mask == 0) == player_done(board, balls, p),
{
    if balls & mask == 0 {
        assert forall|c: int| 0 <= c < 9 && board.ball_owner(c) == Some(p)
            implies #[trigger] depth_of(balls, c) == 4 by {
            let d = depth_of(balls, c);
            crate::ball_bitmask::lemma_depth_bounds(balls, c);
            if d < 4 {
                assert(layer_bit(balls, d, c)) by {
                    if col_of(balls, c) == 0 {
                        crate::ball_bitmask::lemma_col_empty_facts(balls, c);
                    } else {
                        let l = choose|l: int|
                            0 <= l <= 4 && col_of(balls, c) == #[trigger] (1u64 << ((9
                                * l) as u64));
                        lemma_col_single_facts(balls, c, l);
                    }
                }
                assert(layer_bit(mask, d, c));
                crate::bits::lemma_bit_ops(balls, mask, (9 * d + c) as u64);
                assert(bit64(balls & mask, (9 * d + c) as u64));
                crate::bits::lemma_zero_word((9 * d + c) as u64, 0);
            }
        }
    }
    if player_done(board, balls, p) {
        assert forall|c: int|
            0 <= c < 9 && #[trigger] depth_of(balls, c) <= 3 implies !(layer_bit(
            balls,
            depth_of(balls, c),
            c,
        ) && layer_bit(mask, depth_of(balls, c), c)) by {
            let d = depth_of(balls, c);
            crate::ball_bitmask::lemma_depth_bounds(balls, c);
            if board.ball_owner(c) == Some(p) {
                assert(depth_of(balls, c) == 4);
            } else {
                assert(!layer_bit(mask, d, c));
            }
        }
        crate::ball_bitmask::lemma_no_overlap(balls, mask);
    }
}

} // verus!
