//! The numeric row describing one solved position for the dataset export:
//! per-ball owner and depth, per-layer orientation, per-gate owner,
//! pattern, anchor and shift count, then the player to move and the
//! verdict code.

use vstd::prelude::*;

use crate::ball_bitmask::depth_of;
use crate::board::Board;
use crate::state::{shift_of, Compact};
use crate::Player;

verus! {

/// Numeric code of a cell's ball owner: gold 0, silver 1, none 2.
pub open(crate) spec fn owner_code(board: Board, c: int) -> int {
    match board.ball_owner(c) {
        Some(Player::Gold) => 0,
        Some(Player::Silver) => 1,
        None => 2,
    }
}

/// Numeric code of a player: gold 0, silver 1.
pub open(crate) spec fn player_code(p: Player) -> int {
    match p {
        Player::Gold => 0,
        Player::Silver => 1,
    }
}

/// The row: two entries per cell, then thirteen per layer, then the
/// player to move and the verdict code.
pub open(crate) spec fn row_spec(board: Board, s: Compact, current: Player, win: u8, i: int) -> int {
    if i < 18 {
        if i % 2 == 0 {
            owner_code(board, i / 2)
        } else {
            depth_of(s.spec_balls(), i / 2)
        }
    } else if i < 70 {
        let l = (i - 18) / 13;
        let o = (i - 18) % 13;
        if o == 0 {
            if board.horiz(l) {
                1
            } else {
                0
            }
        } else {
            let g = (o - 1) / 4;
            let f = (o - 1) % 4;
            if f == 0 {
                player_code(board.gate_owner(l, g))
            } else if f == 1 {
                board.gatetype(l, g)
            } else if f == 2 {
                if board.topleft(l, g) {
                    1
                } else {
                    0
                }
            } else {
                shift_of(s.spec_shifts(), l, g)
            }
        }
    } else if i == 70 {
        player_code(current)
    } else {
        win as int
    }
}

/// Assemble the 72 numbers describing a labelled position.
pub fn case_features(board: &Board, state: &Compact, current_player: Player, win: u8) -> (r: Vec<
    u8,
>)
    requires
        board.wf(),
        state.inv(*board),
    ensures
        r@.len() == 72,
        forall|i: int|
            0 <= i < 72 ==> #[trigger] r@[i] as int == row_spec(
                *board,
                *state,
                current_player,
                win,
                i,
            ),
{
    let mut result: Vec<u8> = Vec::new();
    let depths = state.depth();
    let mut c: u8 = 0;
    while c < 9
        invariant
            c <= 9,
            board.wf(),
            state.inv(*board),
            forall|k: int| 0 <= k < 9 ==> #[trigger] depths[k] as int == depth_of(state.spec_balls(), k),
            result@.len() == 2 * c,
            forall|i: int|
                0 <= i < 2 * c ==> #[trigger] result@[i] as int == row_spec(
                    *board,
                    *state,
                    current_player,
                    win,
                    i,
                ),
        decreases 9 - c,
    {
        let ball_owner: u8 = match board.ball(c) {
            Some(Player::Gold) => 0,
            Some(Player::Silver) => 1,
            None => 2,
        };
        result.push(ball_owner);
        result.push(depths[c as usize]);
        proof {
            assert(result@[2 * (c as int)] as int == row_spec(
                *board,
                *state,
                current_player,
                win,
                2 * (c as int),
            ));
        }
        c += 1;
    }

    let mut layer: u8 = 0;
    while layer < 4
        invariant
            layer <= 4,
            board.wf(),
            state.inv(*board),
            result@.len() == 18 + 13 * layer,
            forall|i: int|
                0 <= i < 18 + 13 * layer ==> #[trigger] result@[i] as int == row_spec(
                    *board,
                    *state,
                    current_player,
                    win,
                    i,
                ),
        decreases 4 - layer,
    {
        let lp = board.layer(layer);
        result.push(if lp.horizontal() {
            1
        } else {
            0
        });
        proof {
            let i = 18 + 13 * (layer as int);
            assert((i - 18) / 13 == layer as int && (i - 18) % 13 == 0) by {
                crate::bits::lemma_divmod(13, 0, layer as int);
            }
        }
        let mut gate: u8 = 0;
        while gate < 3
            invariant
                layer < 4,
                gate <= 3,
                board.wf(),
                state.inv(*board),
                result@.len() == 18 + 13 * layer + 1 + 4 * gate,
                forall|i: int|
                    0 <= i < 18 + 13 * layer + 1 + 4 * gate ==> #[trigger] result@[i] as int
                        == row_spec(*board, *state, current_player, win, i),
            decreases 3 - gate,
        {
            let gp = board.layer(layer).gate(gate);
            result.push(match gp.owner() {
                Player::Gold => 0,
                Player::Silver => 1,
            });
            result.push(gp.gatetype());
            result.push(if gp.topleft() {
                1
            } else {
                0
            });
            result.push(state.get_shift(layer, gate));
            proof {
                let base = 18 + 13 * (layer as int);
                assert forall|f: int| 0 <= f < 4 implies #[trigger] result@[base + 1 + 4 * (
                gate as int) + f] as int == row_spec(
                    *board,
                    *state,
                    current_player,
                    win,
                    base + 1 + 4 * (gate as int) + f,
                ) by {
                    let i = base + 1 + 4 * (gate as int) + f;
                    assert((i - 18) / 13 == layer as int && (i - 18) % 13 == 1 + 4 * (gate as int)
                        + f) by {
                        crate::bits::lemma_divmod(13, 1 + 4 * (gate as int) + f, layer as int);
                    }
                    let o = (i - 18) % 13;
                    assert((o - 1) / 4 == gate as int && (o - 1) % 4 == f) by {
                        crate::bits::lemma_divmod(4, f, gate as int);
                    }
                    assert(board.gatetype(layer as int, gate as int) < 4);
                }
            }
            gate += 1;
        }
        layer += 1;
    }

    result.push(match current_player {
        Player::Gold => 0,
        Player::Silver => 1,
    });
    result.push(win);
    result
}

} // verus!
