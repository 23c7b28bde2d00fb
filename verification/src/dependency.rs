//! For one ball, the number of further shifts each layer's gate needs
//! before the ball could fall through it, both by sliding the initial hole
//! under the ball and by sliding its gate completely open.

use vstd::prelude::*;

use crate::ball_bitmask::depth_of;
use crate::board::Board;
use crate::state::{shift_of, Compact};

verus! {

/// Which gate crosses `cell` in a layer of orientation `h`.
pub open(crate) spec fn spec_gate_id(h: bool, cell: int) -> int {
    if h {
        cell / 3
    } else {
        cell % 3
    }
}

/// How far `cell` sits from its gate's anchored end.
pub open(crate) spec fn spec_ball_depth(t: bool, h: bool, cell: int) -> int {
    let d = if h {
        cell % 3
    } else {
        cell / 3
    };
    if t {
        d
    } else {
        2 - d
    }
}

/// The shift distances that would drop `ball` through layer `l`: one entry
/// if that layer's initial hole can still reach the ball, one if sliding the
/// gate open can.
pub open(crate) spec fn dep_entries(board: Board, s: Compact, ball: int, l: int) -> Seq<u8> {
    if l < depth_of(s.spec_balls(), ball) {
        Seq::empty()
    } else {
        let h = board.horiz(l);
        let g = spec_gate_id(h, ball);
        let ty = board.gatetype(l, g);
        let sh = shift_of(s.spec_shifts(), l, g);
        let bd = spec_ball_depth(board.topleft(l, g), h, ball);
        let first = if ty != 3 && ty >= sh && bd <= ty - sh {
            seq![(ty - sh - bd) as u8]
        } else {
            Seq::empty()
        };
        let second = if ty != 2 && sh + bd <= 3 {
            seq![(3 - sh - bd) as u8]
        } else {
            Seq::empty()
        };
        first + second
    }
}

fn gate_id(horizontal: bool, cell: u8) -> (r: u8)
    requires
        cell < 9,
    ensures
        r as int == spec_gate_id(horizontal, cell as int),
{
    if horizontal {
        cell / 3
    } else {
        cell % 3
    }
}

fn ball_depth(topleft: bool, horizontal: bool, cell: u8) -> (r: u8)
    requires
        cell < 9,
    ensures
        r as int == spec_ball_depth(topleft, horizontal, cell as int),
{
    let topleft_distance = if horizontal {
        cell % 3
    } else {
        cell / 3
    };
    if topleft {
        topleft_distance
    } else {
        2 - topleft_distance
    }
}

/// For each layer at or below the ball's resting place, the shift counts
/// after which the layer would let the ball through.
pub fn dependency(board: &Board, state: &Compact, ball: u8) -> (r: [Vec<u8>; 4])
    requires
        board.wf(),
        state.inv(*board),
        ball < 9,
    ensures
        forall|l: int| 0 <= l < 4 ==> #[trigger] r[l]@ == dep_entries(*board, *state, ball as int, l),
{
    let depths = state.depth();
    let start = depths[ball as usize];
    let mut result: [Vec<u8>; 4] = [Vec::new(), Vec::new(), Vec::new(), Vec::new()];
    let mut layer_index: u8 = 0;
    while layer_index < 4
        invariant
            layer_index <= 4,
            board.wf(),
            state.inv(*board),
            ball < 9,
            start as int == depth_of(state.spec_balls(), ball as int),
            forall|l: int|
                0 <= l < layer_index ==> #[trigger] result[l]@ == dep_entries(
                    *board,
                    *state,
                    ball as int,
                    l,
                ),
            forall|l: int| layer_index <= l < 4 ==> (#[trigger] result[l]@).len() == 0,
        decreases 4 - layer_index,
    {
        if layer_index >= start {
            let layer = board.layer(layer_index);
            let gid = gate_id(layer.horizontal(), ball);
            let gp = layer.gate(gid);
            let s = state.get_shift(layer_index, gid);
            let bd = ball_depth(gp.topleft(), layer.horizontal(), ball);
            let gatetype = gp.gatetype();
            proof {
                crate::state::lemma_shift_of_bounds(
                    state.spec_shifts(),
                    layer_index as int,
                    gid as int,
                );
                assert(gid < 3);
                assert(board.gatetype(layer_index as int, gid as int) < 4);
                assert(gatetype < 4);
                assert(bd <= 2);
            }
            let mut out: Vec<u8> = Vec::new();
            if gatetype != 3 && gatetype >= s && bd <= gatetype - s {
                out.push(gatetype - s - bd);
            }
            if gatetype != 2 && s + bd <= 3 {
                out.push(3 - s - bd);
            }
            result[layer_index as usize] = out;
            proof {
                assert(result[layer_index as int]@ =~= dep_entries(
                    *board,
                    *state,
                    ball as int,
                    layer_index as int,
                ));
            }
        } else {
            proof {
                assert(result[layer_index as int]@ =~= dep_entries(
                    *board,
                    *state,
                    ball as int,
                    layer_index as int,
                ));
            }
        }
        layer_index += 1;
    }
    result
}

} // verus!
