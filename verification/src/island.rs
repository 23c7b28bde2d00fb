//! The island heuristic: for every gate, how many further shifts would
//! force an opposing ball through it — once as a guarantee that holds
//! under any play (`definite`), once as an optimistic bound that allows
//! favorable timing (`heuristic`). Both saturate at four, meaning never.

use vstd::prelude::*;

use crate::ball_bitmask::{col_of, depth_of, lemma_col_empty_facts, lemma_depth_bounds};
use crate::board::Board;
use crate::state::{shift_of, Compact};
use crate::Player;

verus! {

/// One gate found to admit an opposing ball, with its distance.
#[derive(Debug, Clone, Copy, PartialEq, Eq, Structural)]
pub struct Island {
    pub distance: u8,
    pub ball_id: u8,
    pub layer: u8,
    pub gate: u8,
}

/// The nearest island of each kind for each player's gates.
#[derive(Debug, Clone, Copy, PartialEq, Eq, Structural)]
pub struct IslandMeasure {
    pub silver_definite: Option<Island>,
    pub silver_heuristic: Option<Island>,
    pub gold_definite: Option<Island>,
    pub gold_heuristic: Option<Island>,
}

/// The cell crossed by slot `k` of gate `g` in layer `l`.
pub open(crate) spec fn slot_cell(board: Board, l: int, g: int, k: int) -> int {
    if board.horiz(l) {
        if board.topleft(l, g) {
            3 * g + k
        } else {
            3 * g + (2 - k)
        }
    } else {
        if board.topleft(l, g) {
            g + 3 * k
        } else {
            g + 3 * (2 - k)
        }
    }
}

/// A slot's ball is relevant while it has not fallen past its gate's
/// layer.
pub open(crate) spec fn slot_relevant(board: Board, s: Compact, l: int, g: int, k: int) -> bool {
    depth_of(s.spec_balls(), slot_cell(board, l, g, k)) <= l
}

/// Whether the relevant ball of a slot belongs to its gate's owner.
pub open(crate) spec fn slot_owned(board: Board, s: Compact, l: int, g: int, k: int) -> bool {
    board.ball_owner(slot_cell(board, l, g, k)) == Some(board.gate_owner(l, g))
}

/// Whether the relevant ball of a slot rests exactly on its gate's layer.
pub open(crate) spec fn slot_on_gate(board: Board, s: Compact, l: int, g: int, k: int) -> bool {
    depth_of(s.spec_balls(), slot_cell(board, l, g, k)) == l
}

/// Take the closer find, preferring the earlier one on ties.
pub open(crate) spec fn upd(a: (int, int), d: int, ball: int) -> (int, int) {
    if a.0 > d {
        (d, ball)
    } else {
        a
    }
}

/// The heuristic never asks about a middle ball of a gate shifted twice,
/// nor a first ball on a fully shifted gate: such balls would already have
/// fallen through or are pinned by cases the rules leave undefined.
pub open(crate) spec fn islands_defined(board: Board, s: Compact) -> bool {
    forall|l: int, g: int|
        0 <= l < 4 && 0 <= g < 3 ==> {
            &&& (slot_relevant(board, s, l, g, 1) && !slot_owned(board, s, l, g, 1)
                ==> #[trigger] shift_of(s.spec_shifts(), l, g) <= 1)
            &&& (slot_relevant(board, s, l, g, 0) && !slot_owned(board, s, l, g, 0) ==> shift_of(
                s.spec_shifts(),
                l,
                g,
            ) <= 2)
        }
}

/// The decision table for one gate: the `(distance, ball)` pair of the
/// definite and of the heuristic island, `(4, 9)` standing for none.
pub open(crate) spec fn gate_island_spec(board: Board, s: Compact, l: int, g: int) -> (
    (int, int),
    (int, int),
) {
    let ty = board.gatetype(l, g);
    let sh = shift_of(s.spec_shifts(), l, g);
    let start = ((4int, 9int), (4int, 9int));
    let after2 = if slot_relevant(board, s, l, g, 2) && !slot_owned(board, s, l, g, 2) && {
        let first_fine = !slot_relevant(board, s, l, g, 0) || !slot_owned(board, s, l, g, 0) || ty
            == 0;
        let second_fine = !slot_relevant(board, s, l, g, 1) || !slot_owned(board, s, l, g, 1) || ty
            == 1;
        ty != 2 && sh == 0 && first_fine && second_fine
    } {
        (
            upd(start.0, 3, slot_cell(board, l, g, 2)),
            upd(start.1, 3, slot_cell(board, l, g, 2)),
        )
    } else {
        start
    };
    let after1 = if slot_relevant(board, s, l, g, 1) && !slot_owned(board, s, l, g, 1) {
        let ball = slot_cell(board, l, g, 1);
        let first_fine0 = !slot_relevant(board, s, l, g, 0) || !slot_owned(board, s, l, g, 0);
        if sh == 0 {
            if ty == 0 {
                if first_fine0 {
                    (upd(after2.0, 2, ball), upd(after2.1, 2, ball))
                } else {
                    (after2.0, upd(after2.1, 2, ball))
                }
            } else if ty == 1 {
                (after2.0, upd(after2.1, 2, ball))
            } else if first_fine0 {
                (upd(after2.0, 2, ball), upd(after2.1, 2, ball))
            } else {
                after2
            }
        } else {
            // one shift: defined only for shift 1
            let first_fine1 = !slot_relevant(board, s, l, g, 0) || !slot_owned(board, s, l, g, 0)
                || ty == 1;
            if ty != 2 && first_fine1 {
                (upd(after2.0, 2, ball), upd(after2.1, 2, ball))
            } else {
                after2
            }
        }
    } else {
        after2
    };
    if slot_relevant(board, s, l, g, 0) && !slot_owned(board, s, l, g, 0) {
        let ball = slot_cell(board, l, g, 0);
        if sh == 0 {
            if ty == 0 {
                (after1.0, upd(after1.1, 1, ball))
            } else if ty == 1 {
                if slot_on_gate(board, s, l, g, 0) {
                    if !slot_relevant(board, s, l, g, 2) || !slot_owned(board, s, l, g, 2) {
                        (upd(after1.0, 3, ball), upd(after1.1, 3, ball))
                    } else {
                        after1
                    }
                } else {
                    (after1.0, upd(after1.1, 1, ball))
                }
            } else if ty == 2 {
                (upd(after1.0, 2, ball), upd(after1.1, 2, ball))
            } else {
                (upd(after1.0, 1, ball), upd(after1.1, 1, ball))
            }
        } else if sh == 1 {
            if ty == 0 || ty == 3 {
                (upd(after1.0, 1, ball), upd(after1.1, 1, ball))
            } else if ty == 1 {
                (after1.0, upd(after1.1, 1, ball))
            } else {
                (upd(after1.0, 2, ball), upd(after1.1, 2, ball))
            }
        } else {
            // two shifts
            if ty != 2 {
                (upd(after1.0, 1, ball), upd(after1.1, 1, ball))
            } else {
                after1
            }
        }
    } else {
        after1
    }
}

/// Keep the closer island, preferring the one found first on ties.
pub open(crate) spec fn option_min(a: Option<Island>, b: Option<Island>) -> Option<Island> {
    match (a, b) {
        (Some(x), Some(y)) => if x.distance > y.distance {
            Some(y)
        } else {
            Some(x)
        },
        (Some(x), None) => Some(x),
        (None, y) => y,
    }
}

/// The island found for gate `n - 1`, as an `Option<Island>` pair.
pub open(crate) spec fn gate_island_opts(board: Board, s: Compact, l: int, g: int) -> (
    Option<Island>,
    Option<Island>,
) {
    let (d, h) = gate_island_spec(board, s, l, g);
    (
        if d.0 >= 4 {
            None
        } else {
            Some(
                Island {
                    distance: d.0 as u8,
                    ball_id: d.1 as u8,
                    layer: l as u8,
                    gate: g as u8,
                },
            )
        },
        if h.0 >= 4 {
            None
        } else {
            Some(
                Island {
                    distance: h.0 as u8,
                    ball_id: h.1 as u8,
                    layer: l as u8,
                    gate: g as u8,
                },
            )
        },
    )
}

/// The four folds over the first `n` gates in layer-major order.
pub open(crate) spec fn measure_spec(board: Board, s: Compact, n: int) -> IslandMeasure
    decreases n,
{
    if n <= 0 {
        IslandMeasure {
            silver_definite: None,
            silver_heuristic: None,
            gold_definite: None,
            gold_heuristic: None,
        }
    } else {
        let prev = measure_spec(board, s, n - 1);
        let l = (n - 1) / 3;
        let g = (n - 1) % 3;
        let (d, h) = gate_island_opts(board, s, l, g);
        if board.silver(l, g) {
            IslandMeasure {
                silver_definite: option_min(prev.silver_definite, d),
                silver_heuristic: option_min(prev.silver_heuristic, h),
                gold_definite: prev.gold_definite,
                gold_heuristic: prev.gold_heuristic,
            }
        } else {
            IslandMeasure {
                silver_definite: prev.silver_definite,
                silver_heuristic: prev.silver_heuristic,
                gold_definite: option_min(prev.gold_definite, d),
                gold_heuristic: option_min(prev.gold_heuristic, h),
            }
        }
    }
}

/// The three cells crossing a gate, keeping only balls that have not
/// yet fallen below it.
fn relevant_balls(board: &Board, state: &Compact, layer: u8, gate: u8) -> (r: [Option<u8>; 3])
    requires
        layer < 4,
        gate < 3,
        state.inv(*board),
    ensures
        forall|k: int|
            0 <= k < 3 ==> r[k] == (if slot_relevant(*board, *state, layer as int, gate as int, k) {
                Some(slot_cell(*board, layer as int, gate as int, k) as u8)
            } else {
                None
            }),
{
    let h = board.layer(layer).horizontal();
    let t = board.layer(layer).gate(gate).topleft();
    let c0: u8 = if h {
        3 * gate
    } else {
        gate
    };
    let step: u8 = if h {
        1
    } else {
        3
    };
    let cells: [u8; 3] = if t {
        [c0, c0 + step, c0 + 2 * step]
    } else {
        [c0 + 2 * step, c0 + step, c0]
    };
    let depths = state.depth();
    let mut r: [Option<u8>; 3] = [None, None, None];
    let mut k: usize = 0;
    while k < 3
        invariant
            k <= 3,
            state.inv(*board),
            forall|k2: int|
                0 <= k2 < 3 ==> cells[k2] == slot_cell(
                    *board,
                    layer as int,
                    gate as int,
                    k2,
                ) && cells[k2] < 9,
            forall|k2: int|
                0 <= k2 < 9 ==> #[trigger] depths[k2] as int == depth_of(state.spec_balls(), k2),
            forall|k2: int|
                0 <= k2 < k ==> r[k2] == (if slot_relevant(
                    *board,
                    *state,
                    layer as int,
                    gate as int,
                    k2,
                ) {
                    Some(slot_cell(*board, layer as int, gate as int, k2) as u8)
                } else {
                    None
                }),
        decreases 3 - k,
    {
        let cell = cells[k];
        if depths[cell as usize] > layer {
            r[k] = None;
        } else {
            r[k] = Some(cell);
        }
        k += 1;
    }
    r
}

/// A relevant slot's cell always holds a ball.
proof fn lemma_relevant_has_ball(board: Board, s: Compact, l: int, g: int, k: int)
    requires
        s.inv(board),
        0 <= l < 4,
        0 <= g < 3,
        0 <= k < 3,
        slot_relevant(board, s, l, g, k),
    ensures
        board.ball_owner(slot_cell(board, l, g, k)) is Some,
{
    let c = slot_cell(board, l, g, k);
    lemma_depth_bounds(s.spec_balls(), c);
    if col_of(s.spec_balls(), c) == 0 {
        lemma_col_empty_facts(s.spec_balls(), c);
    }
    assert(board.has_ball(c));
}

/// Measure one gate: the definite and heuristic distances of its island,
/// with the opposing ball that realizes each, if any.
#[verifier::rlimit(100)]
fn measure_gate_island(board: &Board, state: &Compact, layer: u8, gate: u8) -> (r: (
    Option<(u8, u8)>,
    Option<(u8, u8)>,
))
    requires
        layer < 4,
        gate < 3,
        state.inv(*board),
        islands_defined(*board, *state),
    ensures
        ({
            let (d, h) = gate_island_spec(*board, *state, layer as int, gate as int);
            &&& r.0 == (if d.0 >= 4 {
                None::<(u8, u8)>
            } else {
                Some((d.0 as u8, d.1 as u8))
            })
            &&& r.1 == (if h.0 >= 4 {
                None::<(u8, u8)>
            } else {
                Some((h.0 as u8, h.1 as u8))
            })
        }),
{
    let ghost li = layer as int;
    let ghost gi = gate as int;
    let balls = relevant_balls(board, state, layer, gate);
    let owner = board.layer(layer).gate(gate).owner();
    let ty = board.layer(layer).gate(gate).gatetype();
    let sh = state.get_shift(layer, gate);
    let mut owned = [false, false, false];
    let mut k: usize = 0;
    while k < 3
        invariant
            k <= 3,
            state.inv(*board),
            layer < 4,
            gate < 3,
            owner == board.gate_owner(layer as int, gate as int),
            forall|k2: int|
                0 <= k2 < 3 ==> balls[k2] == (if slot_relevant(
                    *board,
                    *state,
                    layer as int,
                    gate as int,
                    k2,
                ) {
                    Some(slot_cell(*board, layer as int, gate as int, k2) as u8)
                } else {
                    None
                }),
            forall|k2: int|
                0 <= k2 < k && slot_relevant(*board, *state, layer as int, gate as int, k2)
                    ==> #[trigger] owned[k2] == slot_owned(
                    *board,
                    *state,
                    layer as int,
                    gate as int,
                    k2,
                ),
        decreases 3 - k,
    {
        if let Some(cell) = balls[k] {
            proof {
                lemma_relevant_has_ball(*board, *state, layer as int, gate as int, k as int);
            }
            owned[k] = matches!(board.ball(cell), Some(p) if p == owner);
        }
        k += 1;
    }
    let depths = state.depth();
    let on_gate_first = match balls[0] {
        Some(cell) => depths[cell as usize] == layer,
        None => false,
    };
    proof {
        assert(slot_relevant(*board, *state, li, gi, 0) ==> on_gate_first == slot_on_gate(
            *board,
            *state,
            li,
            gi,
            0,
        ));
    }

    let mut definite: (u8, u8) = (4, 9);
    let mut heuristic: (u8, u8) = (4, 9);

    if balls[2].is_some() && !owned[2] {
        let first_ball_fine = balls[0].is_none() || !owned[0] || ty == 0;
        let second_ball_fine = balls[1].is_none() || !owned[1] || ty == 1;
        let no_hole_last = ty != 2;
        let not_shifted = sh == 0;
        if no_hole_last && not_shifted && first_ball_fine && second_ball_fine {
            let b = balls[2].unwrap();
            definite = (3, b);
            heuristic = (3, b);
        }
    }

    if balls[1].is_some() && !owned[1] {
        let b = balls[1].unwrap();
        if sh == 0 {
            if ty == 0 {
                let first_ball_fine = balls[0].is_none() || !owned[0];
                if first_ball_fine {
                    if definite.0 > 2 {
                        definite = (2, b);
                    }
                    if heuristic.0 > 2 {
                        heuristic = (2, b);
                    }
                } else {
                    if heuristic.0 > 2 {
                        heuristic = (2, b);
                    }
                }
            } else if ty == 1 {
                if heuristic.0 > 2 {
                    heuristic = (2, b);
                }
            } else {
                let first_ball_fine = balls[0].is_none() || !owned[0];
                if first_ball_fine {
                    if definite.0 > 2 {
                        definite = (2, b);
                    }
                    if heuristic.0 > 2 {
                        heuristic = (2, b);
                    }
                }
            }
        } else {
            proof {
                assert(sh == 1);
            }
            let no_hole = ty != 2;
            let first_ball_fine = balls[0].is_none() || !owned[0] || ty == 1;
            if no_hole && first_ball_fine {
                if definite.0 > 2 {
                    definite = (2, b);
                }
                if heuristic.0 > 2 {
                    heuristic = (2, b);
                }
            }
        }
    }

    if balls[0].is_some() && !owned[0] {
        let b = balls[0].unwrap();
        if sh == 0 {
            if ty == 0 {
                if heuristic.0 > 1 {
                    heuristic = (1, b);
                }
            } else if ty == 1 {
                let third_ball_fine = balls[2].is_none() || !owned[2];
                if on_gate_first {
                    if third_ball_fine {
                        if definite.0 > 3 {
                            definite = (3, b);
                        }
                        if heuristic.0 > 3 {
                            heuristic = (3, b);
                        }
                    }
                } else {
                    if heuristic.0 > 1 {
                        heuristic = (1, b);
                    }
                }
            } else if ty == 2 {
                if definite.0 > 2 {
                    definite = (2, b);
                }
                if heuristic.0 > 2 {
                    heuristic = (2, b);
                }
            } else {
                if definite.0 > 1 {
                    definite = (1, b);
                }
                if heuristic.0 > 1 {
                    heuristic = (1, b);
                }
            }
        } else if sh == 1 {
            if ty == 0 || ty == 3 {
                if definite.0 > 1 {
                    definite = (1, b);
                }
                if heuristic.0 > 1 {
                    heuristic = (1, b);
                }
            } else if ty == 1 {
                if heuristic.0 > 1 {
                    heuristic = (1, b);
                }
            } else {
                if definite.0 > 2 {
                    definite = (2, b);
                }
                if heuristic.0 > 2 {
                    heuristic = (2, b);
                }
            }
        } else {
            proof {
                assert(sh == 2);
            }
            if ty != 2 {
                if definite.0 > 1 {
                    definite = (1, b);
                }
                if heuristic.0 > 1 {
                    heuristic = (1, b);
                }
            }
        }
    }

    (
        if definite.0 >= 4 {
            None
        } else {
            Some(definite)
        },
        if heuristic.0 >= 4 {
            None
        } else {
            Some(heuristic)
        },
    )
}

/// Measure every gate and keep, per owner and per kind, the nearest
/// island in layer-major first-found order.
pub fn measure_island(board: &Board, state: &Compact) -> (r: IslandMeasure)
    requires
        board.wf(),
        state.inv(*board),
        islands_defined(*board, *state),
    ensures
        r == measure_spec(*board, *state, 12),
{
    let mut result = IslandMeasure {
        silver_definite: None,
        silver_heuristic: None,
        gold_definite: None,
        gold_heuristic: None,
    };
    let mut i: u8 = 0;
    while i < 12
        invariant
            i <= 12,
            board.wf(),
            state.inv(*board),
            islands_defined(*board, *state),
            result == measure_spec(*board, *state, i as int),
        decreases 12 - i,
    {
        let layer_id = i / 3;
        let gate_id = i % 3;
        proof {
            assert(layer_id as int == (i as int) / 3 && gate_id as int == (i as int) % 3);
        }
        let (d, h) = measure_gate_island(board, state, layer_id, gate_id);
        let di = match d {
            Some(p) => Some(Island { distance: p.0, ball_id: p.1, layer: layer_id, gate: gate_id }),
            None => None,
        };
        let hi = match h {
            Some(p) => Some(Island { distance: p.0, ball_id: p.1, layer: layer_id, gate: gate_id }),
            None => None,
        };
        proof {
            let (sd, sh_) = gate_island_opts(*board, *state, layer_id as int, gate_id as int);
            assert(di == sd && hi == sh_) by {
                let (dd, hh) = gate_island_spec(*board, *state, layer_id as int, gate_id as int);
                lemma_spec_pair_bounds(*board, *state, layer_id as int, gate_id as int);
            }
        }
        if matches!(board.layer(layer_id).gate(gate_id).owner(), Player::Silver) {
            result = IslandMeasure {
                silver_definite: option_min_exec(result.silver_definite, di),
                silver_heuristic: option_min_exec(result.silver_heuristic, hi),
                gold_definite: result.gold_definite,
                gold_heuristic: result.gold_heuristic,
            };
        } else {
            result = IslandMeasure {
                silver_definite: result.silver_definite,
                silver_heuristic: result.silver_heuristic,
                gold_definite: option_min_exec(result.gold_definite, di),
                gold_heuristic: option_min_exec(result.gold_heuristic, hi),
            };
        }
        i += 1;
    }
    result
}

/// The table's distances lie between one and four and its balls are cells.
proof fn lemma_spec_pair_bounds(board: Board, s: Compact, l: int, g: int)
    requires
        0 <= l < 4,
        0 <= g < 3,
    ensures
        ({
            let (d, h) = gate_island_spec(board, s, l, g);
            &&& 0 <= d.0 <= 4
            &&& 0 <= d.1 <= 9
            &&& 0 <= h.0 <= 4
            &&& 0 <= h.1 <= 9
        }),
{
}

/// Keep the closer island, preferring the first on ties.
fn option_min_exec(a: Option<Island>, b: Option<Island>) -> (r: Option<Island>)
    ensures
        r == option_min(a, b),
{
    match (a, b) {
        (Some(x), Some(y)) => if x.distance > y.distance {
            Some(y)
        } else {
            Some(x)
        },
        (Some(x), None) => Some(x),
        (None, y) => y,
    }
}

} // verus!
