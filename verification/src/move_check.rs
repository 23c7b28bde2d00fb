//! Enumerating the legal moves: each player may shift any of their own
//! gates whose counter has not yet reached three.

use vstd::prelude::*;

use crate::board::Board;
use crate::state::{shift_of, Compact};
use crate::Player;

verus! {

broadcast use vstd::seq_lib::lemma_seq_contains_after_push;

/// One move: shifting gate `gate` of layer `layer`.
#[derive(Clone, Copy, PartialEq, Eq, Structural, Debug)]
pub struct Move {
    pub layer: u8,
    pub gate: u8,
}

impl Move {
    pub fn layer(self) -> (r: u8)
        ensures
            r == self.layer,
    {
        self.layer
    }

    pub fn gate(self) -> (r: u8)
        ensures
            r == self.gate,
    {
        self.gate
    }
}

/// Whether `m` is a move that `p` may play in state `s` over `board`: a
/// gate of `p`'s that is not yet exhausted.
pub open(crate) spec fn legal_move(board: Board, s: Compact, p: Player, m: Move) -> bool {
    &&& m.layer < 4
    &&& m.gate < 3
    &&& board.gate_owner(m.layer as int, m.gate as int) == p
    &&& shift_of(s.spec_shifts(), m.layer as int, m.gate as int) < 3
}

/// Layer-major key of a move, for ordering.
pub open(crate) spec fn move_key(m: Move) -> int {
    m.layer * 3 + m.gate
}

/// A sequence of moves that all belong to `p` on `board`, in strictly
/// increasing layer-major order.
pub open(crate) spec fn gate_list_wf(board: Board, p: Player, s: Seq<Move>) -> bool {
    &&& forall|k: int|
        0 <= k < s.len() ==> (#[trigger] s[k]).layer < 4 && s[k].gate < 3 && board.gate_owner(
            s[k].layer as int,
            s[k].gate as int,
        ) == p
    &&& forall|k1: int, k2: int|
        0 <= k1 < k2 < s.len() ==> move_key(#[trigger] s[k1]) < move_key(#[trigger] s[k2])
}

/// Precomputed per-player gate lists, in layer-major order.
pub struct MoveChecker {
    pub(crate) gold_gates: Vec<Move>,
    pub(crate) silver_gates: Vec<Move>,
    pub(crate) board: Ghost<Board>,
}

impl MoveChecker {
    /// The board this checker was built for.
    pub open(crate) spec fn spec_board(self) -> Board {
        self.board@
    }

    /// Both gate lists hold exactly the owner's gates, in strictly
    /// increasing layer-major order.
    pub open(crate) spec fn wf(self) -> bool {
        &&& gate_list_wf(self.spec_board(), Player::Gold, self.gold_gates@)
        &&& gate_list_wf(self.spec_board(), Player::Silver, self.silver_gates@)
        &&& forall|l: int, g: int|
            0 <= l < 4 && 0 <= g < 3 && self.spec_board().silver(l, g)
                ==> #[trigger] self.silver_gates@.contains(Move { layer: l as u8, gate: g as u8 })
        &&& forall|l: int, g: int|
            0 <= l < 4 && 0 <= g < 3 && !self.spec_board().silver(l, g)
                ==> #[trigger] self.gold_gates@.contains(Move { layer: l as u8, gate: g as u8 })
    }

    /// Collect each player's gates in layer-major order.
    pub fn new(board: &Board) -> (r: Self)
        ensures
            r.wf(),
            r.spec_board() == *board,
    {
        let mut gold_gates: Vec<Move> = Vec::new();
        let mut silver_gates: Vec<Move> = Vec::new();

        let mut i: u8 = 0;
        while i < 12
            invariant
                i <= 12,
                gate_list_wf(*board, Player::Gold, gold_gates@),
                gate_list_wf(*board, Player::Silver, silver_gates@),
                forall|k: int|
                    0 <= k < gold_gates@.len() ==> move_key(#[trigger] gold_gates@[k]) < i,
                forall|k: int|
                    0 <= k < silver_gates@.len() ==> move_key(#[trigger] silver_gates@[k]) < i,
                forall|l: int, g: int|
                    0 <= l < 4 && 0 <= g < 3 && l * 3 + g < i && board.silver(l, g)
                        ==> #[trigger] silver_gates@.contains(
                        Move { layer: l as u8, gate: g as u8 },
                    ),
                forall|l: int, g: int|
                    0 <= l < 4 && 0 <= g < 3 && l * 3 + g < i && !board.silver(l, g)
                        ==> #[trigger] gold_gates@.contains(Move { layer: l as u8, gate: g as u8 }),
            decreases 12 - i,
        {
            let layer = i / 3;
            let gate = i % 3;
            let m = Move { layer, gate };
            proof {
                assert(layer as int == i as int / 3 && gate as int == i as int % 3);
                assert(move_key(m) == i as int);
            }
            if matches!(board.layer(layer).gate(gate).owner(), Player::Silver) {
                silver_gates.push(m);
            } else {
                gold_gates.push(m);
            }
            proof {
                assert forall|l: int, g: int|
                    0 <= l < 4 && 0 <= g < 3 && l * 3 + g < i + 1 && board.silver(l, g)
                        implies #[trigger] silver_gates@.contains(
                    Move { layer: l as u8, gate: g as u8 },
                ) by {
                    if l * 3 + g == i as int {
                        crate::bits::lemma_divmod3(l, g);
                        assert((Move { layer: l as u8, gate: g as u8 }) == m);
                    }
                }
                assert forall|l: int, g: int|
                    0 <= l < 4 && 0 <= g < 3 && l * 3 + g < i + 1 && !board.silver(l, g)
                        implies #[trigger] gold_gates@.contains(
                    Move { layer: l as u8, gate: g as u8 },
                ) by {
                    if l * 3 + g == i as int {
                        crate::bits::lemma_divmod3(l, g);
                        assert((Move { layer: l as u8, gate: g as u8 }) == m);
                    }
                }
            }
            i += 1;
        }

        Self { gold_gates, silver_gates, board: Ghost(*board) }
    }

    /// The moves `p` may play in `state`: `p`'s gates with a counter below
    /// three, in layer-major order.
    pub fn moves(&self, state: &Compact, p: Player) -> (r: Vec<Move>)
        requires
            self.wf(),
        ensures
            forall|k: int|
                0 <= k < r@.len() ==> legal_move(self.spec_board(), *state, p, #[trigger] r@[k]),
            forall|m: Move|
                legal_move(self.spec_board(), *state, p, m) ==> #[trigger] r@.contains(m),
            forall|k1: int, k2: int|
                0 <= k1 < k2 < r@.len() ==> move_key(#[trigger] r@[k1]) < move_key(
                    #[trigger] r@[k2],
                ),
    {
        let gates = match p {
            Player::Gold => &self.gold_gates,
            Player::Silver => &self.silver_gates,
        };
        let mut r: Vec<Move> = Vec::new();
        let mut i: usize = 0;
        while i < gates.len()
            invariant
                i <= gates@.len(),
                self.wf(),
                gates@ == (if p is Silver {
                    self.silver_gates@
                } else {
                    self.gold_gates@
                }),
                gate_list_wf(self.spec_board(), p, gates@),
                forall|k: int|
                    0 <= k < r@.len() ==> legal_move(self.spec_board(), *state, p, #[trigger] r@[k]),
                forall|k: int|
                    0 <= k < i && legal_move(self.spec_board(), *state, p, #[trigger] gates@[k])
                        ==> r@.contains(gates@[k]),
                forall|k1: int, k2: int|
                    0 <= k1 < k2 < r@.len() ==> move_key(#[trigger] r@[k1]) < move_key(
                        #[trigger] r@[k2],
                    ),
                forall|k: int, j: int|
                    0 <= k < r@.len() && i <= j < gates@.len() ==> move_key(#[trigger] r@[k])
                        < move_key(#[trigger] gates@[j]),
            decreases gates@.len() - i,
        {
            let m = gates[i];
            if state.get_shift(m.layer, m.gate) < 3 {
                r.push(m);
                proof {
                    assert(r@[r@.len() - 1] == m);
                }
            }
            i += 1;
        }
        proof {
            assert forall|m: Move| legal_move(self.spec_board(), *state, p, m) implies #[trigger] r@.contains(
                m,
            ) by {
                let l = m.layer as int;
                let g = m.gate as int;
                assert(m == (Move { layer: l as u8, gate: g as u8 }));
                assert(gates@.contains(m));
                let k0 = choose|k: int| 0 <= k < gates@.len() && gates@[k] == m;
                assert(legal_move(self.spec_board(), *state, p, gates@[k0]));
            }
        }
        r
    }
}

} // verus!
