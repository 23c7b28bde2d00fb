//! The dynamic position: ball bits, the mask of open holes, and one 2-bit
//! shift counter per gate. A shift rewrites the affected layer into a
//! canonical top-left horizontal frame, slides that gate's 3-bit window, and
//! rewrites the frame back; gravity then drops balls through aligned holes.

use vstd::prelude::*;

use crate::ball_bitmask::{
    balls_wf, col_of, cols_ok, depth_of, fall_to, layer_bit, pack5_from, BallBitmask,
};
use crate::bits::{bit64, canon_pos, mpos, tpos};
use crate::board::Board;
use crate::Player;

verus! {

/// The value of the 2-bit shift counter of gate `g` in layer `l`.
pub open spec fn shift_of(shifts: u64, l: int, g: int) -> int {
    ((shifts >> (((l * 3 + g) * 2) as u64)) & 3) as int
}

/// Hole pattern of a gate before any shift, as a 3-bit row: pattern
/// selectors 0, 1 and 2 open exactly that slot, selector 3 opens none.
pub open spec fn init_window(ty: int) -> int {
    if ty == 0 {
        1
    } else if ty == 1 {
        2
    } else if ty == 2 {
        4
    } else {
        0
    }
}

/// Hole pattern of a gate after `s` shifts: each shift slides the window
/// one slot toward slot 0 and opens slot 2 behind it.
pub open spec fn window(ty: int, s: int) -> int
    decreases s,
{
    if s <= 0 {
        init_window(ty)
    } else {
        window(ty, s - 1) / 2 + 4
    }
}

/// Bit `k` of a 3-bit window value.
pub open spec fn win_bit(w: int, k: int) -> bool {
    if k == 0 {
        w % 2 == 1
    } else if k == 1 {
        w / 2 % 2 == 1
    } else {
        w / 4 % 2 == 1
    }
}

/// Which of a layer's three gates covers cell `c`, given orientation `h`.
pub open spec fn gate_of_cell(h: bool, c: int) -> int {
    if h {
        c / 3
    } else {
        c % 3
    }
}

/// Whether layer `l` has an open hole at cell `c`, as determined by the
/// board's gate data and the shift counters alone.
pub open spec fn open_cell(board: Board, shifts: u64, l: int, c: int) -> bool {
    let h = board.horiz(l);
    let g = gate_of_cell(h, c);
    let t = board.topleft(l, g);
    win_bit(window(board.gatetype(l, g), shift_of(shifts, l, g)), canon_pos(h, t, c) % 3)
}

/// The hole mask agrees with the canonical per-gate windows everywhere,
/// and holds nothing above bit 35.
pub open spec fn gates_ok(board: Board, shifts: u64, gates: u64) -> bool {
    &&& gates >> 36 == 0
    &&& forall|l: int, c: int|
        0 <= l < 4 && 0 <= c < 9 ==> #[trigger] layer_bit(gates, l, c) == open_cell(
            board,
            shifts,
            l,
            c,
        )
}

/// Sum of the first `n` gate shift counters, in layer-major order.
pub open spec fn shift_sum(s: u64, n: int) -> int
    decreases n,
{
    if n <= 0 {
        0
    } else {
        shift_sum(s, n - 1) + shift_of(s, (n - 1) / 3, (n - 1) % 3)
    }
}

/// Sum of the shift counters of the silver-owned gates among the first `n`.
pub open spec fn silver_shift_sum(board: Board, s: u64, n: int) -> int
    decreases n,
{
    if n <= 0 {
        0
    } else {
        silver_shift_sum(board, s, n - 1) + if board.silver((n - 1) / 3, (n - 1) % 3) {
            shift_of(s, (n - 1) / 3, (n - 1) % 3)
        } else {
            0int
        }
    }
}

/// The counter word after one more shift of gate `g` in layer `l`.
pub open spec fn add_shift(shifts: u64, l: int, g: int) -> u64 {
    (shifts + (1u64 << ((2 * (l * 3 + g)) as u64))) as u64
}

/// Sum of the shift counters of the gates that `p` owns among the first
/// `n`.
pub open spec fn owner_shift_sum(board: Board, s: u64, p: Player, n: int) -> int
    decreases n,
{
    if n <= 0 {
        0
    } else {
        owner_shift_sum(board, s, p, n - 1) + if board.gate_owner((n - 1) / 3, (n - 1) % 3) == p {
            shift_of(s, (n - 1) / 3, (n - 1) % 3)
        } else {
            0int
        }
    }
}

/// Number of gates among the first `n` that `p` owns.
pub open spec fn owner_gate_count(board: Board, p: Player, n: int) -> int
    decreases n,
{
    if n <= 0 {
        0
    } else {
        owner_gate_count(board, p, n - 1) + if board.gate_owner((n - 1) / 3, (n - 1) % 3) == p {
            1int
        } else {
            0int
        }
    }
}

/// Every counter reads between zero and three.
pub(crate) proof fn lemma_shift_of_bounds(s: u64, l: int, g: int)
    ensures
        0 <= shift_of(s, l, g) <= 3,
{
    let k = ((l * 3 + g) * 2) as u64;
    crate::bits::lemma_zero_word(k, s);
}

/// Counter sums lie between zero and three per gate counted.
pub(crate) proof fn lemma_shift_sum_bounds(s: u64, n: int)
    requires
        n >= 0,
    ensures
        0 <= shift_sum(s, n) <= 3 * n,
    decreases n,
{
    if n > 0 {
        lemma_shift_sum_bounds(s, n - 1);
        lemma_shift_of_bounds(s, (n - 1) / 3, (n - 1) % 3);
    }
}

/// An owner's sum is bounded by three per owned gate, and reaches the
/// bound only with every owned gate fully shifted.
pub(crate) proof fn lemma_owner_sum_bounds(board: Board, s: u64, p: Player, n: int)
    requires
        n >= 0,
    ensures
        0 <= owner_shift_sum(board, s, p, n) <= 3 * owner_gate_count(board, p, n),
        0 <= owner_gate_count(board, p, n) <= n,
        owner_shift_sum(board, s, p, n) == 3 * owner_gate_count(board, p, n) ==> forall|
            l: int,
            g: int,
        |
            0 <= l < 4 && 0 <= g < 3 && l * 3 + g < n && board.gate_owner(l, g) == p
                ==> #[trigger] shift_of(s, l, g) == 3,
    decreases n,
{
    if n > 0 {
        lemma_owner_sum_bounds(board, s, p, n - 1);
        lemma_shift_of_bounds(s, (n - 1) / 3, (n - 1) % 3);
        if owner_shift_sum(board, s, p, n) == 3 * owner_gate_count(board, p, n) {
            assert forall|l: int, g: int|
                0 <= l < 4 && 0 <= g < 3 && l * 3 + g < n && board.gate_owner(l, g) == p
                    implies #[trigger] shift_of(s, l, g) == 3 by {
                if l * 3 + g == n - 1 {
                    crate::bits::lemma_divmod3(l, g);
                }
            }
        }
    }
}

/// One more shift on an unexhausted gate raises each relevant sum by
/// exactly one.
pub(crate) proof fn lemma_sums_after_shift(board: Board, s: u64, l: int, g: int, p: Player, n: int)
    requires
        0 <= l < 4,
        0 <= g < 3,
        0 <= n <= 12,
        s >> 24 == 0,
        shift_of(s, l, g) < 3,
    ensures
        shift_sum(add_shift(s, l, g), n) == shift_sum(s, n) + (if l * 3 + g < n {
            1int
        } else {
            0int
        }),
        owner_shift_sum(board, add_shift(s, l, g), p, n) == owner_shift_sum(board, s, p, n) + (
        if l * 3 + g < n && board.gate_owner(l, g) == p {
            1int
        } else {
            0int
        }),
        add_shift(s, l, g) >> 24 == 0,
        shift_of(add_shift(s, l, g), l, g) == shift_of(s, l, g) + 1,
        forall|l2: int, g2: int|
            0 <= l2 < 4 && 0 <= g2 < 3 && !(l2 == l && g2 == g) ==> #[trigger] shift_of(
                add_shift(s, l, g),
                l2,
                g2,
            ) == shift_of(s, l2, g2),
    decreases n,
{
    let i = (l * 3 + g) as u64;
    lemma_shift_incr(s, i, 0);
    assert forall|l2: int, g2: int|
        0 <= l2 < 4 && 0 <= g2 < 3 && !(l2 == l && g2 == g) implies #[trigger] shift_of(
        add_shift(s, l, g),
        l2,
        g2,
    ) == shift_of(s, l2, g2) by {
        lemma_shift_incr(s, i, (l2 * 3 + g2) as u64);
    }
    if n > 0 {
        lemma_sums_after_shift(board, s, l, g, p, n - 1);
        crate::bits::lemma_divmod3((n - 1) / 3, (n - 1) % 3);
        if l * 3 + g == n - 1 {
            crate::bits::lemma_divmod3(l, g);
        }
    }
}

/// Windows stay in range, every shifted window opens slot 2, and sliding
/// moves each remaining slot down by one.
pub(crate) proof fn lemma_window_facts(ty: int, s: int)
    requires
        s >= 0,
    ensures
        0 <= window(ty, s) <= 7,
        s >= 1 ==> win_bit(window(ty, s), 2),
        win_bit(window(ty, s + 1), 0) == win_bit(window(ty, s), 1),
        win_bit(window(ty, s + 1), 1) == win_bit(window(ty, s), 2),
        win_bit(window(ty, s + 1), 2),
    decreases s,
{
    if s > 0 {
        lemma_window_facts(ty, s - 1);
    }
    let w = window(ty, s);
    assert(window(ty, s + 1) == w / 2 + 4);
    assert((w / 2 + 4) % 2 == (w / 2) % 2) by (nonlinear_arith)
        requires
            0 <= w <= 7,
    ;
    assert((w / 2 + 4) / 2 % 2 == w / 4 % 2) by (nonlinear_arith)
        requires
            0 <= w <= 7,
    ;
    assert((w / 2 + 4) / 4 % 2 == 1) by (nonlinear_arith)
        requires
            0 <= w <= 7,
    ;
}

/// `tpos` and `mpos` keep every cell within its own covering gate, and
/// report its slot within that gate.
pub(crate) proof fn lemma_perm_cells(c: int)
    requires
        0 <= c < 9,
    ensures
        0 <= tpos(c) < 9,
        0 <= mpos(c) < 9,
        tpos(c) / 3 == c % 3,
        tpos(c) % 3 == c / 3,
        mpos(c) / 3 == c / 3,
        mpos(c) % 3 == 2 - c % 3,
        tpos(tpos(c)) == c,
        mpos(mpos(c)) == c,
{
    crate::bits::lemma_perm_involutions(c);
    crate::bits::lemma_divmod3(c % 3, c / 3);
    crate::bits::lemma_divmod3(c / 3, 2 - c % 3);
}

/// One bit of the transposed word, traced back to the source word.
proof fn lemma_transpose_bit(x: u64, r: u64, l: u64, c: u64)
    by (bit_vector)
    requires
        l < 4,
        c < 9,
        r == (x & 0xffff_fff8_8c46_2311) | ((x & 0x0000_0001_1088_4422) << 2) | ((x
            & 0x0000_0000_2010_0804) << 4) | ((x & 0x0000_0002_0100_8040) >> 4) | ((x
            & 0x0000_0004_4221_1088) >> 2),
    ensures
        bit64(r, (9 * l + c) as u64) == bit64(x, (9 * l + 3 * (c % 3) + c / 3) as u64),
        r >> 36 == x >> 36,
{
}

/// One bit of the mirrored word, traced back to the source word.
proof fn lemma_mirror_bit(x: u64, r: u64, l: u64, c: u64)
    by (bit_vector)
    requires
        l < 4,
        c < 9,
        r == (x & 0xffff_fff4_9249_2492) | ((x & 0x0000_0002_4924_9249) << 2) | ((x
            & 0x0000_0009_2492_4924) >> 2),
    ensures
        bit64(r, (9 * l + c) as u64) == bit64(x, (9 * l + 3 * (c / 3) + 2 - c % 3) as u64),
        r >> 36 == x >> 36,
{
}

/// Swap rows and columns of every layer of the hole mask. An involution;
/// bits 36 and above pass through untouched.
pub fn transpose_gates(gates: u64) -> (r: u64)
    ensures
        forall|l: int, c: int|
            0 <= l < 4 && 0 <= c < 9 ==> #[trigger] layer_bit(r, l, c) == layer_bit(
                gates,
                l,
                tpos(c),
            ),
        r >> 36 == gates >> 36,
{
    let r = (gates & 0xffff_fff8_8c46_2311) | ((gates & 0x0000_0001_1088_4422) << 2) | ((gates
        & 0x0000_0000_2010_0804) << 4) | ((gates & 0x0000_0002_0100_8040) >> 4) | ((gates
        & 0x0000_0004_4221_1088) >> 2);
    proof {
        assert forall|l: int, c: int| 0 <= l < 4 && 0 <= c < 9 implies #[trigger] layer_bit(r, l, c)
            == layer_bit(gates, l, tpos(c)) by {
            lemma_perm_cells(c);
            lemma_transpose_bit(gates, r, l as u64, c as u64);
            assert((9 * (l as u64) + (c as u64)) as u64 == (9 * l + c) as u64);
            assert((9 * (l as u64) + 3 * ((c as u64) % 3) + (c as u64) / 3) as u64 == (9 * l + tpos(
                c,
            )) as u64);
        }
        lemma_transpose_bit(gates, r, 0, 0);
    }
    r
}

/// Mirror every gate row of the hole mask in place. An involution; bits 36
/// and above pass through untouched.
pub fn mirror_gates(gates: u64) -> (r: u64)
    ensures
        forall|l: int, c: int|
            0 <= l < 4 && 0 <= c < 9 ==> #[trigger] layer_bit(r, l, c) == layer_bit(
                gates,
                l,
                mpos(c),
            ),
        r >> 36 == gates >> 36,
{
    let r = (gates & 0xffff_fff4_9249_2492) | ((gates & 0x0000_0002_4924_9249) << 2) | ((gates
        & 0x0000_0009_2492_4924) >> 2);
    proof {
        assert forall|l: int, c: int| 0 <= l < 4 && 0 <= c < 9 implies #[trigger] layer_bit(r, l, c)
            == layer_bit(gates, l, mpos(c)) by {
            lemma_perm_cells(c);
            lemma_mirror_bit(gates, r, l as u64, c as u64);
            assert((9 * (l as u64) + (c as u64)) as u64 == (9 * l + c) as u64);
            assert((9 * (l as u64) + 3 * ((c as u64) / 3) + 2 - (c as u64) % 3) as u64 == (9 * l
                + mpos(c)) as u64);
        }
        lemma_mirror_bit(gates, r, 0, 0);
    }
    r
}

/// One bit of the slid window, traced back to the word before the slide.
proof fn lemma_window_update_bit(x: u64, r: u64, off: u64, i: u64)
    by (bit_vector)
    requires
        off <= 33,
        i < 64,
        r == (x & !(0b111u64 << off)) | ((x >> 1) & (0b111u64 << off)) | (0b100u64 << off),
    ensures
        i == off + 2 ==> bit64(r, i),
        off <= i < off + 2 ==> bit64(r, i) == bit64(x, (i + 1) as u64),
        (i < off || i > off + 2) ==> bit64(r, i) == bit64(x, i),
        off + 2 < 36 ==> r >> 36 == x >> 36,
{
}

/// Incrementing one 2-bit counter leaves all others alone and stays below
/// bit 24.
proof fn lemma_shift_incr(s: u64, i: u64, j: u64)
    by (bit_vector)
    requires
        i < 12,
        j < 12,
        s >> 24 == 0,
        (s >> (2 * i)) & 3 < 3,
    ensures
        (((s + (1u64 << (2 * i))) as u64) >> (2 * i)) & 3 == ((s >> (2 * i)) & 3) + 1,
        i != j ==> (((s + (1u64 << (2 * i))) as u64) >> (2 * j)) & 3 == (s >> (2 * j)) & 3,
        ((s + (1u64 << (2 * i))) as u64) >> 24 == 0,
        s < 0x100_0000,
        s + (1u64 << (2 * i)) < 0x200_0000,
{
}

/// Compact representation of the position of the balls and the gates.
/// Complements a board, which provides the placement of gates and balls.
#[derive(Clone, Copy, Debug, PartialEq, Eq, Structural)]
pub struct Compact {
    pub(crate) balls: BallBitmask,
    pub(crate) gates: u64,
    pub(crate) gate_shifts: u64,
}

impl Compact {
    /// The raw ball mask.
    pub open(crate) spec fn spec_balls(self) -> u64 {
        self.balls.spec_mask()
    }

    /// The raw open-hole mask.
    pub open(crate) spec fn spec_gates(self) -> u64 {
        self.gates
    }

    /// The packed shift counters.
    pub open(crate) spec fn spec_shifts(self) -> u64 {
        self.gate_shifts
    }

    /// A state is coherent with a board when its ball mask holds one ball
    /// per populated cell, its counters fit their 24 bits, and its hole
    /// mask is exactly what the counters dictate.
    pub open(crate) spec fn inv(self, board: Board) -> bool {
        &&& balls_wf(self.spec_balls(), board)
        &&& self.gate_shifts >> 24 == 0
        &&& gates_ok(board, self.gate_shifts, self.gates)
    }

    /// The raw open-hole mask.
    pub fn get_gate_bits(&self) -> (r: u64)
        ensures
            r == self.spec_gates(),
    {
        self.gates
    }

    /// The raw ball mask.
    pub fn get_ball_bits(&self) -> (r: u64)
        ensures
            r == self.spec_balls(),
    {
        self.balls.get_mask()
    }

    /// How often gate `gate` of layer `layer` has been shifted.
    pub fn get_shift(&self, layer: u8, gate: u8) -> (r: u8)
        requires
            layer < 4,
            gate < 3,
        ensures
            r as int == shift_of(self.spec_shifts(), layer as int, gate as int),
            r <= 3,
    {
        let idx: u64 = ((layer as u64) * 3 + (gate as u64)) * 2;
        proof {
            crate::bits::lemma_zero_word(idx, self.gate_shifts);
        }
        ((self.gate_shifts >> idx) & 0b11) as u8
    }

    fn increment_gate_shift(&mut self, layer: u8, gate: u8)
        requires
            layer < 4,
            gate < 3,
            old(self).gate_shifts >> 24 == 0,
            shift_of(old(self).spec_shifts(), layer as int, gate as int) < 3,
        ensures
            final(self).balls == old(self).balls,
            final(self).gates == old(self).gates,
            final(self).gate_shifts == add_shift(
                old(self).gate_shifts,
                layer as int,
                gate as int,
            ),
            final(self).gate_shifts >> 24 == 0,
            shift_of(final(self).spec_shifts(), layer as int, gate as int) == shift_of(
                old(self).spec_shifts(),
                layer as int,
                gate as int,
            ) + 1,
            forall|l2: int, g2: int|
                0 <= l2 < 4 && 0 <= g2 < 3 && !(l2 == layer as int && g2 == gate as int)
                    ==> #[trigger] shift_of(final(self).spec_shifts(), l2, g2) == shift_of(
                    old(self).spec_shifts(),
                    l2,
                    g2,
                ),
    {
        let gate_shift_bit_index: u64 = ((layer as u64) * 3 + (gate as u64)) * 2;
        proof {
            lemma_shift_incr(self.gate_shifts, ((layer as int) * 3 + (gate as int)) as u64, 0);
        }
        self.gate_shifts = self.gate_shifts + (1u64 << gate_shift_bit_index);
        proof {
            let i = (layer as int) * 3 + gate as int;
            assert forall|l2: int, g2: int|
                0 <= l2 < 4 && 0 <= g2 < 3 && !(l2 == layer as int && g2 == gate as int)
                    implies #[trigger] shift_of(self.gate_shifts, l2, g2) == shift_of(
                old(self).gate_shifts,
                l2,
                g2,
            ) by {
                let j = l2 * 3 + g2;
                assert(j != i);
                lemma_shift_incr(old(self).gate_shifts, i as u64, j as u64);
            }
            lemma_shift_incr(old(self).gate_shifts, i as u64, 0);
        }
    }

    /// Shift a gate without letting the balls drop afterwards. Exactly one
    /// counter grows by one; the hole mask tracks the new counters.
    pub fn shift_gate_raw(&mut self, board: &Board, layer: u8, gate: u8)
        requires
            old(self).inv(*board),
            layer < 4,
            gate < 3,
            shift_of(old(self).spec_shifts(), layer as int, gate as int) < 3,
        ensures
            final(self).inv(*board),
            final(self).spec_balls() == old(self).spec_balls(),
            final(self).spec_shifts() == add_shift(
                old(self).spec_shifts(),
                layer as int,
                gate as int,
            ),
            shift_of(final(self).spec_shifts(), layer as int, gate as int) == shift_of(
                old(self).spec_shifts(),
                layer as int,
                gate as int,
            ) + 1,
            forall|l2: int, g2: int|
                0 <= l2 < 4 && 0 <= g2 < 3 && !(l2 == layer as int && g2 == gate as int)
                    ==> #[trigger] shift_of(final(self).spec_shifts(), l2, g2) == shift_of(
                    old(self).spec_shifts(),
                    l2,
                    g2,
                ),
    {
        self.increment_gate_shift(layer, gate);

        let h = board.layer(layer).horizontal();
        let t = board.layer(layer).gate(gate).topleft();

        let g0 = self.gates;
        let g1 = if h {
            g0
        } else {
            transpose_gates(g0)
        };
        let g2 = if t {
            g1
        } else {
            mirror_gates(g1)
        };

        let gate_offset = layer * 9 + gate * 3;
        let gate_mask = 0b111u64 << gate_offset;
        let g3 = (g2 & !gate_mask) | ((g2 >> 1) & gate_mask) | (0b100u64 << gate_offset);

        let g4 = if t {
            g3
        } else {
            mirror_gates(g3)
        };
        let g5 = if h {
            g4
        } else {
            transpose_gates(g4)
        };

        self.gates = g5;
        proof {
            lemma_shift_frame_change(
                *board,
                old(self).gate_shifts,
                self.gate_shifts,
                layer as int,
                gate as int,
                g0,
                g1,
                g2,
                g3,
                g4,
                g5,
                h,
                t,
                gate_offset as u64,
            );
        }
    }

    /// Let every ball fall through aligned open holes until it rests on a
    /// closed cell or leaves the cube at layer 4.
    pub fn drop_balls(&mut self)
        requires
            cols_ok(old(self).spec_balls()),
            old(self).spec_gates() >> 36 == 0,
        ensures
            final(self).spec_gates() == old(self).spec_gates(),
            final(self).spec_shifts() == old(self).spec_shifts(),
            cols_ok(final(self).spec_balls()),
            final(self).spec_balls() & final(self).spec_gates() == 0,
            forall|c: int|
                0 <= c < 9 ==> depth_of(final(self).spec_balls(), c) == fall_to(
                    old(self).spec_gates(),
                    c,
                    depth_of(old(self).spec_balls(), c),
                ),
            forall|c: int|
                0 <= c < 9 ==> ((#[trigger] col_of(final(self).spec_balls(), c) == 0) == (col_of(
                    old(self).spec_balls(),
                    c,
                ) == 0)),
    {
        self.balls.drop(self.gates);
    }

    /// Shift a gate and let the balls drop: one move of the game.
    pub fn shift_gate(&mut self, board: &Board, layer: u8, gate: u8)
        requires
            old(self).inv(*board),
            layer < 4,
            gate < 3,
            shift_of(old(self).spec_shifts(), layer as int, gate as int) < 3,
        ensures
            final(self).inv(*board),
            final(self).spec_balls() & final(self).spec_gates() == 0,
            final(self).spec_shifts() == add_shift(
                old(self).spec_shifts(),
                layer as int,
                gate as int,
            ),
            shift_of(final(self).spec_shifts(), layer as int, gate as int) == shift_of(
                old(self).spec_shifts(),
                layer as int,
                gate as int,
            ) + 1,
            forall|l2: int, g2: int|
                0 <= l2 < 4 && 0 <= g2 < 3 && !(l2 == layer as int && g2 == gate as int)
                    ==> #[trigger] shift_of(final(self).spec_shifts(), l2, g2) == shift_of(
                    old(self).spec_shifts(),
                    l2,
                    g2,
                ),
            forall|c: int|
                0 <= c < 9 ==> #[trigger] depth_of(final(self).spec_balls(), c) == fall_to(
                    final(self).spec_gates(),
                    c,
                    depth_of(old(self).spec_balls(), c),
                ),
            forall|c: int|
                0 <= c < 9 ==> depth_of(old(self).spec_balls(), c) <= #[trigger] depth_of(
                    final(self).spec_balls(),
                    c,
                ),
    {
        self.shift_gate_raw(board, layer, gate);
        self.drop_balls();
        proof {
            assert forall|c: int| 0 <= c < 9 implies depth_of(old(self).spec_balls(), c)
                <= #[trigger] depth_of(final(self).spec_balls(), c) by {
                crate::ball_bitmask::lemma_depth_bounds(old(self).spec_balls(), c);
                crate::ball_bitmask::lemma_fall_to_bounds(
                    self.spec_gates(),
                    c,
                    depth_of(old(self).spec_balls(), c),
                );
            }
        }
    }

    /// The layer of each of the nine ball columns; 4 for a ball that has
    /// left the cube and for the cell that never had one.
    pub fn depth(&self) -> (r: [u8; 9])
        requires
            cols_ok(self.spec_balls()),
        ensures
            forall|c: int| 0 <= c < 9 ==> #[trigger] r[c] as int == depth_of(self.spec_balls(), c),
    {
        self.balls.depth()
    }

    /// Sum of all twelve shift counters.
    pub fn shift_count(&self) -> (r: u8)
        requires
            self.spec_shifts() >> 24 == 0,
        ensures
            r as int == shift_sum(self.spec_shifts(), 12),
    {
        two_bit_array_add(self.gate_shifts)
    }

    /// Sum of the shift counters of the gates that belong to Silver.
    pub fn shift_count_silver(&self, board: &Board) -> (r: u8)
        requires
            self.spec_shifts() >> 24 == 0,
        ensures
            r as int == silver_shift_sum(*board, self.spec_shifts(), 12),
    {
        let mut silver_mask: u64 = 0;
        proof {
            crate::bits::lemma_zero_word(24, 0);
            assert forall|l: int, g: int| 0 <= l < 4 && 0 <= g < 3 implies #[trigger] shift_of(
                0u64,
                l,
                g,
            ) == 0 by {
                let j = ((l * 3 + g) * 2) as u64;
                crate::bits::lemma_zero_word(j, 0);
            }
        }
        let mut i: u8 = 0;
        while i < 12
            invariant
                i <= 12,
                silver_mask >> 24 == 0,
                forall|l: int, g: int|
                    0 <= l < 4 && 0 <= g < 3 ==> #[trigger] shift_of(silver_mask, l, g) == (if l * 3
                        + g < i && board.silver(l, g) {
                        3int
                    } else {
                        0int
                    }),
            decreases 12 - i,
        {
            if matches!(board.layer(i / 3).gate(i % 3).owner(), Player::Silver) {
                let ghost before = silver_mask;
                silver_mask = silver_mask | (0b11u64 << (2 * (i as u64)));
                proof {
                    assert forall|l: int, g: int| 0 <= l < 4 && 0 <= g < 3 implies #[trigger] shift_of(
                        silver_mask,
                        l,
                        g,
                    ) == (if l * 3 + g < i + 1 && board.silver(l, g) {
                        3int
                    } else {
                        0int
                    }) by {
                        assert(shift_of(before, l, g) == (if l * 3 + g < i && board.silver(l, g) {
                            3int
                        } else {
                            0int
                        }));
                        lemma_mask_or3(before, (2 * (i as int)) as u64, (((l * 3 + g) * 2)) as u64);
                        if l * 3 + g == i as int {
                            crate::bits::lemma_divmod3(l, g);
                            assert(l == i as int / 3 && g == i as int % 3);
                            assert(board.silver(l, g));
                        }
                    }
                    lemma_mask_or3(before, (2 * (i as int)) as u64, 0);
                }
            } else {
                proof {
                    assert((i as int) / 3 < 4 && (i as int) % 3 < 3);
                    assert(!board.silver(i as int / 3, i as int % 3));
                    assert forall|l: int, g: int| 0 <= l < 4 && 0 <= g < 3 implies #[trigger] shift_of(
                        silver_mask,
                        l,
                        g,
                    ) == (if l * 3 + g < i + 1 && board.silver(l, g) {
                        3int
                    } else {
                        0int
                    }) by {
                        if l * 3 + g == i as int {
                            crate::bits::lemma_divmod3(l, g);
                        }
                    }
                }
            }
            i += 1;
        }
        let masked = self.gate_shifts & silver_mask;
        proof {
            assert forall|l: int, g: int| 0 <= l < 4 && 0 <= g < 3 implies #[trigger] shift_of(
                masked,
                l,
                g,
            ) == (if board.silver(l, g) {
                shift_of(self.gate_shifts, l, g)
            } else {
                0int
            }) by {
                assert(shift_of(silver_mask, l, g) == (if board.silver(l, g) {
                    3int
                } else {
                    0int
                }));
                lemma_and_fields(self.gate_shifts, silver_mask, (((l * 3 + g) * 2)) as u64);
            }
            lemma_and_fields(self.gate_shifts, silver_mask, 0);
            lemma_masked_silver_sum(*board, self.gate_shifts, masked, 12);
        }
        two_bit_array_add(masked)
    }

    /// The initial state of a board: every ball at its cell on the top
    /// layer, every counter zero, the hole mask built from each gate's
    /// initial pattern, and gravity already applied once.
    pub fn build_from_board(board: &Board) -> (r: Self)
        requires
            board.wf(),
        ensures
            r.inv(*board),
            forall|l: int, g: int|
                0 <= l < 4 && 0 <= g < 3 ==> #[trigger] shift_of(r.spec_shifts(), l, g) == 0,
            r.spec_balls() & r.spec_gates() == 0,
            forall|c: int|
                0 <= c < 9 && board.has_ball(c) ==> #[trigger] depth_of(r.spec_balls(), c)
                    == fall_to(r.spec_gates(), c, 0),
    {
        proof {
            assert forall|k: int| 0 <= k < 9 implies #[trigger] col_of(0u64, k) == 0 by {
                let ku = k as u64;
                crate::bits::lemma_zero_word(ku, 0);
            }
            crate::bits::lemma_zero_word(45, 0);
            crate::bits::lemma_zero_word(36, 0);
            crate::bits::lemma_zero_word(24, 0);
            assert forall|l: int, g: int| 0 <= l < 4 && 0 <= g < 3 implies #[trigger] shift_of(
                0u64,
                l,
                g,
            ) == 0 by {
                let j = ((l * 3 + g) * 2) as u64;
                crate::bits::lemma_zero_word(j, 0);
            }
        }
        let mut balls: u64 = 0;
        let mut c: u8 = 0;
        while c < 9
            invariant
                c <= 9,
                board.wf(),
                balls >> 45 == 0,
                forall|k: int|
                    0 <= k < c ==> #[trigger] col_of(balls, k) == (if board.has_ball(k) {
                        1u64
                    } else {
                        0u64
                    }),
                forall|k: int| c <= k < 9 ==> #[trigger] col_of(balls, k) == 0,
            decreases 9 - c,
        {
            if board.ball(c).is_some() {
                let ghost before = balls;
                balls = balls | (1u64 << c);
                proof {
                    assert forall|k: int| 0 <= k < 9 implies #[trigger] col_of(balls, k) == (if k
                        == c as int {
                        col_of(before, k) | 1u64
                    } else {
                        col_of(before, k)
                    }) by {
                        crate::ball_bitmask::lemma_col_of_single(0, c as u64, k as u64, before);
                        assert((9 * 0 + c as int) as u64 == c as u64);
                        crate::bits::lemma_zero_word(0, 1);
                    }
                    assert(col_of(balls, c as int) == 1u64) by {
                        crate::bits::lemma_zero_word(0, 1);
                    }
                    crate::ball_bitmask::lemma_col_of_single(0, c as u64, 0, before);
                    assert((1u64 << ((9 * 0 + c as int) as u64)) == (1u64 << (c as u64)));
                }
            }
            c += 1;
        }

        let mut gates: u64 = 0;
        proof {
            assert forall|l2: int, c2: int| 0 <= l2 < 4 && 0 <= c2 < 9 implies !#[trigger] layer_bit(
                0u64,
                l2,
                c2,
            ) by {
                crate::bits::lemma_zero_word((9 * l2 + c2) as u64, 0);
            }
        }
        let mut l: u8 = 0;
        while l < 4
            invariant
                l <= 4,
                board.wf(),
                gates >> 36 == 0,
                forall|l2: int, c2: int|
                    0 <= l2 < l && 0 <= c2 < 9 ==> #[trigger] layer_bit(gates, l2, c2) == open_cell(
                        *board,
                        0u64,
                        l2,
                        c2,
                    ),
                forall|l2: int, c2: int|
                    l <= l2 < 4 && 0 <= c2 < 9 ==> !#[trigger] layer_bit(gates, l2, c2),
                forall|lx: int, gx: int|
                    0 <= lx < 4 && 0 <= gx < 3 ==> #[trigger] shift_of(0u64, lx, gx) == 0,
            decreases 4 - l,
        {
            let mut cc: u8 = 0;
            while cc < 9
                invariant
                    l < 4,
                    cc <= 9,
                    board.wf(),
                    gates >> 36 == 0,
                    forall|l2: int, c2: int|
                        0 <= l2 < l && 0 <= c2 < 9 ==> #[trigger] layer_bit(gates, l2, c2)
                            == open_cell(*board, 0u64, l2, c2),
                    forall|c2: int|
                        0 <= c2 < cc ==> #[trigger] layer_bit(gates, l as int, c2) == open_cell(
                            *board,
                            0u64,
                            l as int,
                            c2,
                        ),
                    forall|c2: int|
                        cc <= c2 < 9 ==> !#[trigger] layer_bit(gates, l as int, c2),
                    forall|l2: int, c2: int|
                        l < l2 < 4 && 0 <= c2 < 9 ==> !#[trigger] layer_bit(gates, l2, c2),
                    forall|lx: int, gx: int|
                        0 <= lx < 4 && 0 <= gx < 3 ==> #[trigger] shift_of(0u64, lx, gx) == 0,
                decreases 9 - cc,
            {
                let lp = board.layer(l);
                let h = lp.horizontal();
                let gid = if h {
                    cc / 3
                } else {
                    cc % 3
                };
                let gp = lp.gate(gid);
                let t = gp.topleft();
                let ty = gp.gatetype();
                let pos = if h {
                    cc % 3
                } else {
                    cc / 3
                };
                let k = if t {
                    pos
                } else {
                    2 - pos
                };
                proof {
                    lemma_perm_cells(cc as int);
                    assert(gid as int == gate_of_cell(h, cc as int));
                    assert(k as int == canon_pos(h, t, cc as int) % 3);
                    assert(window(ty as int, 0) == init_window(ty as int));
                    assert(win_bit(init_window(ty as int), k as int) == (ty as int == k as int));
                }
                if ty == k {
                    let ghost before = gates;
                    gates = gates | (1u64 << (9 * l + cc));
                    proof {
                        assert forall|l2: int, c2: int| 0 <= l2 < 4 && 0 <= c2 < 9
                            implies #[trigger] layer_bit(gates, l2, c2) == ((l2 == l as int && c2
                            == cc as int) || layer_bit(before, l2, c2)) by {
                            crate::bits::lemma_set_bit36(
                                before,
                                (9 * (l as int) + cc as int) as u64,
                                (9 * l2 + c2) as u64,
                            );
                            assert((9 * l2 + c2 == 9 * (l as int) + cc as int) == (l2 == l as int
                                && c2 == cc as int));
                        }
                        crate::bits::lemma_set_bit36(before, (9 * (l as int) + cc as int) as u64, 0);
                    }
                }
                cc += 1;
            }
            l += 1;
        }

        let mut result = Self { balls: BallBitmask::new(balls), gates, gate_shifts: 0 };
        proof {
            assert forall|k: int| 0 <= k < 9 implies ((#[trigger] col_of(
                result.spec_balls(),
                k,
            ) == 0) == !board.has_ball(k)) by {}
            assert forall|k: int| 0 <= k < 9 && board.has_ball(k) implies #[trigger] depth_of(
                result.spec_balls(),
                k,
            ) == 0 by {
                assert(col_of(result.spec_balls(), k) == 1u64);
                lemma_one_is_shifted_one();
                crate::ball_bitmask::lemma_col_single_facts(result.spec_balls(), k, 0);
            }
            assert forall|k: int|
                0 <= k < 9 implies #[trigger] col_of(result.spec_balls(), k) == 0 || (exists|ll: int|
                0 <= ll <= 4 && col_of(result.spec_balls(), k) == #[trigger] (1u64 << ((9
                    * ll) as u64))) by {
                if col_of(result.spec_balls(), k) != 0 {
                    assert(col_of(result.spec_balls(), k) == 1u64);
                    lemma_one_is_shifted_one();
                    let ll: int = 0;
                    assert(0 <= ll <= 4 && col_of(result.spec_balls(), k) == (1u64 << ((9
                        * ll) as u64)));
                }
            }
            assert(cols_ok(result.spec_balls()));
        }
        result.drop_balls();
        proof {
            assert forall|k: int| 0 <= k < 9 && board.has_ball(k) implies #[trigger] depth_of(
                result.spec_balls(),
                k,
            ) == fall_to(result.spec_gates(), k, 0) by {}
        }
        result
    }

    /// Serialize: the nine column depths in base 5 in the low 21 bits, the
    /// shift counters above them.
    pub fn to_u64(&self) -> (r: u64)
        requires
            cols_ok(self.spec_balls()),
            self.spec_shifts() >> 24 == 0,
        ensures
            (r & 0x1F_FFFF) as int == pack5_from(self.spec_balls(), 0),
            r >> 21 == self.spec_shifts(),
    {
        let ball_bits = self.balls.compress();
        let r = ball_bits | (self.gate_shifts << 21);
        proof {
            let b = ball_bits;
            let sh = self.gate_shifts;
            assert((b | (sh << 21)) & 0x1F_FFFF == b && (b | (sh << 21)) >> 21 == sh)
                by (bit_vector)
                requires
                    b < 0x20_0000,
                    sh >> 24 == 0,
            ;
        }
        r
    }

    /// Deserialize: rebuild the ball mask from the base-5 depths and replay
    /// the recorded number of shifts on every gate.
    pub fn from_u64(state_key: u64, board: &Board) -> (r: Self)
        requires
            board.wf(),
        ensures
            r.inv(*board),
            forall|l: int, g: int|
                0 <= l < 4 && 0 <= g < 3 ==> #[trigger] shift_of(r.spec_shifts(), l, g) == shift_of(
                    state_key >> 21,
                    l,
                    g,
                ),
            forall|c: int|
                0 <= c < 9 && board.has_ball(c) ==> #[trigger] depth_of(r.spec_balls(), c)
                    == crate::ball_bitmask::digit5((state_key & 0x1F_FFFF) as int, c),
    {
        let mut result = Self::build_from_board(board);
        let ghost r0 = result;
        let ball_bits = state_key & 0x1F_FFFF;
        result.balls = BallBitmask::decompress(ball_bits, board);
        proof {
            assert(result.spec_shifts() == r0.spec_shifts());
            assert forall|l: int, g: int| 0 <= l < 4 && 0 <= g < 3 implies #[trigger] shift_of(
                result.spec_shifts(),
                l,
                g,
            ) == 0 by {
                assert(shift_of(r0.spec_shifts(), l, g) == 0);
            }
            assert(result.inv(*board));
        }

        let ghost target = state_key >> 21;
        let mut rest = state_key >> 21;
        proof {
            crate::bits::lemma_zero_word(0, target);
            assert(target >> (2 * (0 as u64)) == target);
        }
        let mut i: u8 = 0;
        while i < 12
            invariant
                i <= 12,
                board.wf(),
                result.inv(*board),
                forall|c: int|
                    0 <= c < 9 && board.has_ball(c) ==> #[trigger] depth_of(result.spec_balls(), c)
                        == crate::ball_bitmask::digit5((state_key & 0x1F_FFFF) as int, c),
                rest == target >> (2 * (i as u64)),
                forall|l: int, g: int|
                    0 <= l < 4 && 0 <= g < 3 && l * 3 + g < i ==> #[trigger] shift_of(
                        result.spec_shifts(),
                        l,
                        g,
                    ) == shift_of(target, l, g),
                forall|l: int, g: int|
                    0 <= l < 4 && 0 <= g < 3 && l * 3 + g >= i ==> #[trigger] shift_of(
                        result.spec_shifts(),
                        l,
                        g,
                    ) == 0,
            decreases 12 - i,
        {
            let layer = i / 3;
            let gate = i % 3;
            proof {
                crate::bits::lemma_zero_word(0, rest);
            }
            let n = (rest & 0b11) as u8;
            proof {
                crate::bits::lemma_divmod3(layer as int, gate as int);
                assert(layer as int == i as int / 3 && gate as int == i as int % 3);
                assert(shift_of(target, layer as int, gate as int) == (rest & 0b11)) by {
                    let ii = i as u64;
                    assert(((layer as int) * 3 + gate as int) == i as int);
                    assert(shift_of(target, layer as int, gate as int) == ((target >> (2 * ii))
                        & 3) as int) by {
                        assert((((layer as int) * 3 + gate as int) * 2) as u64 == 2 * ii);
                    }
                }
            }
            let mut j: u8 = 0;
            while j < n
                invariant
                    j <= n,
                    n <= 3,
                    i < 12,
                    layer < 4,
                    gate < 3,
                    layer as int * 3 + gate as int == i as int,
                    board.wf(),
                    result.inv(*board),
                    forall|c: int|
                        0 <= c < 9 && board.has_ball(c) ==> #[trigger] depth_of(
                            result.spec_balls(),
                            c,
                        ) == crate::ball_bitmask::digit5((state_key & 0x1F_FFFF) as int, c),
                    shift_of(result.spec_shifts(), layer as int, gate as int) == j,
                    forall|l: int, g: int|
                        0 <= l < 4 && 0 <= g < 3 && l * 3 + g < i ==> #[trigger] shift_of(
                            result.spec_shifts(),
                            l,
                            g,
                        ) == shift_of(target, l, g),
                    forall|l: int, g: int|
                        0 <= l < 4 && 0 <= g < 3 && l * 3 + g > i ==> #[trigger] shift_of(
                            result.spec_shifts(),
                            l,
                            g,
                        ) == 0,
                decreases n - j,
            {
                proof {
                    assert(layer as int * 3 + gate as int == i as int);
                }
                result.shift_gate_raw(board, layer, gate);
                j += 1;
            }
            proof {
                let ii = i as u64;
                crate::bits::lemma_shr_chain(target, (2 * ii) as u64, 2);
                assert((2 * ii) as u64 + 2 == 2 * ((i + 1) as u64));
            }
            rest = rest >> 2;
            i += 1;
        }
        result
    }
}

/// Sum twelve 2-bit fields in five bitwise steps.
fn two_bit_array_add(tba: u64) -> (r: u8)
    requires
        tba >> 24 == 0,
    ensures
        r as int == shift_sum(tba, 12),
{
    proof {
        assert(tba < 0x1_0000_0000) by (bit_vector)
            requires
                tba >> 24 == 0,
        ;
        lemma_two_bit_no_overflow(tba, tba, tba, tba);
    }
    let it_one = (tba & 0x0033_3333) + ((tba & 0x00CC_CCCC) >> 2);
    proof {
        lemma_two_bit_no_overflow(tba, it_one, it_one, it_one);
    }
    let it_two = (it_one & 0x000F_0F0F) + ((it_one & 0x00F0_F0F0) >> 4);
    proof {
        lemma_two_bit_no_overflow(tba, it_one, it_two, it_two);
    }
    let it_three = (it_two & 0x00FF_00FF) + ((it_two & 0x0000_FF00) >> 8);
    proof {
        lemma_two_bit_no_overflow(tba, it_one, it_two, it_three);
    }
    let it_four = (it_three & 0xFFFF) + (it_three >> 16);
    proof {
        assert(it_four == ((tba >> 0) & 3) + ((tba >> 2) & 3) + ((tba >> 4) & 3) + ((tba >> 6) & 3)
            + ((tba >> 8) & 3) + ((tba >> 10) & 3) + ((tba >> 12) & 3) + ((tba >> 14) & 3) + ((tba
            >> 16) & 3) + ((tba >> 18) & 3) + ((tba >> 20) & 3) + ((tba >> 22) & 3) && it_four
            <= 48) by (bit_vector)
            requires
                tba >> 24 == 0,
                it_one == (tba & 0x0033_3333) + ((tba & 0x00CC_CCCC) >> 2),
                it_two == (it_one & 0x000F_0F0F) + ((it_one & 0x00F0_F0F0) >> 4),
                it_three == (it_two & 0x00FF_00FF) + ((it_two & 0x0000_FF00) >> 8),
                it_four == (it_three & 0xFFFF) + (it_three >> 16),
        ;
        reveal_with_fuel(shift_sum, 13);
    }
    it_four as u8
}

/// Shifting one by zero gives one.
proof fn lemma_one_is_shifted_one()
    by (bit_vector)
    ensures
        1u64 << ((9 * 0) as u64) == 1u64,
{
}

/// None of the four accumulation steps can overflow a 64-bit word, and
/// each stays within 32 bits.
proof fn lemma_two_bit_no_overflow(a: u64, b: u64, c: u64, d: u64)
    by (bit_vector)
    requires
        b < 0x1_0000_0000,
        c < 0x1_0000_0000,
        d < 0x1_0000_0000,
    ensures
        (a & 0x0033_3333) + ((a & 0x00CC_CCCC) >> 2) < 0x1_0000_0000,
        (b & 0x000F_0F0F) + ((b & 0x00F0_F0F0) >> 4) < 0x1_0000_0000,
        (c & 0x00FF_00FF) + ((c & 0x0000_FF00) >> 8) < 0x1_0000_0000,
        (d & 0xFFFF) + (d >> 16) < 0x1_0000_0000,
{
}

/// Or-ing `0b11` into one counter field sets it to three when it was zero
/// and leaves every other field alone.
proof fn lemma_mask_or3(m: u64, a: u64, b: u64)
    by (bit_vector)
    requires
        a < 24,
        b < 24,
        a % 2 == 0,
        b % 2 == 0,
        m >> 24 == 0,
    ensures
        ((m | (0b11u64 << a)) >> a) & 3 == 3,
        a != b ==> ((m | (0b11u64 << a)) >> b) & 3 == (m >> b) & 3,
        (m | (0b11u64 << a)) >> 24 == 0,
{
}

/// Masking intersects every counter field with the matching mask field.
proof fn lemma_and_fields(s: u64, m: u64, b: u64)
    by (bit_vector)
    requires
        b < 24,
        s >> 24 == 0,
    ensures
        ((m >> b) & 3) == 3 ==> ((s & m) >> b) & 3 == (s >> b) & 3,
        ((m >> b) & 3) == 0 ==> ((s & m) >> b) & 3 == 0,
        (s & m) >> 24 == 0,
{
}

/// Summing the masked counters counts exactly the silver gates' shifts.
proof fn lemma_masked_silver_sum(board: Board, s: u64, masked: u64, n: int)
    requires
        n <= 12,
        forall|l: int, g: int|
            0 <= l < 4 && 0 <= g < 3 ==> #[trigger] shift_of(masked, l, g) == (if board.silver(
                l,
                g,
            ) {
                shift_of(s, l, g)
            } else {
                0int
            }),
    ensures
        shift_sum(masked, n) == silver_shift_sum(board, s, n),
    decreases n,
{
    if n > 0 {
        lemma_masked_silver_sum(board, s, masked, n - 1);
        crate::bits::lemma_divmod3((n - 1) / 3, (n - 1) % 3);
    }
}

/// Two coherent states over one board that agree on every shift counter
/// and on the depth of every ball column are the same state. This is why
/// the 64-bit key, which stores exactly those numbers, round-trips.
pub proof fn lemma_state_determined(board: Board, s: Compact, t: Compact)
    requires
        board.wf(),
        s.inv(board),
        t.inv(board),
        forall|l: int, g: int|
            0 <= l < 4 && 0 <= g < 3 ==> #[trigger] shift_of(t.spec_shifts(), l, g) == shift_of(
                s.spec_shifts(),
                l,
                g,
            ),
        forall|c: int|
            0 <= c < 9 && board.has_ball(c) ==> #[trigger] depth_of(t.spec_balls(), c) == depth_of(
                s.spec_balls(),
                c,
            ),
    ensures
        t == s,
{
    // counters
    assert forall|l: int, g: int| 0 <= l < 4 && 0 <= g < 3 implies #[trigger] shift_of(
        t.spec_shifts(),
        l,
        g,
    ) == shift_of(s.spec_shifts(), l, g) by {}
    assert(shift_of(t.spec_shifts(), 0, 0) == shift_of(s.spec_shifts(), 0, 0));
    assert(shift_of(t.spec_shifts(), 0, 1) == shift_of(s.spec_shifts(), 0, 1));
    assert(shift_of(t.spec_shifts(), 0, 2) == shift_of(s.spec_shifts(), 0, 2));
    assert(shift_of(t.spec_shifts(), 1, 0) == shift_of(s.spec_shifts(), 1, 0));
    assert(shift_of(t.spec_shifts(), 1, 1) == shift_of(s.spec_shifts(), 1, 1));
    assert(shift_of(t.spec_shifts(), 1, 2) == shift_of(s.spec_shifts(), 1, 2));
    assert(shift_of(t.spec_shifts(), 2, 0) == shift_of(s.spec_shifts(), 2, 0));
    assert(shift_of(t.spec_shifts(), 2, 1) == shift_of(s.spec_shifts(), 2, 1));
    assert(shift_of(t.spec_shifts(), 2, 2) == shift_of(s.spec_shifts(), 2, 2));
    assert(shift_of(t.spec_shifts(), 3, 0) == shift_of(s.spec_shifts(), 3, 0));
    assert(shift_of(t.spec_shifts(), 3, 1) == shift_of(s.spec_shifts(), 3, 1));
    assert(shift_of(t.spec_shifts(), 3, 2) == shift_of(s.spec_shifts(), 3, 2));
    crate::bits::lemma_eq_by_fields(t.gate_shifts, s.gate_shifts);
    assert(t.gate_shifts == s.gate_shifts);

    // hole masks
    assert forall|c: int| 0 <= c < 9 implies #[trigger] col_of(t.gates, c) == col_of(
        s.gates,
        c,
    ) by {
        assert forall|l: int| 0 <= l < 4 implies #[trigger] layer_bit(t.gates, l, c) == layer_bit(
            s.gates,
            l,
            c,
        ) by {
            assert(open_cell(board, t.gate_shifts, l, c) == open_cell(board, s.gate_shifts, l, c));
        }
        assert(layer_bit(t.gates, 0, c) == layer_bit(s.gates, 0, c));
        assert(layer_bit(t.gates, 1, c) == layer_bit(s.gates, 1, c));
        assert(layer_bit(t.gates, 2, c) == layer_bit(s.gates, 2, c));
        assert(layer_bit(t.gates, 3, c) == layer_bit(s.gates, 3, c));
        crate::bits::lemma_col_from_bits(t.gates, s.gates, c as u64);
    }
    assert(col_of(t.gates, 0) == col_of(s.gates, 0) && col_of(t.gates, 1) == col_of(s.gates, 1)
        && col_of(t.gates, 2) == col_of(s.gates, 2) && col_of(t.gates, 3) == col_of(s.gates, 3)
        && col_of(t.gates, 4) == col_of(s.gates, 4) && col_of(t.gates, 5) == col_of(s.gates, 5)
        && col_of(t.gates, 6) == col_of(s.gates, 6) && col_of(t.gates, 7) == col_of(s.gates, 7)
        && col_of(t.gates, 8) == col_of(s.gates, 8));
    let tg = t.gates;
    let sg = s.gates;
    assert(tg >> 45 == 0 && sg >> 45 == 0) by (bit_vector)
        requires
            tg >> 36 == 0,
            sg >> 36 == 0,
    ;
    crate::bits::lemma_eq_by_columns(t.gates, s.gates);
    assert(t.gates == s.gates);

    // ball masks
    assert forall|c: int| 0 <= c < 9 implies #[trigger] col_of(t.spec_balls(), c) == col_of(
        s.spec_balls(),
        c,
    ) by {
        if board.has_ball(c) {
            let lt = choose|l: int|
                0 <= l <= 4 && col_of(t.spec_balls(), c) == #[trigger] (1u64 << ((9 * l) as u64));
            let ls = choose|l: int|
                0 <= l <= 4 && col_of(s.spec_balls(), c) == #[trigger] (1u64 << ((9 * l) as u64));
            crate::ball_bitmask::lemma_col_single_facts(t.spec_balls(), c, lt);
            crate::ball_bitmask::lemma_col_single_facts(s.spec_balls(), c, ls);
            assert(lt == ls);
        }
    }
    assert(col_of(t.spec_balls(), 0) == col_of(s.spec_balls(), 0) && col_of(t.spec_balls(), 1)
        == col_of(s.spec_balls(), 1) && col_of(t.spec_balls(), 2) == col_of(s.spec_balls(), 2)
        && col_of(t.spec_balls(), 3) == col_of(s.spec_balls(), 3) && col_of(t.spec_balls(), 4)
        == col_of(s.spec_balls(), 4) && col_of(t.spec_balls(), 5) == col_of(s.spec_balls(), 5)
        && col_of(t.spec_balls(), 6) == col_of(s.spec_balls(), 6) && col_of(t.spec_balls(), 7)
        == col_of(s.spec_balls(), 7) && col_of(t.spec_balls(), 8) == col_of(s.spec_balls(), 8));
    crate::bits::lemma_eq_by_columns(t.spec_balls(), s.spec_balls());
    assert(t.balls == s.balls);
}

/// The canonical-frame rewrite, slide and rewrite back change exactly the
/// shifted gate's cells, in exactly the way one more shift of its window
/// dictates.
#[verifier::rlimit(60)]
proof fn lemma_shift_frame_change(
    board: Board,
    s_old: u64,
    s_new: u64,
    layer: int,
    gate: int,
    g0: u64,
    g1: u64,
    g2: u64,
    g3: u64,
    g4: u64,
    g5: u64,
    h: bool,
    t: bool,
    off: u64,
    )
    requires
        0 <= layer < 4,
        0 <= gate < 3,
        gates_ok(board, s_old, g0),
        h == board.horiz(layer),
        t == board.topleft(layer, gate),
        shift_of(s_old, layer, gate) < 3,
        shift_of(s_new, layer, gate) == shift_of(s_old, layer, gate) + 1,
        forall|l2: int, g2_: int|
            0 <= l2 < 4 && 0 <= g2_ < 3 && !(l2 == layer && g2_ == gate) ==> #[trigger] shift_of(
                s_new,
                l2,
                g2_,
            ) == shift_of(s_old, l2, g2_),
        forall|l2: int, c: int|
            0 <= l2 < 4 && 0 <= c < 9 ==> #[trigger] layer_bit(g1, l2, c) == layer_bit(
                g0,
                l2,
                (if h {
                    c
                } else {
                    tpos(c)
                }),
            ),
        g1 >> 36 == g0 >> 36,
        forall|l2: int, c: int|
            0 <= l2 < 4 && 0 <= c < 9 ==> #[trigger] layer_bit(g2, l2, c) == layer_bit(
                g1,
                l2,
                (if t {
                    c
                } else {
                    mpos(c)
                }),
            ),
        g2 >> 36 == g1 >> 36,
        off == 9 * layer + 3 * gate,
        g3 == (g2 & !(0b111u64 << off)) | ((g2 >> 1) & (0b111u64 << off)) | (0b100u64 << off),
        forall|l2: int, c: int|
            0 <= l2 < 4 && 0 <= c < 9 ==> #[trigger] layer_bit(g4, l2, c) == layer_bit(
                g3,
                l2,
                (if t {
                    c
                } else {
                    mpos(c)
                }),
            ),
        g4 >> 36 == g3 >> 36,
        forall|l2: int, c: int|
            0 <= l2 < 4 && 0 <= c < 9 ==> #[trigger] layer_bit(g5, l2, c) == layer_bit(
                g4,
                l2,
                (if h {
                    c
                } else {
                    tpos(c)
                }),
            ),
        g5 >> 36 == g4 >> 36,
    ensures
        gates_ok(board, s_new, g5),
{
    lemma_window_update_bit(g2, g3, off, 0);
    assert(g5 >> 36 == 0);
    assert forall|l2: int, c2: int| 0 <= l2 < 4 && 0 <= c2 < 9 implies #[trigger] layer_bit(
        g5,
        l2,
        c2,
    ) == open_cell(board, s_new, l2, c2) by {
        lemma_perm_cells(c2);
        let a1 = if h {
            c2
        } else {
            tpos(c2)
        };
        lemma_perm_cells(a1);
        let a2 = if t {
            a1
        } else {
            mpos(a1)
        };
        lemma_perm_cells(a2);
        assert(a2 == canon_pos(h, t, c2));
        assert(a2 / 3 == gate_of_cell(h, c2));
        assert(layer_bit(g5, l2, c2) == layer_bit(g3, l2, a2));

        let idx = (9 * l2 + a2) as u64;
        let own_gate = l2 == layer && gate_of_cell(board.horiz(l2), c2) == gate;
        let gc = gate_of_cell(board.horiz(l2), c2);
        let ty = board.gatetype(l2, gc);
        let s_at_old = shift_of(s_old, l2, gc);
        lemma_window_facts(ty, s_at_old);

        if l2 != layer {
            assert(idx < off || idx > off + 2);
            lemma_window_update_bit(g2, g3, off, idx);
            assert(layer_bit(g3, l2, a2) == layer_bit(g2, l2, a2));
            assert(layer_bit(g2, l2, a2) == layer_bit(g0, l2, c2));
            assert(open_cell(board, s_new, l2, c2) == open_cell(board, s_old, l2, c2));
        } else if gc != gate {
            assert(a2 / 3 != gate);
            assert(idx < off || idx > off + 2);
            lemma_window_update_bit(g2, g3, off, idx);
            assert(layer_bit(g3, l2, a2) == layer_bit(g2, l2, a2));
            let b1 = if t {
                a2
            } else {
                mpos(a2)
            };
            lemma_perm_cells(b1);
            assert(layer_bit(g2, l2, a2) == layer_bit(g1, l2, b1));
            assert((if h {
                b1
            } else {
                tpos(b1)
            }) == c2);
            assert(layer_bit(g1, l2, b1) == layer_bit(g0, l2, c2));
            assert(open_cell(board, s_new, l2, c2) == open_cell(board, s_old, l2, c2));
        } else {
            // the shifted gate's own cells
            let t2 = board.topleft(l2, gc);
            assert(t2 == t);
            let k = a2 % 3;
            assert(a2 == 3 * gate + k);
            assert(idx == off + k);
            lemma_window_update_bit(g2, g3, off, idx);
            if k == 2 {
                assert(layer_bit(g3, l2, a2));
                assert(win_bit(window(ty, s_at_old + 1), 2));
            } else {
                let a3 = a2 + 1;
                assert(off <= idx < off + 2);
                assert(layer_bit(g3, l2, a2) == bit64(g2, (idx + 1) as u64));
                assert((9 * l2 + a3) as u64 == (idx + 1) as u64);
                assert(layer_bit(g3, l2, a2) == layer_bit(g2, l2, a3));
                lemma_perm_cells(a3);
                let b1 = if t {
                    a3
                } else {
                    mpos(a3)
                };
                lemma_perm_cells(b1);
                let c3 = if h {
                    b1
                } else {
                    tpos(b1)
                };
                lemma_perm_cells(c3);
                assert(layer_bit(g2, l2, a3) == layer_bit(g1, l2, b1));
                assert(layer_bit(g1, l2, b1) == layer_bit(g0, l2, c3));
                // c3 is a cell of the same gate, one slot further along
                assert(canon_pos(h, t, c3) == a3);
                assert(gate_of_cell(h, c3) == gate);
                assert(layer_bit(g0, l2, c3) == open_cell(board, s_old, l2, c3));
                assert(open_cell(board, s_old, l2, c3) == win_bit(window(ty, s_at_old), k + 1));
                assert(win_bit(window(ty, s_at_old + 1), k) == win_bit(
                    window(ty, s_at_old),
                    k + 1,
                ));
            }
        }
    }
}

} // verus!
