//! Ball positions as a 64-bit mask: bit `9*l + c` holds a ball of cell `c`
//! at layer `l`, with layer 4 meaning the ball has left the cube. Gravity
//! moves balls straight down their column through open holes.

use vstd::prelude::*;

use crate::bits::{bit64, COLUMN_MASK};
use crate::board::Board;

verus! {

use vstd::assert_by_contradiction;

/// The bit of `word` at layer `l`, cell `c`.
pub open spec fn layer_bit(word: u64, l: int, c: int) -> bool {
    bit64(word, (9 * l + c) as u64)
}

/// The five layer bits of ball column `c`, shifted down to column zero.
pub open spec fn col_of(balls: u64, c: int) -> u64 {
    (balls >> (c as u64)) & COLUMN_MASK
}

/// First layer at or below `l` where a ball of column `c` would come to
/// rest: layers are scanned downward while they are open, stopping at the
/// first closed cell or at layer 4 (out of the cube).
pub open spec fn fall_to(gates: u64, c: int, l: int) -> int
    decreases 4 - l,
{
    if l < 0 {
        l
    } else if l >= 4 {
        4
    } else if layer_bit(gates, l, c) {
        fall_to(gates, c, l + 1)
    } else {
        l
    }
}

/// Layer of the ball in column `c`, starting the scan at layer `l`;
/// 4 when the column holds no bit below layer 4.
pub open spec fn depth_from(balls: u64, c: int, l: int) -> int
    decreases 5 - l,
{
    if l >= 4 {
        4
    } else if layer_bit(balls, l, c) {
        l
    } else {
        depth_from(balls, c, l + 1)
    }
}

/// Layer of the ball in column `c` of `balls`; 4 for an empty column.
pub open spec fn depth_of(balls: u64, c: int) -> int {
    depth_from(balls, c, 0)
}

/// Every ball column holds at most one bit, and nothing sits above bit 44.
pub open spec fn cols_ok(balls: u64) -> bool {
    &&& balls >> 45 == 0
    &&& forall|c: int|
        0 <= c < 9 ==> (#[trigger] col_of(balls, c) == 0 || exists|l: int|
            0 <= l <= 4 && col_of(balls, c) == #[trigger] (1u64 << ((9 * l) as u64)))
}

/// The mask holds exactly one ball per cell that the board populates, and
/// none for the empty cell.
pub open spec fn balls_wf(balls: u64, board: Board) -> bool {
    &&& cols_ok(balls)
    &&& forall|c: int|
        0 <= c < 9 ==> ((#[trigger] col_of(balls, c) == 0) == !board.has_ball(c))
}

/// Base-5 packing of the column depths of `balls`, starting at column `c`:
/// column `c` is the least significant digit.
pub open spec fn pack5_from(balls: u64, c: int) -> int
    decreases 9 - c,
{
    if c >= 9 {
        0
    } else {
        depth_of(balls, c) + 5 * pack5_from(balls, c + 1)
    }
}

/// The `c`-th base-5 digit of `v`.
pub open spec fn digit5(v: int, c: int) -> int
    decreases c,
{
    if c <= 0 {
        v % 5
    } else {
        digit5(v / 5, c - 1)
    }
}

pub open spec fn pow5(n: nat) -> int
    decreases n,
{
    if n == 0 {
        1
    } else {
        5 * pow5((n - 1) as nat)
    }
}

proof fn lemma_pow5_mono(n: nat, m: nat)
    requires
        n <= m,
    ensures
        0 < pow5(n) <= pow5(m),
    decreases m,
{
    if m > 0 {
        if n == m {
            lemma_pow5_mono((n - 1) as nat, (m - 1) as nat);
        } else {
            lemma_pow5_mono(n, (m - 1) as nat);
        }
    }
}

pub(crate) proof fn lemma_pow5_bounds(n: nat)
    requires
        n <= 9,
    ensures
        0 < pow5(n) <= 1953125,
{
    lemma_pow5_mono(n, 9);
    reveal_with_fuel(pow5, 10);
    assert(pow5(9) == 1953125);
}

/// The packed depths fit below `pow5` of the number of packed columns.
pub(crate) proof fn lemma_pack5_bound(balls: u64, c: int)
    requires
        0 <= c <= 9,
    ensures
        0 <= pack5_from(balls, c) < pow5((9 - c) as nat),
    decreases 9 - c,
{
    if c < 9 {
        lemma_pack5_bound(balls, c + 1);
        lemma_depth_bounds(balls, c);
        assert(pow5((9 - c) as nat) == 5 * pow5((9 - (c + 1)) as nat));
    }
}

/// Unpacking recovers every packed depth.
pub(crate) proof fn lemma_pack5_digit(balls: u64, c: int, k: int)
    requires
        0 <= c,
        0 <= k,
        c + k < 9,
    ensures
        digit5(pack5_from(balls, c), k) == depth_of(balls, c + k),
    decreases k,
{
    let d = depth_of(balls, c);
    let rest = pack5_from(balls, c + 1);
    lemma_depth_bounds(balls, c);
    lemma_pack5_bound(balls, c + 1);
    crate::bits::lemma_divmod(5, d, rest);
    if k == 0 {
    } else {
        assert(pack5_from(balls, c) / 5 == rest);
        lemma_pack5_digit(balls, c + 1, k - 1);
    }
}

/// Column extraction commutes with one parallel gravity step.
proof fn lemma_col_extract(b: u64, g: u64, c: u64)
    by (bit_vector)
    requires
        c < 9,
        b >> 45 == 0,
        g >> 36 == 0,
    ensures
        ((b ^ ((b & g) | ((b & g) << 9))) >> c) & 0x10_0804_0201 == (((b >> c) & 0x10_0804_0201) ^ (
        (((b >> c) & 0x10_0804_0201) & ((g >> c) & 0x10_0804_0201)) | ((((b >> c) & 0x10_0804_0201)
            & ((g >> c) & 0x10_0804_0201)) << 9))),
        (b ^ ((b & g) | ((b & g) << 9))) >> 45 == 0,
        ((b & g) >> c) & 0x10_0804_0201 == ((b >> c) & 0x10_0804_0201) & ((g >> c)
            & 0x10_0804_0201),
{
}

/// One gravity step on a single extracted column: a lone ball over an open
/// hole moves down one layer, anything else stays put.
proof fn lemma_col_step(cb: u64, cg: u64, d: u64)
    by (bit_vector)
    requires
        d <= 4,
        cg & !0x10_0804_0201u64 == 0,
        cg >> 36 == 0,
    ensures
        cb == 0 ==> (cb ^ ((cb & cg) | ((cb & cg) << 9))) == 0,
        cb == 1u64 << ((9 * d) as u64) && bit64(cg, (9 * d) as u64) ==> (cb ^ ((cb & cg) | ((cb
            & cg) << 9))) == 1u64 << ((9 * (d + 1)) as u64),
        cb == 1u64 << ((9 * d) as u64) && !bit64(cg, (9 * d) as u64) ==> (cb ^ ((cb & cg) | ((cb
            & cg) << 9))) == cb,
        cb == 1u64 << ((9 * d) as u64) && !bit64(cg, (9 * d) as u64) ==> cb & cg == 0,
{
}

/// A bit of an extracted column is the matching bit of the full mask, and
/// a one-hot column word has exactly its own bit set.
proof fn lemma_col_bit(x: u64, c: u64, l: u64, j: u64)
    by (bit_vector)
    requires
        c < 9,
        l <= 4,
        j <= 4,
    ensures
        bit64((x >> c) & 0x10_0804_0201, (9 * l) as u64) == bit64(x, (9 * l + c) as u64),
        bit64(1u64 << ((9 * l) as u64), (9 * j) as u64) == (j == l),
        1u64 << ((9 * l) as u64) != 0,
{
}

/// The layer scan starts no higher than where it began and ends by layer 4.
pub(crate) proof fn lemma_depth_bounds(balls: u64, c: int)
    ensures
        0 <= depth_of(balls, c) <= 4,
{
    reveal_with_fuel(depth_from, 6);
}

/// The extracted column of a one-hot word: its own column keeps the bit,
/// every other column is empty.
pub(crate) proof fn lemma_col_of_single(d: u64, c: u64, c2: u64, x: u64)
    by (bit_vector)
    requires
        d <= 4,
        c < 9,
        c2 < 9,
        x >> 45 == 0,
    ensures
        c2 == c ==> ((x | (1u64 << ((9 * d + c) as u64))) >> c2) & 0x10_0804_0201 == (((x >> c2)
            & 0x10_0804_0201) | (1u64 << ((9 * d) as u64))),
        c2 != c ==> ((x | (1u64 << ((9 * d + c) as u64))) >> c2) & 0x10_0804_0201 == ((x >> c2)
            & 0x10_0804_0201),
        (x | (1u64 << ((9 * d + c) as u64))) >> 45 == 0,
{
}

/// A word whose nine extracted columns are all zero, and whose bits above
/// 44 are clear, is zero.
proof fn lemma_zero_by_columns(x: u64)
    by (bit_vector)
    requires
        x >> 45 == 0,
        (x >> 0) & 0x10_0804_0201 == 0,
        (x >> 1) & 0x10_0804_0201 == 0,
        (x >> 2) & 0x10_0804_0201 == 0,
        (x >> 3) & 0x10_0804_0201 == 0,
        (x >> 4) & 0x10_0804_0201 == 0,
        (x >> 5) & 0x10_0804_0201 == 0,
        (x >> 6) & 0x10_0804_0201 == 0,
        (x >> 7) & 0x10_0804_0201 == 0,
        (x >> 8) & 0x10_0804_0201 == 0,
    ensures
        x == 0,
{
}

/// From a one-hot column word, every layer bit of the column is known, and
/// so is the column's depth.
pub(crate) proof fn lemma_col_single_facts(balls: u64, c: int, d: int)
    requires
        0 <= c < 9,
        0 <= d <= 4,
        col_of(balls, c) == 1u64 << ((9 * d) as u64),
    ensures
        forall|l: int| 0 <= l <= 4 ==> layer_bit(balls, l, c) == (l == d),
        depth_of(balls, c) == d,
{
    assert forall|l: int| 0 <= l <= 4 implies layer_bit(balls, l, c) == (l == d) by {
        lemma_col_bit(balls, c as u64, l as u64, l as u64);
        lemma_col_bit(balls, c as u64, d as u64, l as u64);
    }
    lemma_depth_from_pointwise(balls, c, d, 0);
}

/// From per-layer bit knowledge of a column to its depth.
proof fn lemma_depth_from_pointwise(balls: u64, c: int, d: int, l: int)
    requires
        0 <= c < 9,
        0 <= l <= d <= 4,
        forall|j: int| 0 <= j <= 4 ==> layer_bit(balls, j, c) == (j == d),
    ensures
        depth_from(balls, c, l) == d,
    decreases 4 - l,
{
    if l < 4 && l < d {
        lemma_depth_from_pointwise(balls, c, d, l + 1);
    }
}

/// An empty column has no layer bits and depth 4.
pub(crate) proof fn lemma_col_empty_facts(balls: u64, c: int)
    requires
        0 <= c < 9,
        col_of(balls, c) == 0,
    ensures
        forall|l: int| 0 <= l <= 4 ==> !layer_bit(balls, l, c),
        depth_of(balls, c) == 4,
{
    assert forall|l: int| 0 <= l <= 4 implies !layer_bit(balls, l, c) by {
        lemma_col_bit(balls, c as u64, l as u64, l as u64);
        crate::bits::lemma_zero_word((9 * l) as u64, 0);
    }
    lemma_depth_from_empty(balls, c, 0);
}

proof fn lemma_depth_from_empty(balls: u64, c: int, l: int)
    requires
        0 <= c < 9,
        0 <= l <= 4,
        forall|j: int| 0 <= j <= 4 ==> !layer_bit(balls, j, c),
    ensures
        depth_from(balls, c, l) == 4,
    decreases 4 - l,
{
    if l < 4 {
        lemma_depth_from_empty(balls, c, l + 1);
    }
}

/// Falling never raises a ball, and stops exactly at the first closed
/// layer.
pub(crate) proof fn lemma_fall_to_bounds(gates: u64, c: int, l: int)
    requires
        0 <= l <= 4,
    ensures
        l <= fall_to(gates, c, l) <= 4,
        fall_to(gates, c, l) < 4 ==> !layer_bit(gates, fall_to(gates, c, l), c),
    decreases 4 - l,
{
    if l < 4 && layer_bit(gates, l, c) {
        lemma_fall_to_bounds(gates, c, l + 1);
    }
}

/// Compact ball storage, one bit per ball.
#[derive(Clone, Copy, PartialEq, Eq, Structural, Debug)]
pub struct BallBitmask {
    pub(crate) mask: u64,
}

impl BallBitmask {
    /// Bits needed by the base-5 encoding of the nine column depths:
    /// 5^9 = 1953125 fits in 21 bits.
    pub const COMPRESSED_BITSIZE: u32 = 21;

    /// The raw 64-bit ball mask.
    pub open(crate) spec fn spec_mask(self) -> u64 {
        self.mask
    }

    pub fn new(mask: u64) -> (r: Self)
        ensures
            r.spec_mask() == mask,
    {
        Self { mask }
    }

    /// The raw 64-bit ball mask.
    pub fn get_mask(self) -> (r: u64)
        ensures
            r == self.spec_mask(),
    {
        self.mask
    }

    /// The layer of each of the nine ball columns; 4 for a column whose
    /// ball has left the cube and for the cell that never had one.
    pub fn depth(self) -> (r: [u8; 9])
        requires
            cols_ok(self.spec_mask()),
        ensures
            forall|c: int| 0 <= c < 9 ==> r[c] as int == depth_of(self.spec_mask(), c),
    {
        let mut result = [0u8; 9];
        let mut c: usize = 0;
        while c < 9
            invariant
                c <= 9,
                cols_ok(self.mask),
                forall|k: int| 0 <= k < c ==> result[k] as int == depth_of(self.mask, k),
            decreases 9 - c,
        {
            let mut l: u8 = 0;
            while l < 4 && (self.mask >> (9 * l + (c as u8))) & 1 != 1
                invariant
                    l <= 4,
                    c < 9,
                    forall|j: int| 0 <= j < l ==> !layer_bit(self.mask, j, c as int),
                decreases 4 - l,
            {
                l += 1;
            }
            proof {
                if l == 4 {
                    lemma_depth_step_chain(self.mask, c as int);
                } else {
                    assert(layer_bit(self.mask, l as int, c as int));
                    lemma_depth_step_chain_hit(self.mask, c as int, l as int);
                }
            }
            result[c] = l;
            c += 1;
        }
        result
    }

    /// Pack the nine column depths into one base-5 number.
    pub fn compress(self) -> (r: u64)
        requires
            cols_ok(self.spec_mask()),
        ensures
            r as int == pack5_from(self.spec_mask(), 0),
            r < 1953125,
    {
        let depths = self.depth();
        let mut r: u64 = 0;
        let mut c: usize = 9;
        while c > 0
            invariant
                c <= 9,
                cols_ok(self.mask),
                forall|k: int| 0 <= k < 9 ==> depths[k] as int == depth_of(self.mask, k),
                r as int == pack5_from(self.mask, c as int),
                (r as int) < pow5((9 - c) as nat),
            decreases c,
        {
            c -= 1;
            proof {
                lemma_pow5_bounds((9 - c) as nat);
                lemma_depth_bounds(self.mask, c as int);
            }
            r = r * 5 + depths[c] as u64;
        }
        proof {
            lemma_pack5_bound(self.mask, 0);
            lemma_pow5_bounds(9);
        }
        r
    }

    /// Unpack base-5 column depths into a ball mask: one ball at the stored
    /// depth for every cell the board populates, nothing elsewhere.
    pub fn decompress(compressed_balls: u64, board: &Board) -> (r: Self)
        ensures
            balls_wf(r.spec_mask(), *board),
            forall|c: int|
                0 <= c < 9 && board.has_ball(c) ==> depth_of(r.spec_mask(), c) == digit5(
                    compressed_balls as int,
                    c,
                ),
    {
        let ghost orig = compressed_balls;
        let mut depths = [0u8; 9];
        let mut v = compressed_balls;
        let mut c: usize = 0;
        while c < 9
            invariant
                c <= 9,
                forall|k: int| 0 <= k < c ==> depths[k] as int == digit5(orig as int, k),
                forall|k: int| 0 <= k < c ==> #[trigger] depths[k] < 5,
                forall|k: int|
                    c <= k < 9 ==> #[trigger] digit5(orig as int, k) == digit5(v as int, k - c),
            decreases 9 - c,
        {
            proof {
                assert(digit5(v as int, 0) == v as int % 5);
                assert(digit5(orig as int, c as int) == digit5(v as int, 0));
                assert(v as int / 5 == (v / 5) as int);
                assert forall|k: int| c + 1 <= k < 9 implies #[trigger] digit5(orig as int, k)
                    == digit5((v / 5) as int, k - (c + 1)) by {
                    assert(digit5(orig as int, k) == digit5(v as int, k - c));
                    assert(digit5(v as int, k - c) == digit5(v as int / 5, k - c - 1));
                }
            }
            depths[c] = (v % 5) as u8;
            v = v / 5;
            c += 1;
        }

        let mut mask: u64 = 0;
        proof {
            assert forall|k: int| 0 <= k < 9 implies #[trigger] col_of(0u64, k) == 0 by {
                crate::bits::lemma_zero_word(k as u64, 0);
            }
            crate::bits::lemma_zero_word(45, 0);
        }
        let mut index: u8 = 0;
        while index < 9
            invariant
                index <= 9,
                mask >> 45 == 0,
                forall|k: int| 0 <= k < 9 ==> #[trigger] depths[k] < 5,
                forall|k: int| 0 <= k < 9 ==> depths[k] as int == digit5(orig as int, k),
                forall|k: int|
                    0 <= k < index ==> #[trigger] col_of(mask, k) == (if board.has_ball(k) {
                        1u64 << ((9 * (depths[k] as int)) as u64)
                    } else {
                        0u64
                    }),
                forall|k: int| index <= k < 9 ==> #[trigger] col_of(mask, k) == 0,
            decreases 9 - index,
        {
            if board.ball(index).is_some() {
                let d = depths[index as usize];
                let ghost before = mask;
                mask = mask | (1u64 << (d * 9 + index));
                proof {
                    assert forall|k: int| 0 <= k < 9 implies #[trigger] col_of(mask, k) == (if k
                        == index as int {
                        col_of(before, k) | (1u64 << ((9 * (d as int)) as u64))
                    } else {
                        col_of(before, k)
                    }) by {
                        lemma_col_of_single(d as u64, index as u64, k as u64, before);
                        assert((d * 9 + index) as u64 == (9 * (d as int) + index as int) as u64);
                    }
                    assert(col_of(mask, index as int) == 1u64 << ((9 * (d as int)) as u64)) by {
                        crate::bits::lemma_zero_word(0, 1u64 << ((9 * (d as int)) as u64));
                    }
                    lemma_col_of_single(d as u64, index as u64, 0, before);
                }
            }
            index += 1;
        }
        proof {
            assert forall|c2: int| 0 <= c2 < 9 && board.has_ball(c2) implies depth_of(mask, c2)
                == digit5(orig as int, c2) by {
                lemma_col_single_facts(mask, c2, depths[c2] as int);
            }
            assert forall|c2: int| 0 <= c2 < 9 implies ((#[trigger] col_of(mask, c2) == 0)
                == !board.has_ball(c2)) by {
                if board.has_ball(c2) {
                    lemma_col_bit(mask, c2 as u64, depths[c2] as u64, depths[c2] as u64);
                }
            }
        }
        Self { mask }
    }

    pub fn drop(&mut self, gate_bitmask: u64)
        requires
            cols_ok(old(self).spec_mask()),
            gate_bitmask >> 36 == 0,
        ensures
            cols_ok(final(self).spec_mask()),
            final(self).spec_mask() & gate_bitmask == 0,
            forall|c: int|
                0 <= c < 9 ==> depth_of(final(self).spec_mask(), c) == fall_to(
                    gate_bitmask,
                    c,
                    depth_of(old(self).spec_mask(), c),
                ),
            forall|c: int|
                0 <= c < 9 ==> ((#[trigger] col_of(final(self).spec_mask(), c) == 0) == (col_of(
                    old(self).spec_mask(),
                    c,
                ) == 0)),
    {
        let ghost orig = self.mask;
        let ghost mut k: int = 0;
        proof {
            assert forall|c: int| 0 <= c < 9 implies #[trigger] depth_of(self.mask, c) >= 0 by {
                lemma_depth_bounds(self.mask, c);
            }
        }
        while self.mask & gate_bitmask != 0
            invariant
                cols_ok(self.mask),
                gate_bitmask >> 36 == 0,
                0 <= k <= 4,
                forall|c: int|
                    0 <= c < 9 ==> fall_to(gate_bitmask, c, #[trigger] depth_of(self.mask, c))
                        == fall_to(gate_bitmask, c, depth_of(orig, c)),
                forall|c: int|
                    0 <= c < 9 ==> ((#[trigger] col_of(self.mask, c) == 0) == (col_of(orig, c)
                        == 0)),
                forall|c: int|
                    0 <= c < 9 && #[trigger] depth_of(self.mask, c) <= 3 && layer_bit(
                        self.mask,
                        depth_of(self.mask, c),
                        c,
                    ) && layer_bit(gate_bitmask, depth_of(self.mask, c), c) ==> depth_of(
                        self.mask,
                        c,
                    ) >= k,
            decreases 4 - k,
        {
            proof {
                lemma_guard_gives_hole(self.mask, gate_bitmask);
                let cw = choose|c: int|
                    0 <= c < 9 && #[trigger] depth_of(self.mask, c) <= 3 && layer_bit(
                        self.mask,
                        depth_of(self.mask, c),
                        c,
                    ) && layer_bit(gate_bitmask, depth_of(self.mask, c), c);
                assert(k <= depth_of(self.mask, cw) <= 3);
            }
            let before = Ghost(self.mask);
            let dropped_balls = self.mask & gate_bitmask;
            self.mask = self.mask ^ (dropped_balls | (dropped_balls << 9));
            proof {
                let g = gate_bitmask;
                lemma_drop_step_columns(before@, g);
                assert forall|c: int|
                    #![trigger col_of(self.mask, c)]
                    #![trigger depth_of(self.mask, c)]
                    0 <= c < 9 implies fall_to(g, c, depth_of(self.mask, c)) == fall_to(
                    g,
                    c,
                    depth_of(orig, c),
                ) && ((col_of(self.mask, c) == 0) == (col_of(orig, c) == 0)) && (depth_of(
                    self.mask,
                    c,
                ) <= 3 && layer_bit(self.mask, depth_of(self.mask, c), c) && layer_bit(
                    g,
                    depth_of(self.mask, c),
                    c,
                ) ==> depth_of(self.mask, c) >= k + 1) by {
                    assert(col_of(before@, c) == col_of(before@, c));
                    if col_of(before@, c) == 0 {
                        lemma_col_empty_facts(before@, c);
                        lemma_col_empty_facts(self.mask, c);
                    } else {
                        let l = choose|l: int|
                            0 <= l <= 4 && col_of(before@, c) == #[trigger] (1u64 << ((9
                                * l) as u64));
                        lemma_col_single_facts(before@, c, l);
                        let d = depth_of(before@, c);
                        assert(d == l);
                        if d <= 3 && layer_bit(g, d, c) {
                            assert(col_of(self.mask, c) == 1u64 << ((9 * (d + 1)) as u64));
                            lemma_col_single_facts(self.mask, c, d + 1);
                            assert(fall_to(g, c, d) == fall_to(g, c, d + 1));
                            lemma_col_bit(self.mask, c as u64, (d + 1) as u64, (d + 1) as u64);
                        } else {
                            assert(col_of(self.mask, c) == col_of(before@, c));
                            lemma_col_single_facts(self.mask, c, d);
                        }
                    }
                }
                k = k + 1;
            }
        }
        proof {
            let g = gate_bitmask;
            assert forall|c: int| 0 <= c < 9 implies #[trigger] depth_of(self.mask, c) == fall_to(
                g,
                c,
                depth_of(orig, c),
            ) by {
                assert(col_of(self.mask, c) == col_of(self.mask, c));
                if col_of(self.mask, c) == 0 {
                    lemma_col_empty_facts(self.mask, c);
                } else {
                    let l = choose|l: int|
                        0 <= l <= 4 && col_of(self.mask, c) == #[trigger] (1u64 << ((9
                            * l) as u64));
                    lemma_col_single_facts(self.mask, c, l);
                    let d = depth_of(self.mask, c);
                    assert(d == l);
                    if d <= 3 {
                        assert(!layer_bit(g, d, c)) by {
                            if layer_bit(g, d, c) {
                                assert(layer_bit(self.mask, d, c));
                                crate::bits::lemma_bit_ops(self.mask, g, (9 * d + c) as u64);
                                assert(bit64(self.mask & g, (9 * d + c) as u64));
                                assert(self.mask & g == 0);
                                crate::bits::lemma_zero_word((9 * d + c) as u64, 0);
                            }
                        }
                    }
                }
            }
        }
    }
}

/// When no ball sits on an open hole, the masks do not overlap.
pub(crate) proof fn lemma_no_overlap(b: u64, g: u64)
    requires
        cols_ok(b),
        g >> 36 == 0,
        forall|c: int|
            0 <= c < 9 && #[trigger] depth_of(b, c) <= 3 ==> !(layer_bit(b, depth_of(b, c), c)
                && layer_bit(g, depth_of(b, c), c)),
    ensures
        b & g == 0,
{
    assert forall|c: int| 0 <= c < 9 implies #[trigger] col_of(b & g, c) == 0 by {
        lemma_col_extract(b, g, c as u64);
        let cu = c as u64;
        let cb = col_of(b, c);
        let cg = (g >> cu) & COLUMN_MASK;
        assert(cg & !0x10_0804_0201u64 == 0 && cg >> 36 == 0) by (bit_vector)
            requires
                cg == (g >> cu) & 0x10_0804_0201u64,
                g >> 36 == 0,
                cu < 9,
        ;
        if cb == 0 {
            assert(cb & cg == 0) by (bit_vector)
                requires
                    cb == 0,
            ;
        } else {
            let l = choose|l: int| 0 <= l <= 4 && cb == #[trigger] (1u64 << ((9 * l) as u64));
            lemma_col_single_facts(b, c, l);
            if l <= 3 {
                assert(layer_bit(b, l, c));
                assert(!layer_bit(g, l, c));
                lemma_col_bit(g, c as u64, l as u64, l as u64);
                lemma_col_step(cb, cg, l as u64);
            } else {
                assert(!bit64(cg, (9 * 4) as u64)) by (bit_vector)
                    requires
                        cg >> 36 == 0,
                ;
                lemma_col_step(cb, cg, 4);
            }
        }
    }
    let m = b & g;
    assert(m >> 45 == 0) by (bit_vector)
        requires
            m == b & g,
            b >> 45 == 0,
    ;
    assert(col_of(m, 0) == 0 && col_of(m, 1) == 0 && col_of(m, 2) == 0 && col_of(m, 3) == 0
        && col_of(m, 4) == 0 && col_of(m, 5) == 0 && col_of(m, 6) == 0 && col_of(m, 7) == 0
        && col_of(m, 8) == 0);
    lemma_zero_by_columns(m);
}

/// A nonzero overlap means some ball sits on an open hole.
proof fn lemma_guard_gives_hole(b: u64, g: u64)
    requires
        cols_ok(b),
        g >> 36 == 0,
        b & g != 0,
    ensures
        exists|c: int|
            0 <= c < 9 && #[trigger] depth_of(b, c) <= 3 && layer_bit(b, depth_of(b, c), c)
                && layer_bit(g, depth_of(b, c), c),
{
    assert_by_contradiction!(exists|c: int|
        0 <= c < 9 && #[trigger] depth_of(b, c) <= 3 && layer_bit(b, depth_of(b, c), c)
            && layer_bit(g, depth_of(b, c), c), {
        lemma_no_overlap(b, g);
    });
}

/// One parallel gravity step, described column by column.
proof fn lemma_drop_step_columns(b: u64, g: u64)
    requires
        cols_ok(b),
        g >> 36 == 0,
    ensures
        cols_ok(b ^ ((b & g) | ((b & g) << 9))),
        forall|c: int|
            #![trigger col_of(b, c)]
            #![trigger col_of(b ^ ((b & g) | ((b & g) << 9u64)), c)]
            0 <= c < 9 ==> {
                let nb = b ^ ((b & g) | ((b & g) << 9));
                let d = depth_of(b, c);
                &&& (col_of(b, c) == 0 ==> col_of(nb, c) == 0 && depth_of(nb, c) == 4)
                &&& (col_of(b, c) != 0 && d <= 3 && layer_bit(g, d, c) ==> col_of(nb, c)
                    == 1u64 << ((9 * (d + 1)) as u64) && depth_of(nb, c) == d + 1)
                &&& (col_of(b, c) != 0 && (d == 4 || !layer_bit(g, d, c)) ==> col_of(
                    nb,
                    c,
                ) == col_of(b, c) && depth_of(nb, c) == d)
            },
{
    let nb = b ^ ((b & g) | ((b & g) << 9));
    assert forall|c: int|
        #![trigger col_of(b, c)]
        #![trigger col_of(b ^ ((b & g) | ((b & g) << 9u64)), c)]
        0 <= c < 9 implies {
        let d = depth_of(b, c);
        &&& (col_of(b, c) == 0 ==> col_of(nb, c) == 0 && depth_of(nb, c) == 4)
        &&& (col_of(b, c) != 0 && d <= 3 && layer_bit(g, d, c) ==> col_of(nb, c) == 1u64
            << ((9 * (d + 1)) as u64) && depth_of(nb, c) == d + 1)
        &&& (col_of(b, c) != 0 && (d == 4 || !layer_bit(g, d, c)) ==> col_of(nb, c)
            == col_of(b, c) && depth_of(nb, c) == d)
        &&& (col_of(nb, c) == 0 || exists|l: int|
            0 <= l <= 4 && col_of(nb, c) == #[trigger] (1u64 << ((9 * l) as u64)))
    } by {
        lemma_col_extract(b, g, c as u64);
        let cu = c as u64;
        let cb = col_of(b, c);
        let cg = (g >> cu) & COLUMN_MASK;
        assert(cg & !0x10_0804_0201u64 == 0 && cg >> 36 == 0) by (bit_vector)
            requires
                cg == (g >> cu) & 0x10_0804_0201u64,
                g >> 36 == 0,
                cu < 9,
        ;
        if cb == 0 {
            lemma_col_step(cb, cg, 0);
            lemma_col_empty_facts(b, c);
            lemma_col_empty_facts(nb, c);
        } else {
            let l = choose|l: int| 0 <= l <= 4 && cb == #[trigger] (1u64 << ((9 * l) as u64));
            lemma_col_single_facts(b, c, l);
            lemma_col_bit(g, c as u64, l as u64, l as u64);
            lemma_col_step(cb, cg, l as u64);
            let d = depth_of(b, c);
            assert(d == l);
            if d <= 3 && layer_bit(g, d, c) {
                assert(bit64(cg, (9 * l) as u64));
                assert(col_of(nb, c) == 1u64 << ((9 * (l + 1)) as u64));
                lemma_col_single_facts(nb, c, l + 1);
            } else {
                if d == 4 {
                    assert(!bit64(cg, (9 * 4) as u64)) by (bit_vector)
                        requires
                            cg >> 36 == 0,
                    ;
                }
                assert(!bit64(cg, (9 * l) as u64));
                assert(col_of(nb, c) == cb);
                lemma_col_single_facts(nb, c, l);
            }
        }
    }
    assert(nb >> 45 == 0) by {
        lemma_col_extract(b, g, 0);
    }
}

/// A column with no bit in layers 0..4 has depth 4.
proof fn lemma_depth_step_chain(balls: u64, c: int)
    requires
        0 <= c < 9,
        forall|j: int| 0 <= j < 4 ==> !layer_bit(balls, j, c),
    ensures
        depth_of(balls, c) == 4,
{
    reveal_with_fuel(depth_from, 6);
}

/// A column whose first set bit is at layer `d` has depth `d`.
proof fn lemma_depth_step_chain_hit(balls: u64, c: int, d: int)
    requires
        0 <= c < 9,
        0 <= d < 4,
        bit64(balls, (9 * d + c) as u64),
        forall|j: int| 0 <= j < d ==> !layer_bit(balls, j, c),
    ensures
        depth_of(balls, c) == d,
{
    reveal_with_fuel(depth_from, 6);
}

/// Number of set bits of a word.
pub open spec fn pop64(x: u64) -> int
    decreases x,
{
    if x == 0 {
        0
    } else {
        (x % 2) as int + pop64(x / 2)
    }
}

/// Setting a clear bit raises the population count by one.
proof fn lemma_pop_set(x: u64, j: u64)
    requires
        j < 64,
        !bit64(x, j),
    ensures
        pop64(x | (1u64 << j)) == pop64(x) + 1,
    decreases j,
{
    if j == 0 {
        assert((x | (1u64 << 0)) % 2 == 1 && x % 2 == 0 && (x | (1u64 << 0)) / 2 == x / 2 && (x | (
        1u64 << 0)) != 0) by (bit_vector)
            requires
                !bit64(x, 0u64),
        ;
    } else {
        assert((x | (1u64 << j)) % 2 == x % 2 && (x | (1u64 << j)) / 2 == (x / 2) | (1u64 << ((j
            - 1) as u64)) && !bit64(x / 2, (j - 1) as u64) && (x | (1u64 << j)) != 0) by (bit_vector)
            requires
                0 < j < 64,
                !bit64(x, j),
        ;
        lemma_pop_set(x / 2, (j - 1) as u64);
        if x == 0 {
            assert(pop64(0u64 / 2) == 0);
        }
    }
}

/// Ball conservation: a mask that is coherent with a board carries exactly
/// eight set bits, one for each ball, at all times.
pub proof fn lemma_ball_conservation(board: Board, balls: u64)
    requires
        board.wf(),
        balls_wf(balls, board),
    ensures
        pop64(balls) == 8,
{
    let built = lemma_rebuild(board, balls, 9);
    assert(built == balls) by {
        assert(col_of(built, 0) == col_of(balls, 0) && col_of(built, 1) == col_of(balls, 1)
            && col_of(built, 2) == col_of(balls, 2) && col_of(built, 3) == col_of(balls, 3)
            && col_of(built, 4) == col_of(balls, 4) && col_of(built, 5) == col_of(balls, 5)
            && col_of(built, 6) == col_of(balls, 6) && col_of(built, 7) == col_of(balls, 7)
            && col_of(built, 8) == col_of(balls, 8));
        crate::bits::lemma_eq_by_columns(built, balls);
    }
    lemma_ball_cell_count(board, 9);
}

/// Rebuild the mask column by column; its population count is the number
/// of populated cells seen so far.
proof fn lemma_rebuild(board: Board, balls: u64, n: int) -> (built: u64)
    requires
        board.wf(),
        balls_wf(balls, board),
        0 <= n <= 9,
    ensures
        built >> 45 == 0,
        forall|c: int| 0 <= c < n ==> #[trigger] col_of(built, c) == col_of(balls, c),
        forall|c: int| n <= c < 9 ==> #[trigger] col_of(built, c) == 0,
        pop64(built) == crate::codec::gold_count_before(board, n) + silver_count_before(board, n),
    decreases n,
{
    if n == 0 {
        let z = 0u64;
        assert forall|c: int| 0 <= c < 9 implies #[trigger] col_of(z, c) == 0 by {
            crate::bits::lemma_zero_word(c as u64, 0);
        }
        crate::bits::lemma_zero_word(45, 0);
        z
    } else {
        let prev = lemma_rebuild(board, balls, n - 1);
        let c = n - 1;
        if board.has_ball(c) {
            let d = choose|l: int|
                0 <= l <= 4 && col_of(balls, c) == #[trigger] (1u64 << ((9 * l) as u64));
            let j = (9 * d + c) as u64;
            let built = prev | (1u64 << j);
            assert forall|c2: int| 0 <= c2 < 9 implies #[trigger] col_of(built, c2) == (if c2 == c {
                col_of(prev, c2) | (1u64 << ((9 * d) as u64))
            } else {
                col_of(prev, c2)
            }) by {
                lemma_col_of_single(d as u64, c as u64, c2 as u64, prev);
            }
            assert(col_of(built, c) == 1u64 << ((9 * d) as u64)) by {
                crate::bits::lemma_zero_word(0, 1u64 << ((9 * d) as u64));
            }
            lemma_col_of_single(d as u64, c as u64, 0, prev);
            assert(!bit64(prev, j)) by {
                lemma_col_bit(prev, c as u64, d as u64, d as u64);
                crate::bits::lemma_zero_word((9 * d) as u64, 0);
            }
            lemma_pop_set(prev, j);
            assert(board.has_gold_ball(c) != board.has_silver_ball(c)) by {
                if board.has_gold_ball(c) && board.has_silver_ball(c) {
                    let i1 = choose|i: int| 0 <= i < 4 && board.gold_balls[i] == c;
                    let i2 = choose|i: int| 0 <= i < 4 && board.silver_balls[i] == c;
                }
            }
            built
        } else {
            assert(col_of(balls, c) == 0);
            prev
        }
    }
}

/// Number of silver-ball cells among the first `n`.
pub open(crate) spec fn silver_count_before(board: Board, n: int) -> int
    decreases n,
{
    if n <= 0 {
        0
    } else {
        silver_count_before(board, n - 1) + if board.has_silver_ball(n - 1) {
            1int
        } else {
            0int
        }
    }
}

/// A well-formed board populates exactly eight of the nine cells.
proof fn lemma_ball_cell_count(board: Board, n: int)
    requires
        board.wf(),
        n == 9,
    ensures
        crate::codec::gold_count_before(board, 9) + silver_count_before(board, 9) == 8,
{
    lemma_gold_count4(board, 9);
    lemma_silver_count4(board, 9);
}

proof fn lemma_gold_count4(board: Board, n: int)
    requires
        board.wf(),
        0 <= n <= 9,
    ensures
        crate::codec::gold_count_before(board, n) == (if board.gold_balls[0] < n {
            1int
        } else {
            0int
        }) + (if board.gold_balls[1] < n {
            1int
        } else {
            0int
        }) + (if board.gold_balls[2] < n {
            1int
        } else {
            0int
        }) + (if board.gold_balls[3] < n {
            1int
        } else {
            0int
        }),
    decreases n,
{
    if n > 0 {
        lemma_gold_count4(board, n - 1);
        if board.has_gold_ball(n - 1) {
            let i = choose|i: int| 0 <= i < 4 && board.gold_balls[i] == n - 1;
        }
    }
}

proof fn lemma_silver_count4(board: Board, n: int)
    requires
        board.wf(),
        0 <= n <= 9,
    ensures
        silver_count_before(board, n) == (if board.silver_balls[0] < n {
            1int
        } else {
            0int
        }) + (if board.silver_balls[1] < n {
            1int
        } else {
            0int
        }) + (if board.silver_balls[2] < n {
            1int
        } else {
            0int
        }) + (if board.silver_balls[3] < n {
            1int
        } else {
            0int
        }),
    decreases n,
{
    if n > 0 {
        lemma_silver_count4(board, n - 1);
        if board.has_silver_ball(n - 1) {
            let i = choose|i: int| 0 <= i < 4 && board.silver_balls[i] == n - 1;
        }
    }
}

/// One parallel gravity step, as a value.
pub open spec fn drop_step(b: u64, g: u64) -> u64 {
    b ^ ((b & g) | ((b & g) << 9u64))
}

/// `n` parallel gravity steps.
pub open spec fn drop_iter(b: u64, g: u64, n: int) -> u64
    decreases n,
{
    if n <= 0 {
        b
    } else {
        drop_step(drop_iter(b, g, n - 1), g)
    }
}

/// Every layer between a ball and its resting place is open.
proof fn lemma_fall_path(g: u64, c: int, l: int, j: int)
    requires
        0 <= l <= j < fall_to(g, c, l),
    ensures
        layer_bit(g, j, c),
    decreases j - l,
{
    if l < j {
        lemma_fall_path(g, c, l + 1, j);
    }
}

/// Gravity reaches its fixed point within four parallel steps: after four
/// simultaneous drops no ball coincides with an open hole any more.
pub proof fn lemma_gravity_terminates(b: u64, g: u64)
    requires
        cols_ok(b),
        g >> 36 == 0,
    ensures
        drop_iter(b, g, 4) & g == 0,
{
    lemma_drop_progress(b, g, 4);
    let b4 = drop_iter(b, g, 4);
    assert forall|c: int|
        0 <= c < 9 && #[trigger] depth_of(b4, c) <= 3 implies !(layer_bit(b4, depth_of(b4, c), c)
        && layer_bit(g, depth_of(b4, c), c)) by {
        lemma_depth_bounds(b, c);
        crate::ball_bitmask::lemma_fall_to_bounds(g, c, depth_of(b, c));
    }
    lemma_no_overlap(b4, g);
}

/// After `k` steps every column has fallen `k` layers or reached its rest.
proof fn lemma_drop_progress(b: u64, g: u64, k: int)
    requires
        cols_ok(b),
        g >> 36 == 0,
        0 <= k,
    ensures
        cols_ok(drop_iter(b, g, k)),
        forall|c: int|
            0 <= c < 9 ==> ((#[trigger] col_of(drop_iter(b, g, k), c) == 0) == (col_of(b, c)
                == 0)),
        forall|c: int|
            0 <= c < 9 ==> #[trigger] depth_of(drop_iter(b, g, k), c) == (if fall_to(
                g,
                c,
                depth_of(b, c),
            ) <= depth_of(b, c) + k {
                fall_to(g, c, depth_of(b, c))
            } else {
                depth_of(b, c) + k
            }),
    decreases k,
{
    if k == 0 {
        assert forall|c: int| 0 <= c < 9 implies #[trigger] depth_of(drop_iter(b, g, 0), c) == (
        if fall_to(g, c, depth_of(b, c)) <= depth_of(b, c) {
            fall_to(g, c, depth_of(b, c))
        } else {
            depth_of(b, c)
        }) by {
            lemma_depth_bounds(b, c);
            lemma_fall_to_bounds(g, c, depth_of(b, c));
        }
    } else {
        lemma_drop_progress(b, g, k - 1);
        let bk = drop_iter(b, g, k - 1);
        lemma_drop_step_columns(bk, g);
        assert(drop_iter(b, g, k) == drop_step(bk, g));
        assert forall|c: int| 0 <= c < 9 implies ((#[trigger] col_of(drop_iter(b, g, k), c) == 0)
            == (col_of(b, c) == 0)) by {
            assert(col_of(bk, c) == col_of(bk, c));
            if col_of(bk, c) == 0 {
                lemma_col_empty_facts(bk, c);
            } else {
                let l0 = choose|l: int|
                    0 <= l <= 4 && col_of(bk, c) == #[trigger] (1u64 << ((9 * l) as u64));
                lemma_col_single_facts(bk, c, l0);
                let dk = depth_of(bk, c);
                if dk <= 3 && layer_bit(g, dk, c) {
                    assert(col_of(drop_step(bk, g), c) == 1u64 << ((9 * (dk + 1)) as u64));
                    lemma_col_bit(bk, c as u64, (dk + 1) as u64, (dk + 1) as u64);
                } else {
                    assert(col_of(drop_step(bk, g), c) == col_of(bk, c));
                    lemma_col_bit(bk, c as u64, dk as u64, dk as u64);
                }
            }
        }
        assert forall|c: int| 0 <= c < 9 implies #[trigger] depth_of(drop_iter(b, g, k), c) == (
        if fall_to(g, c, depth_of(b, c)) <= depth_of(b, c) + k {
            fall_to(g, c, depth_of(b, c))
        } else {
            depth_of(b, c) + k
        }) by {
            lemma_depth_bounds(b, c);
            lemma_fall_to_bounds(g, c, depth_of(b, c));
            let d0 = depth_of(b, c);
            let fall = fall_to(g, c, d0);
            let dk = depth_of(bk, c);
            assert(col_of(bk, c) == col_of(bk, c));
            if col_of(bk, c) == 0 {
                lemma_col_empty_facts(bk, c);
                lemma_col_empty_facts(b, c);
            } else {
                if dk < fall {
                    assert(dk == d0 + (k - 1));
                    lemma_fall_path(g, c, d0, dk);
                    assert(layer_bit(g, dk, c));
                    assert(dk <= 3) by {
                        lemma_fall_to_bounds(g, c, d0);
                    }
                } else {
                    assert(dk == fall);
                    if fall <= 3 {
                        lemma_fall_to_bounds(g, c, d0);
                        assert(!layer_bit(g, fall, c));
                    }
                }
            }
        }
    }
}

} // verus!
