//! Bit-level foundations: single-bit extraction on 64-bit words, the cell
//! permutations used to rewrite a gate layer into its canonical frame, and
//! the lemmas that connect masked-shift implementations to those views.

use vstd::prelude::*;

verus! {

/// One bit set in each of the five layer positions of ball column 0
/// (bits 0, 9, 18, 27 and 36).
pub const COLUMN_MASK: u64 = 0x10_0804_0201;

/// The `i`-th bit of `x`, as a boolean.
pub open spec fn bit64(x: u64, i: u64) -> bool {
    (x >> i) & 1 == 1
}

/// Transposed position of cell `c` within a 3x3 layer: rows become columns.
pub open spec fn tpos(c: int) -> int {
    3 * (c % 3) + c / 3
}

/// Mirrored position of cell `c` within its row of a 3x3 layer.
pub open spec fn mpos(c: int) -> int {
    3 * (c / 3) + 2 - c % 3
}

/// Canonical slider position of cell `c` in a layer with orientation `h`
/// for a gate anchored at `t`: the position the cell occupies once the layer
/// is rewritten into the top-left horizontal frame.
pub open spec fn canon_pos(h: bool, t: bool, c: int) -> int {
    let a = if h {
        c
    } else {
        tpos(c)
    };
    if t {
        a
    } else {
        mpos(a)
    }
}

pub proof fn lemma_divmod(base: int, a: int, q: int)
    by (nonlinear_arith)
    requires
        base > 0,
        0 <= a < base,
        0 <= q,
    ensures
        (a + base * q) / base == q,
        (a + base * q) % base == a,
{
}

pub proof fn lemma_divmod3(a: int, b: int)
    by (nonlinear_arith)
    requires
        0 <= b < 3,
    ensures
        (3 * a + b) / 3 == a,
        (3 * a + b) % 3 == b,
{
}

/// `tpos` and `mpos` are involutions on cells, and both keep a cell inside
/// its 3x3 layer.
pub proof fn lemma_perm_involutions(c: int)
    requires
        0 <= c < 9,
    ensures
        0 <= tpos(c) < 9,
        0 <= mpos(c) < 9,
        tpos(tpos(c)) == c,
        mpos(mpos(c)) == c,
{
    lemma_divmod3(c % 3, c / 3);
    lemma_divmod3(c / 3, 2 - c % 3);
}

/// Small facts used throughout: the zero word has no bits, masking by a
/// small constant bounds the result, and shifting by zero is the
/// identity.
pub proof fn lemma_zero_word(j: u64, x: u64)
    by (bit_vector)
    ensures
        !bit64(0u64, j),
        (0u64 >> j) == 0,
        (0u64 >> j) & 3 == 0,
        (0u64 >> j) & 0x10_0804_0201 == 0,
        0u64 | x == x,
        x & 1 <= 1,
        x & 3 <= 3,
        (x >> j) & 3 <= 3,
        1u64 << 0u64 == 1u64,
        x >> 0 == x,
{
}

/// Single-bit views of the bitwise operators.
pub proof fn lemma_bit_ops(x: u64, y: u64, i: u64)
    by (bit_vector)
    requires
        i < 64,
    ensures
        bit64(x & y, i) == (bit64(x, i) && bit64(y, i)),
        bit64(x | y, i) == (bit64(x, i) || bit64(y, i)),
        bit64(x ^ y, i) == (bit64(x, i) != bit64(y, i)),
        bit64(!x, i) == !bit64(x, i),
{
}

/// Single-bit views of shifts and of a one-hot word.
pub proof fn lemma_bit_shifts(x: u64, k: u64, i: u64, j: u64)
    by (bit_vector)
    requires
        i < 64,
        j < 64,
        k < 64,
    ensures
        i >= k ==> bit64(x << k, i) == bit64(x, (i - k) as u64),
        i < k ==> !bit64(x << k, i),
        i + k < 64 ==> bit64(x >> k, i) == bit64(x, (i + k) as u64),
        i + k >= 64 ==> !bit64(x >> k, i),
        bit64(1u64 << j, i) == (i == j),
{
}

/// Setting one bit below 36 changes exactly that bit and stays below 36.
pub proof fn lemma_set_bit36(x: u64, j: u64, i: u64)
    by (bit_vector)
    requires
        i < 64,
        j < 36,
        x >> 36 == 0,
    ensures
        bit64(x | (1u64 << j), i) == (i == j || bit64(x, i)),
        (x | (1u64 << j)) >> 36 == 0,
{
}

/// Two right shifts in a row shift by the sum of their amounts.
#[verifier::rlimit(100)]
pub proof fn lemma_shr_chain(x: u64, a: u64, b: u64)
    by (bit_vector)
    requires
        a + b < 64,
    ensures
        (x >> a) >> b == x >> ((a + b) as u64),
{
}

/// Words that agree on all twelve 2-bit counter fields and hold nothing at
/// bit 24 or above are equal.
pub proof fn lemma_eq_by_fields(x: u64, y: u64)
    by (bit_vector)
    requires
        x >> 24 == 0,
        y >> 24 == 0,
        (x >> 0) & 3 == (y >> 0) & 3,
        (x >> 2) & 3 == (y >> 2) & 3,
        (x >> 4) & 3 == (y >> 4) & 3,
        (x >> 6) & 3 == (y >> 6) & 3,
        (x >> 8) & 3 == (y >> 8) & 3,
        (x >> 10) & 3 == (y >> 10) & 3,
        (x >> 12) & 3 == (y >> 12) & 3,
        (x >> 14) & 3 == (y >> 14) & 3,
        (x >> 16) & 3 == (y >> 16) & 3,
        (x >> 18) & 3 == (y >> 18) & 3,
        (x >> 20) & 3 == (y >> 20) & 3,
        (x >> 22) & 3 == (y >> 22) & 3,
    ensures
        x == y,
{
}

/// A ball column of a 36-bit word is determined by its four layer bits.
pub proof fn lemma_col_from_bits(x: u64, y: u64, c: u64)
    by (bit_vector)
    requires
        c < 9,
        x >> 36 == 0,
        y >> 36 == 0,
        bit64(x, c) == bit64(y, c),
        bit64(x, (9 + c) as u64) == bit64(y, (9 + c) as u64),
        bit64(x, (18 + c) as u64) == bit64(y, (18 + c) as u64),
        bit64(x, (27 + c) as u64) == bit64(y, (27 + c) as u64),
    ensures
        (x >> c) & 0x10_0804_0201 == (y >> c) & 0x10_0804_0201,
        x >> 45 == 0,
        y >> 45 == 0,
{
}

/// Two words whose nine ball columns agree, and whose bits above 44 are all
/// clear, are equal.
pub proof fn lemma_eq_by_columns(x: u64, y: u64)
    by (bit_vector)
    requires
        x >> 45 == 0,
        y >> 45 == 0,
        (x >> 0) & 0x10_0804_0201 == (y >> 0) & 0x10_0804_0201,
        (x >> 1) & 0x10_0804_0201 == (y >> 1) & 0x10_0804_0201,
        (x >> 2) & 0x10_0804_0201 == (y >> 2) & 0x10_0804_0201,
        (x >> 3) & 0x10_0804_0201 == (y >> 3) & 0x10_0804_0201,
        (x >> 4) & 0x10_0804_0201 == (y >> 4) & 0x10_0804_0201,
        (x >> 5) & 0x10_0804_0201 == (y >> 5) & 0x10_0804_0201,
        (x >> 6) & 0x10_0804_0201 == (y >> 6) & 0x10_0804_0201,
        (x >> 7) & 0x10_0804_0201 == (y >> 7) & 0x10_0804_0201,
        (x >> 8) & 0x10_0804_0201 == (y >> 8) & 0x10_0804_0201,
    ensures
        x == y,
{
}

} // verus!
