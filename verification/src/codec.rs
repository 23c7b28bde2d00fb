//! The 64-bit board key: gold-ball presence, the empty cell compressed to
//! its rank among non-gold cells, layer orientations, and per-gate anchor,
//! owner and pattern bits, packed from bit 0 upward.

use vstd::prelude::*;

use crate::bits::bit64;
use crate::board::Board;

verus! {

use vstd::assert_by_contradiction;

broadcast use vstd::seq_lib::lemma_seq_contains_after_push;

/// Any word masked to its lowest bit is at most one.
proof fn lemma_and1()
    by (bit_vector)
    ensures
        forall|x: u64| #[trigger] (x & 1) <= 1,
{
}

/// Why a 64-bit word did not decode to a board.
#[derive(Clone, Copy, Debug, PartialEq, Eq, Structural)]
pub enum DeserializationError {
    IncorrectBitstring,
    IncorrectBoard,
}

/// Number of set bits of `v` among the bit positions below `n`.
pub open(crate) spec fn bits_below(v: u64, n: int) -> int
    decreases n,
{
    if n <= 0 {
        0
    } else {
        bits_below(v, n - 1) + if bit64(v, (n - 1) as u64) {
            1int
        } else {
            0int
        }
    }
}

/// Number of clear bits of `v` among the bit positions below `n`.
pub open(crate) spec fn nongold_below(v: u64, n: int) -> int
    decreases n,
{
    if n <= 0 {
        0
    } else {
        nongold_below(v, n - 1) + if bit64(v, (n - 1) as u64) {
            0int
        } else {
            1int
        }
    }
}

/// The cell left without a ball.
pub open(crate) spec fn spec_empty(board: Board) -> int {
    choose|c: int| 0 <= c < 9 && !board.has_ball(c)
}

/// Rank of the empty cell among the cells without a gold ball, counted
/// from cell zero upward.
pub open(crate) spec fn gold_count_before(board: Board, n: int) -> int
    decreases n,
{
    if n <= 0 {
        0
    } else {
        gold_count_before(board, n - 1) + if board.has_gold_ball(n - 1) {
            1int
        } else {
            0int
        }
    }
}

pub open(crate) spec fn empty_rank(board: Board) -> int {
    spec_empty(board) - gold_count_before(board, spec_empty(board))
}

/// Every board with eight distinct ball cells leaves exactly one cell
/// empty.
proof fn lemma_empty_exists(board: Board)
    requires
        board.wf(),
    ensures
        exists|c: int| 0 <= c < 9 && !board.has_ball(c),
        forall|c1: int, c2: int|
            0 <= c1 < 9 && 0 <= c2 < 9 && !board.has_ball(c1) && !board.has_ball(c2) ==> c1 == c2,
{
    let gb = board.gold_balls;
    let sb = board.silver_balls;
    assert(board.has_gold_ball(gb[0] as int) && board.has_gold_ball(gb[1] as int)
        && board.has_gold_ball(gb[2] as int) && board.has_gold_ball(gb[3] as int));
    assert(board.has_silver_ball(sb[0] as int) && board.has_silver_ball(sb[1] as int)
        && board.has_silver_ball(sb[2] as int) && board.has_silver_ball(sb[3] as int));
    assert_by_contradiction!(exists|c: int| 0 <= c < 9 && !board.has_ball(c), {
        assert(board.has_ball(0) && board.has_ball(1) && board.has_ball(2) && board.has_ball(3)
            && board.has_ball(4) && board.has_ball(5) && board.has_ball(6) && board.has_ball(7)
            && board.has_ball(8));
    });
    assert forall|c1: int, c2: int|
        0 <= c1 < 9 && 0 <= c2 < 9 && !board.has_ball(c1) && !board.has_ball(c2) implies c1
        == c2 by {
        assert_by_contradiction!(c1 == c2, {
            assert(board.has_gold_ball(gb[0] as int) && board.has_gold_ball(gb[1] as int)
                && board.has_gold_ball(gb[2] as int) && board.has_gold_ball(gb[3] as int));
            assert(board.has_silver_ball(sb[0] as int) && board.has_silver_ball(sb[1] as int)
                && board.has_silver_ball(sb[2] as int) && board.has_silver_ball(sb[3] as int));
        });
    }
}

/// The intended value of bit `i` of a board's 64-bit key.
pub open(crate) spec fn enc_bit(b: Board, i: int) -> bool {
    if 0 <= i < 9 {
        b.has_gold_ball(i)
    } else if i == 9 {
        empty_rank(b) % 2 == 1
    } else if i == 10 {
        empty_rank(b) / 2 % 2 == 1
    } else if i == 11 {
        empty_rank(b) / 4 % 2 == 1
    } else if 12 <= i < 16 {
        b.horiz(i - 12)
    } else if 16 <= i < 28 {
        b.topleft((i - 16) / 3, (i - 16) % 3)
    } else if 28 <= i < 40 {
        b.silver((i - 28) / 3, (i - 28) % 3)
    } else if 40 <= i < 64 && (i - 40) % 2 == 0 {
        b.gatetype(((i - 40) / 2) / 3, ((i - 40) / 2) % 3) % 2 == 1
    } else if 40 <= i < 64 {
        b.gatetype(((i - 41) / 2) / 3, ((i - 41) / 2) % 3) / 2 % 2 == 1
    } else {
        false
    }
}

/// The 3-bit empty-cell rank stored in a key.
pub open(crate) spec fn eps_of(v: u64) -> int {
    (if bit64(v, 9) {
        1int
    } else {
        0int
    }) + (if bit64(v, 10) {
        2int
    } else {
        0int
    }) + (if bit64(v, 11) {
        4int
    } else {
        0int
    })
}

/// What a successfully decoded board promises about its key.
pub open(crate) spec fn decodes_to(v: u64, b: Board) -> bool {
    &&& forall|c: int| 0 <= c < 9 ==> b.has_gold_ball(c) == #[trigger] bit64(v, c as u64)
    &&& forall|c: int|
        0 <= c < 9 ==> b.has_silver_ball(c) == (!#[trigger] bit64(v, c as u64) && nongold_below(
            v,
            c,
        ) != eps_of(v))
    &&& forall|i: int, j: int| 0 <= i < j < 4 ==> b.gold_balls[i] < b.gold_balls[j]
    &&& forall|i: int, j: int| 0 <= i < j < 4 ==> b.silver_balls[i] < b.silver_balls[j]
    &&& forall|i: int| 0 <= i < 4 ==> b.gold_balls[i] < 9
    &&& forall|i: int| 0 <= i < 4 ==> b.silver_balls[i] < 9
    &&& forall|l: int| 0 <= l < 4 ==> b.horiz(l) == #[trigger] bit64(v, (12 + l) as u64)
    &&& forall|l: int, g: int|
        0 <= l < 4 && 0 <= g < 3 ==> b.topleft(l, g) == #[trigger] bit64(v, (16 + l * 3
            + g) as u64)
    &&& forall|l: int, g: int|
        0 <= l < 4 && 0 <= g < 3 ==> b.silver(l, g) == #[trigger] bit64(v, (28 + l * 3
            + g) as u64)
    &&& forall|l: int, g: int|
        0 <= l < 4 && 0 <= g < 3 ==> #[trigger] b.gatetype(l, g) == (if bit64(
            v,
            (40 + 2 * (l * 3 + g)) as u64,
        ) {
            1int
        } else {
            0int
        }) + (if bit64(v, (41 + 2 * (l * 3 + g)) as u64) {
            2int
        } else {
            0int
        })
}

impl Board {
    /// Pack this board into its 64-bit key, bit for bit.
    pub fn to_u64(&self) -> (r: u64)
        requires
            self.wf(),
        ensures
            forall|i: int| 0 <= i < 64 ==> #[trigger] bit64(r, i as u64) == enc_bit(*self, i),
    {
        proof {
            lemma_empty_exists(*self);
        }
        let mut empty: u8 = 0;
        while empty < 9 && self.ball(empty).is_some()
            invariant
                empty <= 9,
                self.wf(),
                forall|k: int| 0 <= k < empty ==> self.has_ball(k),
            decreases 9 - empty,
        {
            empty += 1;
        }
        proof {
            if empty == 9 {
                let w = choose|k: int| 0 <= k < 9 && !self.has_ball(k);
                assert(false);
            }
            assert(!self.has_ball(empty as int));
            assert(empty as int == spec_empty(*self));
        }
        let mut rank: u8 = 0;
        let mut c2: u8 = 0;
        while c2 < empty
            invariant
                c2 <= empty,
                empty < 9,
                rank as int == (c2 as int) - gold_count_before(*self, c2 as int),
                rank <= c2,
            decreases empty - c2,
        {
            proof {
                lemma_gold_count_le(*self, c2 as int);
            }
            if self.ball(c2).is_none() || matches!(self.ball(c2), Some(crate::Player::Silver)) {
                rank = rank + 1;
            }
            c2 += 1;
        }
        proof {
            assert(rank as int == empty_rank(*self));
            lemma_gold_count_le(*self, empty as int);
            assert(0 <= empty_rank(*self) <= 8);
        }

        let mut r: u64 = 0;
        proof {
            assert forall|i: int| 0 <= i < 64 implies !#[trigger] bit64(0u64, i as u64) by {
                let j = i as u64;
                assert(!bit64(0u64, j)) by (bit_vector);
            }
        }
        let mut i: u8 = 0;
        while i < 64
            invariant
                i <= 64,
                self.wf(),
                empty < 9,
                empty as int == spec_empty(*self),
                rank as int == empty_rank(*self),
                rank <= 8,
                forall|k: int| 0 <= k < i ==> #[trigger] bit64(r, k as u64) == enc_bit(*self, k),
                forall|k: int| i <= k < 64 ==> !#[trigger] bit64(r, k as u64),
            decreases 64 - i,
        {
            let set = if i < 9 {
                matches!(self.ball(i), Some(crate::Player::Gold))
            } else if i == 9 {
                rank % 2 == 1
            } else if i == 10 {
                rank / 2 % 2 == 1
            } else if i == 11 {
                rank / 4 % 2 == 1
            } else if i < 16 {
                self.layer(i - 12).horizontal()
            } else if i < 28 {
                self.layer((i - 16) / 3).gate((i - 16) % 3).topleft()
            } else if i < 40 {
                matches!(
                    self.layer((i - 28) / 3).gate((i - 28) % 3).owner(),
                    crate::Player::Silver
                )
            } else if (i - 40) % 2 == 0 {
                self.layer(((i - 40) / 2) / 3).gate(((i - 40) / 2) % 3).gatetype() % 2 == 1
            } else {
                self.layer(((i - 41) / 2) / 3).gate(((i - 41) / 2) % 3).gatetype() / 2 % 2 == 1
            };
            if set {
                let ghost before = r;
                r = r | (1u64 << i);
                proof {
                    assert forall|k: int| 0 <= k < 64 implies #[trigger] bit64(r, k as u64) == (k
                        == i as int || bit64(before, k as u64)) by {
                        lemma_set_bit_any(before, i as u64, k as u64);
                    }
                }
            }
            proof {
                assert(bit64(r, i as u64) == enc_bit(*self, i as int));
            }
            i += 1;
        }
        r
    }

    /// Unpack a 64-bit key. Fails exactly when the key does not carry four
    /// gold balls, or compresses the empty cell to a rank it cannot have.
    pub fn try_from_u64(value: u64) -> (r: Result<Board, DeserializationError>)
        ensures
            (r is Ok) == (bits_below(value, 9) == 4 && eps_of(value) <= 4),
            r matches Ok(b) ==> decodes_to(value, b),
    {
        let gold = collect_gold(value);
        if gold.len() != 4 {
            return Err(DeserializationError::IncorrectBoard);
        }

        proof {
            lemma_and1();
        }
        let eps: u8 = (((value >> 9) & 1) + ((value >> 10) & 1) * 2 + ((value >> 11) & 1)
            * 4) as u8;
        proof {
            assert(((value >> 9) & 1 == 1) == bit64(value, 9));
            assert(eps as int == eps_of(value));
        }

        let found = find_empty(value, eps);
        let empty = match found {
            Some(e) => e,
            None => {
                proof {
                    lemma_nongold_total(value, 9);
                }
                return Err(DeserializationError::IncorrectBoard);
            },
        };
        proof {
            lemma_nongold_lt(value, empty as int, 9);
            lemma_nongold_total(value, 9);
        }

        let silver = collect_silver(value, empty);
        proof {
            assert(silver@.len() == 4);
        }

        let gold_balls = [gold[0], gold[1], gold[2], gold[3]];
        let silver_balls = [silver[0], silver[1], silver[2], silver[3]];
        let gates_horizontal = [
            (value >> 12) & 1 == 1,
            (value >> 13) & 1 == 1,
            (value >> 14) & 1 == 1,
            (value >> 15) & 1 == 1,
        ];
        let (gates_topleft, gates_silver, gate_type) = decode_gates(value);

        let board = Board {
            gold_balls,
            silver_balls,
            gates_horizontal,
            gates_topleft,
            gates_silver,
            gate_type,
        };
        proof {
            assert(board.gold_balls@ =~= gold@);
            assert(board.silver_balls@ =~= silver@);
            lemma_decoded_balls(value, board, gold@, silver@, empty, eps);
        }
        Ok(board)
    }
}

/// Collect the set low bits of a key, ascending: the gold ball cells.
fn collect_gold(value: u64) -> (gold: Vec<u8>)
    ensures
        gold@.len() == bits_below(value, 9),
        forall|k: int|
            0 <= k < gold@.len() ==> (#[trigger] gold@[k]) < 9 && bit64(value, gold@[k] as u64),
        forall|k1: int, k2: int| 0 <= k1 < k2 < gold@.len() ==> gold@[k1] < gold@[k2],
        forall|x: u8| x < 9 && bit64(value, x as u64) ==> #[trigger] gold@.contains(x),
{
    let mut gold: Vec<u8> = Vec::new();
    let mut c: u8 = 0;
    while c < 9
        invariant
            c <= 9,
            gold@.len() == bits_below(value, c as int),
            forall|k: int|
                0 <= k < gold@.len() ==> (#[trigger] gold@[k]) < c && bit64(
                    value,
                    gold@[k] as u64,
                ),
            forall|k1: int, k2: int| 0 <= k1 < k2 < gold@.len() ==> gold@[k1] < gold@[k2],
            forall|x: u8| x < c && bit64(value, x as u64) ==> #[trigger] gold@.contains(x),
        decreases 9 - c,
    {
        if (value >> c) & 1 == 1 {
            gold.push(c);
            proof {
                assert(gold@[gold@.len() - 1] == c);
            }
        }
        c += 1;
    }
    gold
}

/// Find the cell whose rank among clear low bits is the stored one.
fn find_empty(value: u64, eps: u8) -> (found: Option<u8>)
    ensures
        found matches Some(e) ==> e < 9 && !bit64(value, e as u64) && nongold_below(
            value,
            e as int,
        ) == eps as int,
        found is None ==> nongold_below(value, 9) <= eps as int,
{
    let mut c: u8 = 0;
    let mut cnt: u8 = 0;
    while c < 9
        invariant
            c <= 9,
            cnt as int == nongold_below(value, c as int),
            cnt <= c,
            cnt <= eps,
        decreases 9 - c,
    {
        if (value >> c) & 1 != 1 {
            if cnt == eps {
                return Some(c);
            }
            cnt = cnt + 1;
        }
        c += 1;
    }
    None
}

/// Collect the clear low bits other than the empty cell, ascending: the
/// silver ball cells.
fn collect_silver(value: u64, empty: u8) -> (silver: Vec<u8>)
    requires
        empty < 9,
        !bit64(value, empty as u64),
    ensures
        silver@.len() == 9 - bits_below(value, 9) - 1,
        forall|k: int|
            0 <= k < silver@.len() ==> (#[trigger] silver@[k]) < 9 && !bit64(
                value,
                silver@[k] as u64,
            ) && silver@[k] != empty,
        forall|k1: int, k2: int| 0 <= k1 < k2 < silver@.len() ==> silver@[k1] < silver@[k2],
        forall|x: u8|
            x < 9 && !bit64(value, x as u64) && x != empty ==> #[trigger] silver@.contains(x),
{
    let mut silver: Vec<u8> = Vec::new();
    let mut c: u8 = 0;
    while c < 9
        invariant
            c <= 9,
            empty < 9,
            !bit64(value, empty as u64),
            silver@.len() == (c as int) - bits_below(value, c as int) - (if empty < c {
                1int
            } else {
                0int
            }),
            forall|k: int|
                0 <= k < silver@.len() ==> (#[trigger] silver@[k]) < c && !bit64(
                    value,
                    silver@[k] as u64,
                ) && silver@[k] != empty,
            forall|k1: int, k2: int| 0 <= k1 < k2 < silver@.len() ==> silver@[k1] < silver@[k2],
            forall|x: u8|
                x < c && !bit64(value, x as u64) && x != empty ==> #[trigger] silver@.contains(x),
        decreases 9 - c,
    {
        if (value >> c) & 1 != 1 && c != empty {
            silver.push(c);
            proof {
                assert(silver@[silver@.len() - 1] == c);
            }
        }
        c += 1;
    }
    silver
}

/// Read the twelve anchor, owner and pattern fields of a key.
fn decode_gates(value: u64) -> (r: ([[bool; 3]; 4], [[bool; 3]; 4], [[u8; 3]; 4]))
    ensures
        forall|l: int, g: int|
            0 <= l < 4 && 0 <= g < 3 ==> r.0[l][g] == #[trigger] bit64(value, (16 + l * 3
                + g) as u64),
        forall|l: int, g: int|
            0 <= l < 4 && 0 <= g < 3 ==> r.1[l][g] == #[trigger] bit64(value, (28 + l * 3
                + g) as u64),
        forall|l: int, g: int|
            0 <= l < 4 && 0 <= g < 3 ==> (#[trigger] r.2[l][g]) as int == (if bit64(
                value,
                (40 + 2 * (l * 3 + g)) as u64,
            ) {
                1int
            } else {
                0int
            }) + (if bit64(value, (41 + 2 * (l * 3 + g)) as u64) {
                2int
            } else {
                0int
            }),
{
    let mut gates_topleft = [[false; 3]; 4];
    let mut gates_silver = [[false; 3]; 4];
    let mut gate_type = [[0u8; 3]; 4];
    let mut i: u8 = 0;
    while i < 12
        invariant
            i <= 12,
            forall|k: int|
                0 <= k < i ==> gates_topleft[k / 3][k % 3] == #[trigger] bit64(
                    value,
                    (16 + k) as u64,
                ),
            forall|k: int|
                0 <= k < i ==> gates_silver[k / 3][k % 3] == #[trigger] bit64(
                    value,
                    (28 + k) as u64,
                ),
            forall|k: int|
                0 <= k < i ==> (#[trigger] gate_type[k / 3][k % 3]) as int == (if bit64(
                    value,
                    (40 + 2 * k) as u64,
                ) {
                    1int
                } else {
                    0int
                }) + (if bit64(value, (41 + 2 * k) as u64) {
                    2int
                } else {
                    0int
                }),
        decreases 12 - i,
    {
        proof {
            lemma_and1();
        }
        let l = (i / 3) as usize;
        let g = (i % 3) as usize;
        gates_topleft[l][g] = (value >> (16 + i)) & 1 == 1;
        gates_silver[l][g] = (value >> (28 + i)) & 1 == 1;
        gate_type[l][g] = (((value >> (40 + 2 * i)) & 1) + ((value >> (41 + 2 * i)) & 1)
            * 2) as u8;
        proof {
            assert((i as int) / 3 == l as int && (i as int) % 3 == g as int);
        }
        i += 1;
    }
    proof {
        assert forall|l: int, g: int| 0 <= l < 4 && 0 <= g < 3 implies gates_topleft[l][g]
            == #[trigger] bit64(value, (16 + l * 3 + g) as u64) by {
            let k = l * 3 + g;
            crate::bits::lemma_divmod3(l, g);
            assert(gates_topleft[k / 3][k % 3] == bit64(value, (16 + k) as u64));
        }
        assert forall|l: int, g: int| 0 <= l < 4 && 0 <= g < 3 implies gates_silver[l][g]
            == #[trigger] bit64(value, (28 + l * 3 + g) as u64) by {
            let k = l * 3 + g;
            crate::bits::lemma_divmod3(l, g);
            assert(gates_silver[k / 3][k % 3] == bit64(value, (28 + k) as u64));
        }
        assert forall|l: int, g: int| 0 <= l < 4 && 0 <= g < 3 implies (#[trigger] gate_type[l][
        g]) as int == (if bit64(value, (40 + 2 * (l * 3 + g)) as u64) {
            1int
        } else {
            0int
        }) + (if bit64(value, (41 + 2 * (l * 3 + g)) as u64) {
            2int
        } else {
            0int
        }) by {
            let k = l * 3 + g;
            crate::bits::lemma_divmod3(l, g);
            assert((gate_type[k / 3][k % 3]) as int == (if bit64(value, (40 + 2 * k) as u64) {
                1int
            } else {
                0int
            }) + (if bit64(value, (41 + 2 * k) as u64) {
                2int
            } else {
                0int
            }));
        }
    }
    (gates_topleft, gates_silver, gate_type)
}

/// A board assembled from the collected ball cells reads back the key's
/// ball bits.
proof fn lemma_decoded_balls(
    value: u64,
    board: Board,
    gold: Seq<u8>,
    silver: Seq<u8>,
    empty: u8,
    eps: u8,
)
    requires
        board.gold_balls@ == gold,
        board.silver_balls@ == silver,
        gold.len() == 4,
        silver.len() == 4,
        empty < 9,
        eps as int == eps_of(value),
        !bit64(value, empty as u64),
        nongold_below(value, empty as int) == eps as int,
        forall|k: int| 0 <= k < 4 ==> (#[trigger] gold[k]) < 9 && bit64(value, gold[k] as u64),
        forall|x: u8| x < 9 && bit64(value, x as u64) ==> #[trigger] gold.contains(x),
        forall|k: int|
            0 <= k < 4 ==> (#[trigger] silver[k]) < 9 && !bit64(value, silver[k] as u64)
                && silver[k] != empty,
        forall|x: u8|
            x < 9 && !bit64(value, x as u64) && x != empty ==> #[trigger] silver.contains(x),
    ensures
        forall|c: int| 0 <= c < 9 ==> board.has_gold_ball(c) == #[trigger] bit64(value, c as u64),
        forall|c: int|
            0 <= c < 9 ==> board.has_silver_ball(c) == (!#[trigger] bit64(value, c as u64)
                && nongold_below(value, c) != eps as int),
{
    assert forall|c: int| 0 <= c < 9 implies board.has_gold_ball(c) == #[trigger] bit64(
        value,
        c as u64,
    ) by {
        if bit64(value, c as u64) {
            assert(gold.contains(c as u8));
            let k = choose|k: int| 0 <= k < gold.len() && gold[k] == c as u8;
            assert(board.gold_balls[k] == c);
        }
        if board.has_gold_ball(c) {
            let k = choose|k: int| 0 <= k < 4 && board.gold_balls[k] == c;
            assert(bit64(value, gold[k] as u64));
        }
    }
    assert forall|c: int| 0 <= c < 9 implies board.has_silver_ball(c) == (!#[trigger] bit64(
        value,
        c as u64,
    ) && nongold_below(value, c) != eps as int) by {
        if !bit64(value, c as u64) && nongold_below(value, c) != eps as int {
            assert(c != empty as int);
            assert(silver.contains(c as u8));
            let k = choose|k: int| 0 <= k < silver.len() && silver[k] == c as u8;
            assert(board.silver_balls[k] == c);
        }
        if board.has_silver_ball(c) {
            let k = choose|k: int| 0 <= k < 4 && board.silver_balls[k] == c;
            assert(!bit64(value, silver[k] as u64));
            if c == empty as int {
                assert(silver[k] != empty);
                assert(false);
            }
            lemma_nongold_inj(value, c, empty as int);
        }
    }
}

/// Setting one bit anywhere in a word changes exactly that bit.
proof fn lemma_set_bit_any(x: u64, j: u64, i: u64)
    requires
        i < 64,
        j < 64,
    ensures
        bit64(x | (1u64 << j), i) == (i == j || bit64(x, i)),
{
    crate::bits::lemma_bit_ops(x, 1u64 << j, i);
    crate::bits::lemma_bit_shifts(x, 0, i, j);
}

/// At most one gold cell per board cell.
proof fn lemma_gold_count_le(b: Board, n: int)
    requires
        n >= 0,
    ensures
        0 <= gold_count_before(b, n) <= n,
    decreases n,
{
    if n > 0 {
        lemma_gold_count_le(b, n - 1);
    }
}

/// Clear and set bits below `n` partition the positions below `n`.
proof fn lemma_nongold_total(v: u64, n: int)
    requires
        n >= 0,
    ensures
        nongold_below(v, n) == n - bits_below(v, n),
        bits_below(v, n) >= 0,
    decreases n,
{
    if n > 0 {
        lemma_nongold_total(v, n - 1);
    }
}

/// The rank of a clear bit position is below the count of any larger
/// prefix.
proof fn lemma_nongold_lt(v: u64, c: int, n: int)
    requires
        0 <= c < n,
        !bit64(v, c as u64),
    ensures
        nongold_below(v, c) < nongold_below(v, n),
    decreases n,
{
    if c < n - 1 {
        lemma_nongold_lt(v, c, n - 1);
    }
}

/// Distinct clear positions have distinct ranks.
proof fn lemma_nongold_inj(v: u64, c1: int, c2: int)
    requires
        0 <= c1,
        0 <= c2,
        c1 != c2,
        !bit64(v, c1 as u64),
        !bit64(v, c2 as u64),
    ensures
        nongold_below(v, c1) != nongold_below(v, c2),
{
    if c1 < c2 {
        lemma_nongold_lt(v, c1, c2);
    } else {
        lemma_nongold_lt(v, c2, c1);
    }
}

/// Two strictly ascending four-element sequences with the same members are
/// equal.
proof fn lemma_sorted4_eq(a: Seq<u8>, b: Seq<u8>)
    requires
        a.len() == 4,
        b.len() == 4,
        forall|i: int, j: int| 0 <= i < j < 4 ==> a[i] < a[j],
        forall|i: int, j: int| 0 <= i < j < 4 ==> b[i] < b[j],
        forall|x: u8| #[trigger] a.contains(x) == b.contains(x),
    ensures
        a =~= b,
{
    assert forall|n: int| 0 <= n < 4 implies a[n] == b[n] by {
        lemma_sorted4_eq_at(a, b, n);
    }
}

proof fn lemma_sorted4_eq_at(a: Seq<u8>, b: Seq<u8>, n: int)
    requires
        a.len() == 4,
        b.len() == 4,
        0 <= n < 4,
        forall|i: int, j: int| 0 <= i < j < 4 ==> a[i] < a[j],
        forall|i: int, j: int| 0 <= i < j < 4 ==> b[i] < b[j],
        forall|x: u8| #[trigger] a.contains(x) == b.contains(x),
    ensures
        a[n] == b[n],
    decreases n,
{
    if n > 0 {
        lemma_sorted4_eq_at(a, b, n - 1);
        assert(forall|k: int| 0 <= k < n ==> a[k] == b[k]) by {
            assert forall|k: int| 0 <= k < n implies a[k] == b[k] by {
                lemma_sorted4_eq_at(a, b, k);
            }
        }
    }
    assert(a.contains(a[n]));
    assert(b.contains(a[n]));
    let j = choose|j: int| 0 <= j < 4 && b[j] == a[n];
    assert(j >= n) by {
        if j < n {
            assert(b[j] == a[j]);
        }
    }
    assert(b[n] <= b[j]);
    assert(b.contains(b[n]));
    assert(a.contains(b[n]));
    let i = choose|i: int| 0 <= i < 4 && a[i] == b[n];
    assert(i >= n) by {
        if i < n {
            assert(a[i] == b[i]);
        }
    }
    assert(a[n] <= a[i]);
}

/// Counting cells that carry a gold ball counts the four distinct array
/// entries below the bound.
proof fn lemma_gold_count(b: Board, n: int)
    requires
        b.wf(),
        0 <= n <= 9,
    ensures
        gold_count_before(b, n) == (if b.gold_balls[0] < n {
            1int
        } else {
            0int
        }) + (if b.gold_balls[1] < n {
            1int
        } else {
            0int
        }) + (if b.gold_balls[2] < n {
            1int
        } else {
            0int
        }) + (if b.gold_balls[3] < n {
            1int
        } else {
            0int
        }),
    decreases n,
{
    if n > 0 {
        lemma_gold_count(b, n - 1);
        if b.has_gold_ball(n - 1) {
            let i = choose|i: int| 0 <= i < 4 && b.gold_balls[i] == n - 1;
        }
    }
}

/// The empty cell's rank among non-gold cells is at most four.
proof fn lemma_rank_bound(b: Board)
    requires
        b.wf(),
        0 <= spec_empty(b) < 9,
        !b.has_ball(spec_empty(b)),
    ensures
        0 <= empty_rank(b) <= 4,
{
    let e = spec_empty(b);
    lemma_gold_count(b, e);
    lemma_gold_count(b, 9);
    assert(gold_count_before(b, 9) == 4);
    lemma_rank_step(b, e, 9);
}

/// The non-gold rank strictly grows past any non-gold cell.
proof fn lemma_rank_step(b: Board, c: int, n: int)
    requires
        0 <= c < n,
        !b.has_gold_ball(c),
    ensures
        c - gold_count_before(b, c) < n - gold_count_before(b, n),
    decreases n,
{
    if c < n - 1 {
        lemma_rank_step(b, c, n - 1);
    }
}

/// A well-formed board's key always decodes, because it stores four gold
/// balls and a rank the empty cell can have.
pub proof fn lemma_board_key_decodable(b: Board, v: u64)
    requires
        b.wf(),
        forall|i: int| 0 <= i < 64 ==> #[trigger] bit64(v, i as u64) == enc_bit(b, i),
    ensures
        bits_below(v, 9) == 4,
        eps_of(v) <= 4,
{
    lemma_empty_exists(b);
    assert(!b.has_ball(spec_empty(b)) && 0 <= spec_empty(b) < 9);
    lemma_rank_bound(b);
    lemma_bits_are_gold(b, v, 9);
    lemma_gold_count(b, 9);
    lemma_eps_bits(b, v);
    assert(eps_of(v) == empty_rank(b));
}

/// The three rank bits of a key recompose to the empty cell's rank.
proof fn lemma_eps_bits(b: Board, v: u64)
    requires
        0 <= empty_rank(b) <= 7,
        forall|i: int| 0 <= i < 64 ==> #[trigger] bit64(v, i as u64) == enc_bit(b, i),
    ensures
        eps_of(v) == empty_rank(b),
{
    let i9: int = 9;
    let i10: int = 10;
    let i11: int = 11;
    assert(bit64(v, i9 as u64) == enc_bit(b, i9));
    assert(bit64(v, i10 as u64) == enc_bit(b, i10));
    assert(bit64(v, i11 as u64) == enc_bit(b, i11));
    assert(bit64(v, 9) == (empty_rank(b) % 2 == 1));
    assert(bit64(v, 10) == (empty_rank(b) / 2 % 2 == 1));
    assert(bit64(v, 11) == (empty_rank(b) / 4 % 2 == 1));
}

/// The key's low bits count exactly the gold cells.
proof fn lemma_bits_are_gold(b: Board, v: u64, n: int)
    requires
        0 <= n <= 9,
        forall|i: int| 0 <= i < 64 ==> #[trigger] bit64(v, i as u64) == enc_bit(b, i),
    ensures
        bits_below(v, n) == gold_count_before(b, n),
        nongold_below(v, n) == n - gold_count_before(b, n),
    decreases n,
{
    if n > 0 {
        lemma_bits_are_gold(b, v, n - 1);
        assert(bit64(v, (n - 1) as u64) == b.has_gold_ball(n - 1));
    }
}

/// Decoding the key of a well-formed board yields the very same board:
/// every field of the decoded board agrees with the encoded one.
pub proof fn lemma_board_roundtrip(b: Board, v: u64, b2: Board)
    requires
        b.wf(),
        forall|i: int| 0 <= i < 64 ==> #[trigger] bit64(v, i as u64) == enc_bit(b, i),
        decodes_to(v, b2),
    ensures
        crate::board::same_fields(b2, b),
{
    lemma_rt_gates(b, v, b2);
    lemma_rt_gold(b, v, b2);
    lemma_rt_silver(b, v, b2);
    assert(crate::board::same_fields(b2, b));
}

proof fn lemma_rt_gates(b: Board, v: u64, b2: Board)
    requires
        b.wf(),
        forall|i: int| 0 <= i < 64 ==> #[trigger] bit64(v, i as u64) == enc_bit(b, i),
        decodes_to(v, b2),
    ensures
        forall|l: int| 0 <= l < 4 ==> b2.gates_horizontal[l] == b.gates_horizontal[l],
        forall|l: int, g: int|
            0 <= l < 4 && 0 <= g < 3 ==> b2.gates_topleft[l][g] == b.gates_topleft[l][g]
                && b2.gates_silver[l][g] == b.gates_silver[l][g] && b2.gate_type[l][g]
                == b.gate_type[l][g],
{
    assert forall|l: int| 0 <= l < 4 implies b2.gates_horizontal[l] == b.gates_horizontal[l] by {
        assert(bit64(v, (12 + l) as u64) == enc_bit(b, 12 + l));
    }
    assert forall|l: int, g: int| 0 <= l < 4 && 0 <= g < 3 implies b2.gates_topleft[l][g]
        == b.gates_topleft[l][g] && b2.gates_silver[l][g] == b.gates_silver[l][g]
        && b2.gate_type[l][g] == b.gate_type[l][g] by {
        crate::bits::lemma_divmod3(l, g);
        assert(bit64(v, (16 + l * 3 + g) as u64) == enc_bit(b, 16 + l * 3 + g));
        assert(bit64(v, (28 + l * 3 + g) as u64) == enc_bit(b, 28 + l * 3 + g));
        assert(bit64(v, (40 + 2 * (l * 3 + g)) as u64) == enc_bit(b, 40 + 2 * (l * 3 + g)));
        assert(bit64(v, (41 + 2 * (l * 3 + g)) as u64) == enc_bit(b, 41 + 2 * (l * 3 + g)));
        assert((40 + 2 * (l * 3 + g) - 40) % 2 == 0 && (40 + 2 * (l * 3 + g) - 40) / 2 == l * 3
            + g);
        assert((41 + 2 * (l * 3 + g) - 41) / 2 == l * 3 + g);
        assert(b.gatetype(l, g) < 4);
        let ty = b.gatetype(l, g);
        assert(ty == ty % 2 + 2 * (ty / 2 % 2)) by (nonlinear_arith)
            requires
                0 <= ty < 4,
        ;
        let ty2 = b2.gatetype(l, g);
        assert(ty2 == b2.gate_type[l][g] as int);
        assert(ty2 == ty);
    }
}

proof fn lemma_rt_gold(b: Board, v: u64, b2: Board)
    requires
        b.wf(),
        forall|i: int| 0 <= i < 64 ==> #[trigger] bit64(v, i as u64) == enc_bit(b, i),
        decodes_to(v, b2),
    ensures
        forall|k: int| 0 <= k < 4 ==> b2.gold_balls[k] == b.gold_balls[k],
{
    assert forall|x: u8| #[trigger] b2.gold_balls@.contains(x) == b.gold_balls@.contains(x) by {
        assert(b2.gold_balls@.contains(x) == b2.has_gold_ball(x as int));
        assert(b.gold_balls@.contains(x) == b.has_gold_ball(x as int));
        if x < 9 {
            assert(bit64(v, (x as int) as u64) == enc_bit(b, x as int));
            assert(b2.has_gold_ball(x as int) == bit64(v, (x as int) as u64));
        } else {
            assert(!b2.has_gold_ball(x as int));
            assert(!b.has_gold_ball(x as int));
        }
    }
    lemma_sorted4_eq(b2.gold_balls@, b.gold_balls@);
}

#[verifier::rlimit(100)]
proof fn lemma_rt_silver(b: Board, v: u64, b2: Board)
    requires
        b.wf(),
        forall|i: int| 0 <= i < 64 ==> #[trigger] bit64(v, i as u64) == enc_bit(b, i),
        decodes_to(v, b2),
    ensures
        forall|k: int| 0 <= k < 4 ==> b2.silver_balls[k] == b.silver_balls[k],
{
    lemma_empty_exists(b);
    let e = spec_empty(b);
    assert(!b.has_ball(e) && 0 <= e < 9);
    lemma_rank_bound(b);
    lemma_eps_bits(b, v);
    assert forall|x: u8| #[trigger] b2.silver_balls@.contains(x) == b.silver_balls@.contains(
        x,
    ) by {
        assert(b2.silver_balls@.contains(x) == b2.has_silver_ball(x as int));
        assert(b.silver_balls@.contains(x) == b.has_silver_ball(x as int));
        if x < 9 {
            let c = x as int;
            assert(bit64(v, c as u64) == enc_bit(b, c));
            assert(b2.has_silver_ball(c) == (!bit64(v, c as u64) && nongold_below(v, c) != eps_of(
                v,
            )));
            lemma_bits_are_gold(b, v, c);
            lemma_bits_are_gold(b, v, e);
            if !b.has_gold_ball(c) {
                if c == e {
                    assert(!b.has_silver_ball(c));
                } else {
                    assert(b.has_ball(c)) by {
                        if !b.has_ball(c) {
                            assert(c == e);
                        }
                    }
                    assert(b.has_silver_ball(c));
                    assert(nongold_below(v, c) != empty_rank(b)) by {
                        if c < e {
                            lemma_rank_step(b, c, e);
                        } else {
                            lemma_rank_step(b, e, c);
                        }
                    }
                }
            } else {
                assert(!b.has_silver_ball(c));
            }
        } else {
            assert(!b2.has_silver_ball(x as int));
            assert(!b.has_silver_ball(x as int));
        }
    }
    lemma_sorted4_eq(b2.silver_balls@, b.silver_balls@);
}

} // verus!