//! Random boards and random playouts. All randomness enters through one
//! trusted call into the `rand` crate; everything built on top of it is
//! verified for every value that call could return.

use vstd::prelude::*;

use crate::ball_bitmask::depth_of;
use crate::board::Board;
use crate::builder::{lemma_swap_multiset, BoardBuilder, Gate};
use crate::dfs::{balanced, m_step, model_of};
use crate::move_check::{legal_move, Move, MoveChecker};
use crate::state::Compact;
use crate::win_check::{winner_of, Winner, WinningChecker};
use crate::Player;
use vstd::multiset::Multiset;

verus! {

broadcast use vstd::seq_lib::group_to_multiset_ensures, vstd::multiset::group_multiset_axioms;

/// Relies on `rand::Rng::gen_range` over the nonempty range `0..bound`:
/// it returns a uniformly drawn value of that range, and the range is
/// nonempty, so it does not panic.
#[verifier::external_body]
fn rand_below(bound: u64) -> (r: u64)
    requires
        bound > 0,
    ensures
        r < bound,
{
    rand::Rng::gen_range(&mut rand::thread_rng(), 0..bound)
}

/// A random bit.
fn rand_bool() -> bool {
    rand_below(2) == 1
}

/// Shuffle in place; the entries are kept as a multiset.
fn shuffle_bytes(v: &mut Vec<u8>)
    requires
        old(v)@.len() < 100,
    ensures
        final(v)@.len() == old(v)@.len(),
        final(v)@.to_multiset() == old(v)@.to_multiset(),
{
    if v.len() <= 1 {
        return ;
    }
    let mut i: usize = v.len() - 1;
    while i > 0
        invariant
            i < v@.len(),
            v@.len() == old(v)@.len(),
            v@.len() < 100,
            v@.to_multiset() == old(v)@.to_multiset(),
        decreases i,
    {
        let j = rand_below((i + 1) as u64) as usize;
        let gv = Ghost(v@);
        let a = v[i];
        let b = v[j];
        v.set(i, b);
        v.set(j, a);
        proof {
            assert(v@ =~= gv@.update(i as int, gv@[j as int]).update(j as int, gv@[i as int]));
            lemma_swap_multiset(gv@, i as int, j as int);
        }
        i -= 1;
    }
}

/// Shuffle in place; the entries are kept as a multiset.
fn shuffle_bools(v: &mut Vec<bool>)
    requires
        old(v)@.len() < 100,
    ensures
        final(v)@.len() == old(v)@.len(),
        final(v)@.to_multiset() == old(v)@.to_multiset(),
{
    if v.len() <= 1 {
        return ;
    }
    let mut i: usize = v.len() - 1;
    while i > 0
        invariant
            i < v@.len(),
            v@.len() == old(v)@.len(),
            v@.len() < 100,
            v@.to_multiset() == old(v)@.to_multiset(),
        decreases i,
    {
        let j = rand_below((i + 1) as u64) as usize;
        let gv = Ghost(v@);
        let a = v[i];
        let b = v[j];
        v.set(i, b);
        v.set(j, a);
        proof {
            assert(v@ =~= gv@.update(i as int, gv@[j as int]).update(j as int, gv@[i as int]));
            lemma_swap_multiset(gv@, i as int, j as int);
        }
        i -= 1;
    }
}

/// Number of `true` entries among the first `n`.
pub open(crate) spec fn count_true_below(s: Seq<bool>, n: int) -> int
    decreases n,
{
    if n <= 0 {
        0
    } else {
        count_true_below(s, n - 1) + if s[n - 1] {
            1int
        } else {
            0int
        }
    }
}

/// The prefix count of `true` entries over the whole sequence is its
/// multiset count.
proof fn lemma_count_true_ms(s: Seq<bool>)
    ensures
        count_true_below(s, s.len() as int) == s.to_multiset().count(true),
    decreases s.len(),
{
    if s.len() == 0 {
        assert(s =~= Seq::<bool>::empty());
        assert(s.to_multiset() =~= Multiset::<bool>::empty());
    } else {
        let pre = s.drop_last();
        lemma_count_true_ms(pre);
        assert(s =~= pre.push(s[s.len() - 1]));
        assert(s.to_multiset() == pre.to_multiset().insert(s[s.len() - 1]));
        assert(count_true_below(s, s.len() as int) == count_true_below(pre, pre.len() as int) + (
        if s[s.len() - 1] {
            1int
        } else {
            0int
        })) by {
            lemma_count_true_prefix(s, pre, pre.len() as int);
        }
    }
}

proof fn lemma_count_true_prefix(s: Seq<bool>, pre: Seq<bool>, n: int)
    requires
        0 <= n <= pre.len(),
        pre.len() < s.len(),
        forall|k: int| 0 <= k < pre.len() ==> pre[k] == s[k],
    ensures
        count_true_below(s, n) == count_true_below(pre, n),
    decreases n,
{
    if n > 0 {
        lemma_count_true_prefix(s, pre, n - 1);
    }
}

/// Prefix counts of `true` grow by at most one per entry.
proof fn lemma_count_true_mono(s: Seq<bool>, a: int, b: int)
    requires
        0 <= a <= b,
    ensures
        count_true_below(s, a) <= count_true_below(s, b) <= count_true_below(s, a) + (b - a),
        0 <= count_true_below(s, a) <= a,
    decreases b - a,
{
    lemma_count_true_bounds(s, a);
    if a < b {
        lemma_count_true_mono(s, a, b - 1);
    }
}

proof fn lemma_count_true_bounds(s: Seq<bool>, n: int)
    requires
        0 <= n,
    ensures
        0 <= count_true_below(s, n) <= n,
    decreases n,
{
    if n > 0 {
        lemma_count_true_bounds(s, n - 1);
    }
}

/// Number of entries equal to `t` among the first `n` of `s`.
pub open(crate) spec fn type_count_upto(s: Seq<u8>, t: u8, n: int) -> int
    decreases n,
{
    if n <= 0 {
        0
    } else {
        type_count_upto(s, t, n - 1) + if s[n - 1] == t {
            1int
        } else {
            0int
        }
    }
}

/// The prefix count of a value over a whole sequence is its multiset
/// count.
proof fn lemma_type_count_ms(s: Seq<u8>, t: u8)
    ensures
        type_count_upto(s, t, s.len() as int) == s.to_multiset().count(t),
    decreases s.len(),
{
    if s.len() == 0 {
        assert(s =~= Seq::<u8>::empty());
        assert(s.to_multiset() =~= Multiset::<u8>::empty());
    } else {
        let pre = s.drop_last();
        lemma_type_count_ms(pre, t);
        assert(s =~= pre.push(s[s.len() - 1]));
        assert(s.to_multiset() == pre.to_multiset().insert(s[s.len() - 1]));
        assert(type_count_upto(s, t, s.len() as int) == type_count_upto(pre, t, pre.len() as int)
            + (if s[s.len() - 1] == t {
            1int
        } else {
            0int
        })) by {
            lemma_type_count_prefix(s, pre, t, pre.len() as int);
        }
    }
}

proof fn lemma_type_count_prefix(s: Seq<u8>, pre: Seq<u8>, t: u8, n: int)
    requires
        0 <= n <= pre.len(),
        pre.len() <= s.len(),
        forall|k: int| 0 <= k < pre.len() ==> pre[k] == s[k],
    ensures
        type_count_upto(s, t, n) == type_count_upto(pre, t, n),
    decreases n,
{
    if n > 0 {
        lemma_type_count_prefix(s, pre, t, n - 1);
    }
}

/// How often pattern `t` occurs in the standard per-player list
/// {0, 0, 1, 2, 3, 3}.
pub open(crate) spec fn standard_count(t: u8) -> int {
    if t == 0 {
        2
    } else if t == 1 {
        1
    } else if t == 2 {
        1
    } else if t == 3 {
        2
    } else {
        0
    }
}

/// The literal standard list has the standard counts.
proof fn lemma_standard_list_counts(s: Seq<u8>)
    requires
        s.len() == 6,
        s[0] == 0,
        s[1] == 0,
        s[2] == 1,
        s[3] == 2,
        s[4] == 3,
        s[5] == 3,
    ensures
        forall|t: u8| #[trigger] type_count_upto(s, t, 6) == standard_count(t),
{
    assert forall|t: u8| #[trigger] type_count_upto(s, t, 6) == standard_count(t) by {
        reveal_with_fuel(type_count_upto, 7);
    }
}

/// Sequences with one multiset have the same value counts.
proof fn lemma_type_counts_carry(a: Seq<u8>, b: Seq<u8>)
    requires
        a.to_multiset() == b.to_multiset(),
        a.len() == b.len(),
    ensures
        forall|t: u8|
            #[trigger] type_count_upto(b, t, b.len() as int) == type_count_upto(
                a,
                t,
                a.len() as int,
            ),
{
    assert forall|t: u8|
        #[trigger] type_count_upto(b, t, b.len() as int) == type_count_upto(
            a,
            t,
            a.len() as int,
        ) by {
        lemma_type_count_ms(a, t);
        lemma_type_count_ms(b, t);
    }
}

/// Number of assembled gates among the first `i` slots that `p` owns with
/// pattern `t`.
pub open(crate) spec fn dealt_type_count(
    gates: [Option<Gate>; 12],
    p: Player,
    t: u8,
    i: int,
) -> int
    decreases i,
{
    if i <= 0 {
        0
    } else {
        dealt_type_count(gates, p, t, i - 1) + if gates[i - 1] matches Some(gt) && gt.allegiance
            == p && gt.gatetype == t {
            1int
        } else {
            0int
        }
    }
}

/// The dealt count reads only the first `i` slots.
proof fn lemma_dealt_prefix(
    g1: [Option<Gate>; 12],
    g2: [Option<Gate>; 12],
    p: Player,
    t: u8,
    i: int,
)
    requires
        0 <= i <= 12,
        forall|k: int| 0 <= k < i ==> g1[k] == g2[k],
    ensures
        dealt_type_count(g1, p, t, i) == dealt_type_count(g2, p, t, i),
    decreases i,
{
    if i > 0 {
        lemma_dealt_prefix(g1, g2, p, t, i - 1);
    }
}

/// The finished board's per-player pattern counts follow the assembled
/// gate slots.
proof fn lemma_board_type_count(builder: BoardBuilder, b: Board, p: Player, t: u8, n: int)
    requires
        0 <= n <= 12,
        forall|k: int| 0 <= k < 12 ==> (#[trigger] builder.gates[k]) is Some,
        builder.builds(b),
    ensures
        b.owner_type_count(p, t as int, n) == dealt_type_count(builder.gates, p, t, n),
    decreases n,
{
    if n > 0 {
        lemma_board_type_count(builder, b, p, t, n - 1);
        crate::bits::lemma_divmod3((n - 1) / 3, (n - 1) % 3);
        let l = (n - 1) / 3;
        let g = (n - 1) % 3;
        assert(3 * l + g == n - 1);
        assert(builder.gates[3 * l + g] matches Some(gt) && b.silver(l, g) == (gt.allegiance
            == Player::Silver) && b.gatetype(l, g) == gt.gatetype);
    }
}

impl Board {
    /// Build a uniformly random legal board: shuffle the nine cells into
    /// four gold, four silver and one empty; give each player a gate
    /// pattern multiset {0, 0, 1, 2, 3, 3} in random order over a random
    /// 6/6 split of the twelve gate slots; draw every anchor and
    /// orientation bit at random.
    pub fn random() -> (r: Board)
        ensures
            r.wf(),
            r.standard_type_split(),
    {
        let mut balls: Vec<u8> = Vec::new();
        let mut c: u8 = 0;
        while c < 9
            invariant
                c <= 9,
                balls@.len() == c,
                forall|k: int| 0 <= k < c ==> balls@[k] == k,
            decreases 9 - c,
        {
            balls.push(c);
            c += 1;
        }
        proof {
            assert(balls@.no_duplicates());
            balls@.lemma_multiset_has_no_duplicates();
        }
        let ghost orig_balls = balls@;
        shuffle_bytes(&mut balls);
        proof {
            balls@.lemma_multiset_has_no_duplicates_conv();
            assert(balls@.no_duplicates());
            assert forall|k: int| 0 <= k < 9 implies (#[trigger] balls@[k]) < 9 by {
                assert(balls@.contains(balls@[k]));
                assert(balls@.to_multiset().count(balls@[k]) > 0);
                assert(orig_balls.to_multiset().count(balls@[k]) > 0);
                assert(orig_balls.contains(balls@[k]));
                let k0 = choose|k0: int| 0 <= k0 < orig_balls.len() && orig_balls[k0] == balls@[k];
            }
        }
        let mut gold_balls: Vec<u8> = Vec::new();
        gold_balls.push(balls[0]);
        gold_balls.push(balls[1]);
        gold_balls.push(balls[2]);
        gold_balls.push(balls[3]);
        let mut silver_balls: Vec<u8> = Vec::new();
        silver_balls.push(balls[4]);
        silver_balls.push(balls[5]);
        silver_balls.push(balls[6]);
        silver_balls.push(balls[7]);

        let mut gold_types: Vec<u8> = Vec::new();
        let mut silver_types: Vec<u8> = Vec::new();
        gold_types.push(0);
        gold_types.push(0);
        gold_types.push(1);
        gold_types.push(2);
        gold_types.push(3);
        gold_types.push(3);
        silver_types.push(0);
        silver_types.push(0);
        silver_types.push(1);
        silver_types.push(2);
        silver_types.push(3);
        silver_types.push(3);
        let ghost orig_types = gold_types@;
        let ghost orig_stypes = silver_types@;
        proof {
            assert(orig_types.len() == 6 && orig_types[0] == 0 && orig_types[1] == 0
                && orig_types[2] == 1 && orig_types[3] == 2 && orig_types[4] == 3 && orig_types[5]
                == 3);
            assert(orig_stypes.len() == 6 && orig_stypes[0] == 0 && orig_stypes[1] == 0
                && orig_stypes[2] == 1 && orig_stypes[3] == 2 && orig_stypes[4] == 3
                && orig_stypes[5] == 3);
            lemma_standard_list_counts(orig_types);
            lemma_standard_list_counts(orig_stypes);
        }
        shuffle_bytes(&mut gold_types);
        shuffle_bytes(&mut silver_types);
        proof {
            lemma_type_counts_carry(orig_types, gold_types@);
            lemma_type_counts_carry(orig_stypes, silver_types@);
            assert forall|k: int| 0 <= k < gold_types@.len() implies (#[trigger] gold_types@[k])
                <= 3 by {
                assert(gold_types@.contains(gold_types@[k]));
                assert(gold_types@.to_multiset().count(gold_types@[k]) > 0);
                assert(orig_types.to_multiset().count(gold_types@[k]) > 0);
                assert(orig_types.contains(gold_types@[k]));
                let k0 = choose|k0: int|
                    0 <= k0 < orig_types.len() && orig_types[k0] == gold_types@[k];
            }
            assert forall|k: int| 0 <= k < silver_types@.len() implies (#[trigger] silver_types@[k])
                <= 3 by {
                assert(silver_types@.contains(silver_types@[k]));
                assert(silver_types@.to_multiset().count(silver_types@[k]) > 0);
                assert(orig_stypes.to_multiset().count(silver_types@[k]) > 0);
                assert(orig_stypes.contains(silver_types@[k]));
                let k0 = choose|k0: int|
                    0 <= k0 < orig_stypes.len() && orig_stypes[k0] == silver_types@[k];
            }
        }

        let mut gate_distribution: Vec<bool> = Vec::new();
        let mut d: u8 = 0;
        while d < 6
            invariant
                d <= 6,
                gate_distribution@.len() == d,
                count_true_below(gate_distribution@, d as int) == 0,
                forall|k: int| 0 <= k < d ==> !gate_distribution@[k],
            decreases 6 - d,
        {
            let ghost pre = gate_distribution@;
            gate_distribution.push(false);
            proof {
                lemma_count_true_prefix(gate_distribution@, pre, d as int);
            }
            d += 1;
        }
        let mut d2: u8 = 0;
        while d2 < 6
            invariant
                d2 <= 6,
                gate_distribution@.len() == 6 + d2,
                count_true_below(gate_distribution@, 6 + d2 as int) == d2,
            decreases 6 - d2,
        {
            let ghost pre = gate_distribution@;
            gate_distribution.push(true);
            proof {
                lemma_count_true_prefix(gate_distribution@, pre, 6 + d2 as int);
            }
            d2 += 1;
        }
        proof {
            lemma_count_true_ms(gate_distribution@);
        }
        shuffle_bools(&mut gate_distribution);
        proof {
            lemma_count_true_ms(gate_distribution@);
            assert(count_true_below(gate_distribution@, 12) == 6);
        }
        let ghost dist = gate_distribution@;

        let mut gates: [Option<Gate>; 12] = [
            None,
            None,
            None,
            None,
            None,
            None,
            None,
            None,
            None,
            None,
            None,
            None,
        ];
        let mut i: u8 = 0;
        while i < 12
            invariant
                i <= 12,
                dist == gate_distribution@,
                dist.len() == 12,
                count_true_below(dist, 12) == 6,
                gold_types@.len() == 6 - ((i as int) - count_true_below(dist, i as int)),
                silver_types@.len() == 6 - count_true_below(dist, i as int),
                forall|k: int| 0 <= k < gold_types@.len() ==> (#[trigger] gold_types@[k]) <= 3,
                forall|k: int| 0 <= k < silver_types@.len() ==> (#[trigger] silver_types@[k]) <= 3,
                forall|k: int|
                    0 <= k < i ==> ((#[trigger] gates[k]) matches Some(gt) && (gt.allegiance
                        == Player::Silver) == dist[k] && gt.gatetype <= 3),
                forall|k: int| i <= k < 12 ==> (#[trigger] gates[k]) is None,
                forall|t: u8|
                    #[trigger] dealt_type_count(gates, Player::Gold, t, i as int)
                        + type_count_upto(gold_types@, t, gold_types@.len() as int)
                        == standard_count(t),
                forall|t: u8|
                    #[trigger] dealt_type_count(gates, Player::Silver, t, i as int)
                        + type_count_upto(silver_types@, t, silver_types@.len() as int)
                        == standard_count(t),
            decreases 12 - i,
        {
            proof {
                lemma_count_true_mono(dist, i as int, 12);
                lemma_count_true_mono(dist, 0, i as int);
            }
            let silver_here = gate_distribution[i as usize];
            let ghost pre_gold_vec = gold_types@;
            let ghost pre_silver_vec = silver_types@;
            let t = if silver_here {
                proof {
                    assert(count_true_below(dist, i as int + 1) == count_true_below(
                        dist,
                        i as int,
                    ) + 1);
                    lemma_count_true_mono(dist, i as int + 1, 12);
                }
                silver_types.pop().unwrap()
            } else {
                proof {
                    assert(count_true_below(dist, i as int + 1) == count_true_below(
                        dist,
                        i as int,
                    ));
                    lemma_count_true_mono(dist, i as int + 1, 12);
                }
                gold_types.pop().unwrap()
            };
            let ghost pre_gates = gates;
            gates[i as usize] = Some(
                Gate {
                    allegiance: if silver_here {
                        Player::Silver
                    } else {
                        Player::Gold
                    },
                    gatetype: t,
                    topleft: rand_bool(),
                },
            );
            proof {
                assert(count_true_below(dist, i as int + 1) == count_true_below(dist, i as int) + (
                if dist[i as int] {
                    1int
                } else {
                    0int
                }));
                let taken = if silver_here {
                    pre_silver_vec
                } else {
                    pre_gold_vec
                };
                let kept = if silver_here {
                    silver_types@
                } else {
                    gold_types@
                };
                assert(kept =~= taken.subrange(0, taken.len() - 1));
                assert(taken[taken.len() - 1] == t);
                let dealer = if silver_here {
                    Player::Silver
                } else {
                    Player::Gold
                };
                let bystander = if silver_here {
                    Player::Gold
                } else {
                    Player::Silver
                };
                assert forall|tt: u8|
                    #[trigger] dealt_type_count(gates, dealer, tt, i as int + 1) + type_count_upto(
                        kept,
                        tt,
                        kept.len() as int,
                    ) == standard_count(tt) by {
                    lemma_dealt_prefix(gates, pre_gates, dealer, tt, i as int);
                    lemma_type_count_prefix(taken, kept, tt, kept.len() as int);
                    assert(type_count_upto(taken, tt, taken.len() as int) == type_count_upto(
                        taken,
                        tt,
                        taken.len() - 1,
                    ) + (if t == tt {
                        1int
                    } else {
                        0int
                    }));
                }
                assert forall|tt: u8|
                    #[trigger] dealt_type_count(gates, bystander, tt, i as int + 1)
                        + type_count_upto(
                        (if silver_here {
                            gold_types@
                        } else {
                            silver_types@
                        }),
                        tt,
                        (if silver_here {
                            gold_types@
                        } else {
                            silver_types@
                        }).len() as int,
                    ) == standard_count(tt) by {
                    lemma_dealt_prefix(gates, pre_gates, bystander, tt, i as int);
                }
            }
            i += 1;
        }

        let gates_horizontal = [
            Some(rand_bool()),
            Some(rand_bool()),
            Some(rand_bool()),
            Some(rand_bool()),
        ];

        let ghost gseq = balls@;
        let builder = BoardBuilder { gold_balls, silver_balls, gates_horizontal, gates };
        let built = builder.finalize();
        proof {
            reveal_with_fuel(BoardBuilder::first_undef_dir, 6);
            reveal_with_fuel(BoardBuilder::first_undef_gate, 14);
            assert(builder.first_undef_dir(0) is None);
            assert(builder.first_undef_gate(0) is None);
            lemma_builder_silver_count(builder, dist, 12);
            assert(builder.silver_count(12) == 6);
        }
        match built {
            Ok(b) => {
                proof {
                    assert(builder.gold_balls@ =~= gseq.subrange(0, 4));
                    assert(builder.silver_balls@ =~= gseq.subrange(4, 8));
                    assert(gseq.subrange(0, 4).no_duplicates());
                    assert(gseq.subrange(4, 8).no_duplicates());
                    lemma_random_board_wf(builder, b, gseq, dist);
                    assert(builder.gates == gates);
                    assert forall|p: Player, t: u8|
                        t < 4 implies b.owner_type_count(p, t as int, 12) == standard_count(t) by {
                        assert(dealt_type_count(gates, p, t, 12) + type_count_upto(
                            (if p is Silver {
                                silver_types@
                            } else {
                                gold_types@
                            }),
                            t,
                            0,
                        ) == standard_count(t));
                        lemma_board_type_count(builder, b, p, t, 12);
                    }
                    assert(b.owner_type_count(Player::Gold, 0, 12) == 2);
                    assert(b.owner_type_count(Player::Gold, 1, 12) == 1);
                    assert(b.owner_type_count(Player::Gold, 2, 12) == 1);
                    assert(b.owner_type_count(Player::Gold, 3, 12) == 2);
                    assert(b.owner_type_count(Player::Silver, 0, 12) == 2);
                    assert(b.owner_type_count(Player::Silver, 1, 12) == 1);
                    assert(b.owner_type_count(Player::Silver, 2, 12) == 1);
                    assert(b.owner_type_count(Player::Silver, 3, 12) == 2);
                }
                b
            },
            Err(_) => {
                proof {
                    assert(false);
                }
                Board {
                    gold_balls: [0, 1, 2, 3],
                    silver_balls: [4, 5, 6, 7],
                    gates_horizontal: [true, true, true, true],
                    gates_topleft: [[true, true, true], [true, true, true], [true, true, true], [
                        true,
                        true,
                        true,
                    ]],
                    gates_silver: [[true, true, true], [true, true, true], [false, false, false], [
                        false,
                        false,
                        false,
                    ]],
                    gate_type: [[0, 0, 1], [2, 3, 3], [0, 0, 1], [2, 3, 3]],
                }
            },
        }
    }
}

/// The builder's silver gate count is the number of `true` entries of the
/// split it was assembled from.
proof fn lemma_builder_silver_count(builder: BoardBuilder, dist: Seq<bool>, n: int)
    requires
        0 <= n <= 12,
        dist.len() == 12,
        forall|k: int|
            0 <= k < 12 ==> ((#[trigger] builder.gates[k]) matches Some(gt) && (gt.allegiance
                == Player::Silver) == dist[k]),
    ensures
        builder.silver_count(n) == count_true_below(dist, n),
    decreases n,
{
    if n > 0 {
        lemma_builder_silver_count(builder, dist, n - 1);
    }
}

/// A board built from a shuffled cell list and a balanced split is well
/// formed.
proof fn lemma_random_board_wf(builder: BoardBuilder, b: Board, cells: Seq<u8>, dist: Seq<bool>)
    requires
        cells.len() == 9,
        cells.no_duplicates(),
        forall|k: int| 0 <= k < 9 ==> (#[trigger] cells[k]) < 9,
        builder.gold_balls@ =~= cells.subrange(0, 4),
        builder.silver_balls@ =~= cells.subrange(4, 8),
        dist.len() == 12,
        count_true_below(dist, 12) == 6,
        forall|k: int|
            0 <= k < 12 ==> ((#[trigger] builder.gates[k]) matches Some(gt) && (gt.allegiance
                == Player::Silver) == dist[k] && gt.gatetype <= 3),
        builder.builds(b),
    ensures
        b.wf(),
{
    let gm = builder.gold_balls@;
    let sm = builder.silver_balls@;
    // entries come from the distinct cell list
    assert forall|k: int| 0 <= k < 4 implies (#[trigger] b.gold_balls[k]) < 9 by {
        assert(b.gold_balls@.contains(b.gold_balls[k]));
        assert(b.gold_balls@.to_multiset().count(b.gold_balls[k]) > 0);
        assert(gm.to_multiset().count(b.gold_balls[k]) > 0);
        assert(gm.contains(b.gold_balls[k]));
        let k0 = choose|k0: int| 0 <= k0 < gm.len() && gm[k0] == b.gold_balls[k];
        assert(cells[k0] == b.gold_balls[k]);
    }
    assert forall|k: int| 0 <= k < 4 implies (#[trigger] b.silver_balls[k]) < 9 by {
        assert(b.silver_balls@.contains(b.silver_balls[k]));
        assert(b.silver_balls@.to_multiset().count(b.silver_balls[k]) > 0);
        assert(sm.to_multiset().count(b.silver_balls[k]) > 0);
        assert(sm.contains(b.silver_balls[k]));
        let k1 = choose|k1: int| 0 <= k1 < sm.len() && sm[k1] == b.silver_balls[k];
        assert(cells[4 + k1] == b.silver_balls[k]);
    }
    // distinct within each color
    assert(gm.no_duplicates());
    gm.lemma_multiset_has_no_duplicates();
    b.gold_balls@.lemma_multiset_has_no_duplicates_conv();
    assert(b.gold_balls@.no_duplicates());
    assert(sm.no_duplicates());
    sm.lemma_multiset_has_no_duplicates();
    b.silver_balls@.lemma_multiset_has_no_duplicates_conv();
    assert(b.silver_balls@.no_duplicates());
    // sorted (from the builder) plus distinct gives strictly sorted
    assert forall|i: int, j: int| 0 <= i < j < 4 implies b.gold_balls[i] < b.gold_balls[j] by {
        assert(b.gold_balls[i] <= b.gold_balls[j]);
        assert(b.gold_balls@[i] != b.gold_balls@[j]);
    }
    assert forall|i: int, j: int| 0 <= i < j < 4 implies b.silver_balls[i] < b.silver_balls[j] by {
        assert(b.silver_balls[i] <= b.silver_balls[j]);
        assert(b.silver_balls@[i] != b.silver_balls@[j]);
    }
    // the colors are disjoint
    assert forall|i: int, j: int| 0 <= i < 4 && 0 <= j < 4 implies b.gold_balls[i]
        != b.silver_balls[j] by {
        assert(b.gold_balls@.contains(b.gold_balls[i]));
        assert(b.gold_balls@.to_multiset().count(b.gold_balls[i]) > 0);
        assert(gm.to_multiset().count(b.gold_balls[i]) > 0);
        assert(gm.contains(b.gold_balls[i]));
        let k0 = choose|k0: int| 0 <= k0 < gm.len() && gm[k0] == b.gold_balls[i];
        assert(b.silver_balls@.contains(b.silver_balls[j]));
        assert(b.silver_balls@.to_multiset().count(b.silver_balls[j]) > 0);
        assert(sm.to_multiset().count(b.silver_balls[j]) > 0);
        assert(sm.contains(b.silver_balls[j]));
        let k1 = choose|k1: int| 0 <= k1 < sm.len() && sm[k1] == b.silver_balls[j];
        assert(cells[k0] == b.gold_balls[i]);
        assert(cells[4 + k1] == b.silver_balls[j]);
    }
    // gate patterns are in range
    assert forall|l: int, g: int| 0 <= l < 4 && 0 <= g < 3 implies b.gatetype(l, g) < 4 by {
        assert(builder.gates[3 * l + g] matches Some(gt) && b.gatetype(l, g) == gt.gatetype);
        assert(0 <= 3 * l + g < 12);
    }
    // exactly six silver gates
    lemma_board_silver_count(builder, b, dist, 12);
}

/// The finished board's silver gate count follows the split.
proof fn lemma_board_silver_count(builder: BoardBuilder, b: Board, dist: Seq<bool>, n: int)
    requires
        0 <= n <= 12,
        dist.len() == 12,
        count_true_below(dist, 12) == 6,
        forall|k: int|
            0 <= k < 12 ==> ((#[trigger] builder.gates[k]) matches Some(gt) && (gt.allegiance
                == Player::Silver) == dist[k]),
        builder.builds(b),
    ensures
        b.silver_gate_count(n) == count_true_below(dist, n),
        n == 12 ==> b.silver_gate_count(12) == 6,
    decreases n,
{
    if n > 0 {
        lemma_board_silver_count(builder, b, dist, n - 1);
        crate::bits::lemma_divmod3((n - 1) / 3, (n - 1) % 3);
        let l = (n - 1) / 3;
        let g = (n - 1) % 3;
        assert(3 * l + g == n - 1);
        assert(builder.gates[3 * l + g] matches Some(gt) && b.silver(l, g) == (gt.allegiance
            == Player::Silver));
    }
}

/// Step `k` of a playout from `start`: the move was legal for the player
/// whose turn it was, the state advanced by exactly that move, stayed
/// coherent, and the game was not yet decided before the move.
pub open(crate) spec fn playout_ok(
    board: Board,
    start: Compact,
    sp: Player,
    r: Seq<(Compact, Move)>,
    k: int,
) -> bool {
    let prev = if k == 0 {
        start
    } else {
        r[k - 1].0
    };
    let p = if k % 2 == 0 {
        sp
    } else {
        sp.spec_other()
    };
    &&& legal_move(board, prev, p, r[k].1)
    &&& model_of(r[k].0) == m_step(board, model_of(prev), r[k].1)
    &&& r[k].0.inv(board)
    &&& winner_of(board, prev.spec_balls()) == Winner::Nobody
}

impl Compact {
    /// Play uniformly random legal moves, alternating from
    /// `starting_player`, until somebody wins; return every reached state
    /// with the move that produced it.
    #[verifier::rlimit(100)]
    pub fn random_game(self, board: &Board, starting_player: Player) -> (r: Vec<(Compact, Move)>)
        requires
            board.wf(),
            self.inv(*board),
            self.spec_balls() & self.spec_gates() == 0,
            balanced(*board, model_of(self), starting_player),
        ensures
            forall|k: int|
                0 <= k < r@.len() ==> #[trigger] playout_ok(*board, self, starting_player, r@, k),
            ({
                let last = if r@.len() == 0 {
                    self
                } else {
                    r@[r@.len() - 1].0
                };
                winner_of(*board, last.spec_balls()) != Winner::Nobody
            }),
    {
        let move_generator = MoveChecker::new(board);
        let win_checker = WinningChecker::new(board);
        let mut state = self;
        let mut result: Vec<(Compact, Move)> = Vec::new();
        loop
            invariant
                board.wf(),
                move_generator.wf(),
                move_generator.spec_board() == *board,
                win_checker.wf(),
                win_checker.spec_board() == *board,
                state.inv(*board),
                state.spec_balls() & state.spec_gates() == 0,
                state == (if result@.len() == 0 {
                    self
                } else {
                    result@[result@.len() - 1].0
                }),
                balanced(
                    *board,
                    model_of(state),
                    (if result@.len() % 2 == 0 {
                        starting_player
                    } else {
                        starting_player.spec_other()
                    }),
                ),
                forall|k: int|
                    0 <= k < result@.len() ==> #[trigger] playout_ok(*board, self, starting_player, result@, k),
            ensures
                state == (if result@.len() == 0 {
                    self
                } else {
                    result@[result@.len() - 1].0
                }),
                winner_of(*board, state.spec_balls()) != Winner::Nobody,
                forall|k: int|
                    0 <= k < result@.len() ==> #[trigger] playout_ok(*board, self, starting_player, result@, k),
            decreases 36 - crate::state::shift_sum(state.spec_shifts(), 12),
        {
            if !matches!(win_checker.won(&state), Winner::Nobody) {
                break ;
            }
            let player = if result.len() % 2 == 0 {
                starting_player
            } else {
                starting_player.other()
            };
            let move_list = move_generator.moves(&state, player);
            proof {
                crate::state::lemma_shift_sum_bounds(state.spec_shifts(), 12);
                if move_list@.len() == 0 {
                    assert forall|mv: Move| !legal_move(*board, state, player, mv) by {
                        if legal_move(*board, state, player, mv) {
                            assert(move_list@.contains(mv));
                        }
                    }
                    crate::dfs::lemma_no_moves_terminal(*board, state, player);
                    assert(false);
                }
            }
            let pick = rand_below(move_list.len() as u64) as usize;
            let m = move_list[pick];
            let ghost pre = state;
            state.shift_gate(board, m.layer, m.gate);
            proof {
                crate::dfs::lemma_model_step_matches(*board, pre, state, m);
                crate::dfs::lemma_child_preconditions(*board, model_of(pre), player, m);
                crate::state::lemma_sums_after_shift(
                    *board,
                    pre.spec_shifts(),
                    m.layer as int,
                    m.gate as int,
                    player,
                    12,
                );
                crate::dfs::lemma_model_winner(*board, pre);
                crate::state::lemma_shift_sum_bounds(state.spec_shifts(), 12);
                assert(crate::state::shift_sum(state.spec_shifts(), 12) == crate::state::shift_sum(
                    pre.spec_shifts(),
                    12,
                ) + 1);
            }
            let ghost old_result = result@;
            result.push((state, m));
            proof {
                assert forall|k: int| 0 <= k < result@.len() implies #[trigger] playout_ok(
                    *board,
                    self,
                    starting_player,
                    result@,
                    k,
                ) by {
                    if k < old_result.len() {
                        assert(playout_ok(*board, self, starting_player, old_result, k));
                        assert(result@[k] == old_result[k]);
                        if k > 0 {
                            assert(result@[k - 1] == old_result[k - 1]);
                        }
                    } else {
                        assert(result@[k] == (state, m));
                        if k > 0 {
                            assert(result@[k - 1] == old_result[k - 1]);
                        }
                    }
                }
            }
        }
        proof {
            crate::dfs::lemma_model_winner(*board, state);
        }
        result
    }
}

} // verus!
