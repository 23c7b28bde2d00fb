//! Assembling a [`Board`] from loose parts, with typed errors for every way
//! the parts can be incomplete or inconsistent.

use vstd::prelude::*;

use crate::Player;
use crate::board::Board;

verus! {

broadcast use vstd::multiset::group_multiset_axioms;

/// One gate of a board under construction.
#[derive(Clone, Copy, PartialEq, Eq, Structural, Debug)]
pub struct Gate {
    pub allegiance: Player,
    pub topleft: bool,
    pub gatetype: u8,
}

impl Gate {
    /// Start describing a gate field by field.
    pub fn build() -> (r: GateBuilder)
        ensures
            r.allegiance is None,
            r.topleft is None,
            r.gatetype is None,
    {
        GateBuilder { allegiance: None, topleft: None, gatetype: None }
    }
}

/// A gate under construction; every field starts unset.
#[derive(Clone, Copy, Debug)]
pub struct GateBuilder {
    pub allegiance: Option<Player>,
    pub topleft: Option<bool>,
    pub gatetype: Option<u8>,
}

impl GateBuilder {
    /// Make this a silver gate.
    pub fn s(&mut self) -> (r: &mut Self)
        ensures
            (*r).allegiance == Some(Player::Silver),
            (*r).topleft == old(self).topleft,
            (*r).gatetype == old(self).gatetype,
            *final(self) == *final(r),
    {
        self.allegiance = Some(Player::Silver);
        self
    }

    /// Make this a gold gate.
    pub fn g(&mut self) -> (r: &mut Self)
        ensures
            (*r).allegiance == Some(Player::Gold),
            (*r).topleft == old(self).topleft,
            (*r).gatetype == old(self).gatetype,
            *final(self) == *final(r),
    {
        self.allegiance = Some(Player::Gold);
        self
    }

    /// Anchor this gate at the top-left.
    pub fn t(&mut self) -> (r: &mut Self)
        ensures
            (*r).topleft == Some(true),
            (*r).allegiance == old(self).allegiance,
            (*r).gatetype == old(self).gatetype,
            *final(self) == *final(r),
    {
        self.topleft = Some(true);
        self
    }

    /// Anchor this gate at the bottom-right.
    pub fn b(&mut self) -> (r: &mut Self)
        ensures
            (*r).topleft == Some(false),
            (*r).allegiance == old(self).allegiance,
            (*r).gatetype == old(self).gatetype,
            *final(self) == *final(r),
    {
        self.topleft = Some(false);
        self
    }

    /// Choose this gate's initial hole pattern.
    pub fn ty(&mut self, index: u8) -> (r: &mut Self)
        ensures
            (*r).gatetype == Some(index),
            (*r).allegiance == old(self).allegiance,
            (*r).topleft == old(self).topleft,
            *final(self) == *final(r),
    {
        self.gatetype = Some(index);
        self
    }

    /// The finished gate, or `None` while any field is still unset.
    pub fn finalize(self) -> (r: Option<Gate>)
        ensures
            r == (match (self.allegiance, self.topleft, self.gatetype) {
                (Some(a), Some(t), Some(ty)) => Some(Gate { allegiance: a, topleft: t, gatetype: ty }),
                _ => None,
            }),
    {
        match (self.allegiance, self.topleft, self.gatetype) {
            (Some(allegiance), Some(topleft), Some(gatetype)) => Some(Gate {
                allegiance,
                topleft,
                gatetype,
            }),
            _ => None,
        }
    }
}

/// A board under construction: ball cells for each player, one orientation
/// per layer and one gate description per slot, each possibly still unset.
#[derive(Clone, Debug)]
pub struct BoardBuilder {
    pub gold_balls: Vec<u8>,
    pub silver_balls: Vec<u8>,
    pub gates_horizontal: [Option<bool>; 4],
    pub gates: [Option<Gate>; 12],
}

/// Why a [`BoardBuilder`] could not be finished.
#[derive(Clone, Copy, Debug, PartialEq, Eq, Structural)]
pub enum BoardBuildingError {
    GateDirectionUndefined(u8),
    GateUndefined(u8),
    BallCountIncorrect,
    GateAllegianceIncorrect,
}

/// Swapping two positions of a sequence leaves its multiset unchanged.
pub(crate) proof fn lemma_swap_multiset<A>(s: Seq<A>, i: int, j: int)
    requires
        0 <= i < s.len(),
        0 <= j < s.len(),
    ensures
        s.update(i, s[j]).update(j, s[i]).to_multiset() == s.to_multiset(),
{
    broadcast use vstd::seq_lib::group_to_multiset_ensures;

    if i == j {
        assert(s.update(i, s[j]).update(j, s[i]) =~= s);
    } else {
        let s1 = s.update(i, s[j]);
        vstd::seq_lib::to_multiset_update(s, i, s[j]);
        vstd::seq_lib::to_multiset_update(s1, j, s[i]);
        assert(s1[j] == s[j]);
        assert(s.contains(s[i]));
        assert(s.to_multiset().count(s[i]) > 0);
        assert(s1.update(j, s[i]).to_multiset() =~= s.to_multiset());
    }
}

/// Sort four cell indices ascending; the multiset of entries is kept.
fn sort4(v: [u8; 4]) -> (r: [u8; 4])
    ensures
        r@.to_multiset() == v@.to_multiset(),
        forall|a: int, b: int| 0 <= a < b < 4 ==> r[a] <= r[b],
{
    let mut r = v;
    let mut i: usize = 1;
    while i < 4
        invariant
            1 <= i <= 4,
            r@.to_multiset() == v@.to_multiset(),
            forall|a: int, b: int| 0 <= a < b < i ==> r[a] <= r[b],
        decreases 4 - i,
    {
        let mut j: usize = i;
        while j > 0 && r[j - 1] > r[j]
            invariant
                0 <= j <= i < 4,
                r@.to_multiset() == v@.to_multiset(),
                forall|a: int, b: int| 0 <= a < b <= i && b != j ==> r[a] <= r[b],
                forall|b: int| j < b <= i ==> r[j as int] <= r[b],
            decreases j,
        {
            let gr = Ghost(r@);
            let x = r[j - 1];
            let y = r[j];
            r[j - 1] = y;
            r[j] = x;
            proof {
                assert(r@ =~= gr@.update(j - 1, gr@[j as int]).update(j as int, gr@[j - 1]));
                lemma_swap_multiset(gr@, j - 1, j as int);
            }
            j -= 1;
        }
        i += 1;
    }
    r
}

impl BoardBuilder {
    /// The first layer whose orientation is still unset, if any.
    pub open(crate) spec fn first_undef_dir(self, l: int) -> Option<int>
        decreases 4 - l,
    {
        if l >= 4 {
            None
        } else if self.gates_horizontal[l] is None {
            Some(l)
        } else {
            self.first_undef_dir(l + 1)
        }
    }

    /// The first gate slot that is still unset, if any.
    pub open(crate) spec fn first_undef_gate(self, i: int) -> Option<int>
        decreases 12 - i,
    {
        if i >= 12 {
            None
        } else if self.gates[i] is None {
            Some(i)
        } else {
            self.first_undef_gate(i + 1)
        }
    }

    /// Number of silver gates among the slots `0..n`, all of which must be
    /// set.
    pub open(crate) spec fn silver_count(self, n: int) -> int
        decreases n,
    {
        if n <= 0 {
            0
        } else {
            self.silver_count(n - 1) + if self.gates[n - 1] matches Some(gt)
                && gt.allegiance == Player::Silver {
                1int
            } else {
                0int
            }
        }
    }

    /// What a finished board owes to its builder: orientations and gates
    /// copied slot for slot, and each player's ball cells sorted ascending
    /// while keeping the same multiset of cells.
    pub open(crate) spec fn builds(self, b: Board) -> bool {
        &&& forall|l: int|
            0 <= l < 4 ==> Some(b.horiz(l)) == #[trigger] self.gates_horizontal[l]
        &&& forall|l: int, g: int|
            0 <= l < 4 && 0 <= g < 3 ==> (#[trigger] self.gates[3 * l + g] matches Some(gt)
                && b.topleft(l, g) == gt.topleft
                && b.silver(l, g) == (gt.allegiance == Player::Silver)
                && b.gatetype(l, g) == gt.gatetype)
        &&& b.gold_balls@.to_multiset() == self.gold_balls@.to_multiset()
        &&& b.silver_balls@.to_multiset() == self.silver_balls@.to_multiset()
        &&& forall|i: int, j: int| 0 <= i < j < 4 ==> b.gold_balls[i] <= b.gold_balls[j]
        &&& forall|i: int, j: int| 0 <= i < j < 4 ==> b.silver_balls[i] <= b.silver_balls[j]
    }

    /// Finish the board. Errors are reported in a fixed order: the first
    /// unset layer orientation, then the first unset gate slot, then a
    /// silver gate count other than six, then a ball list whose length is
    /// not four.
    pub fn finalize(self) -> (r: Result<Board, BoardBuildingError>)
        ensures
            match r {
                Err(BoardBuildingError::GateDirectionUndefined(l)) => self.first_undef_dir(0)
                    == Some(l as int),
                Err(BoardBuildingError::GateUndefined(i)) => self.first_undef_dir(0) is None
                    && self.first_undef_gate(0) == Some(i as int),
                Err(BoardBuildingError::GateAllegianceIncorrect) => self.first_undef_dir(0) is None
                    && self.first_undef_gate(0) is None && self.silver_count(12) != 6,
                Err(BoardBuildingError::BallCountIncorrect) => self.first_undef_dir(0) is None
                    && self.first_undef_gate(0) is None && self.silver_count(12) == 6
                    && (self.gold_balls@.len() != 4 || self.silver_balls@.len() != 4),
                Ok(b) => self.first_undef_dir(0) is None && self.first_undef_gate(0) is None
                    && self.silver_count(12) == 6 && self.gold_balls@.len() == 4
                    && self.silver_balls@.len() == 4 && self.builds(b),
            },
    {
        let mut gates_horizontal = [false; 4];
        let mut l: usize = 0;
        while l < 4
            invariant
                l <= 4,
                self.first_undef_dir(0) == self.first_undef_dir(l as int),
                forall|k: int|
                    0 <= k < l ==> Some(#[trigger] gates_horizontal[k])
                        == self.gates_horizontal[k],
            decreases 4 - l,
        {
            proof {
                reveal_with_fuel(BoardBuilder::first_undef_dir, 5);
            }
            match self.gates_horizontal[l] {
                Some(h) => {
                    gates_horizontal[l] = h;
                }
                None => {
                    return Err(BoardBuildingError::GateDirectionUndefined(l as u8));
                }
            }
            l += 1;
        }

        let mut gates_topleft = [[false; 3]; 4];
        let mut gates_silver = [[false; 3]; 4];
        let mut gate_type = [[0u8; 3]; 4];
        let mut i: usize = 0;
        while i < 12
            invariant
                i <= 12,
                self.first_undef_dir(0) is None,
                self.first_undef_gate(0) == self.first_undef_gate(i as int),
                forall|k: int|
                    0 <= k < i ==> (#[trigger] self.gates[k] matches Some(gt)
                        && gates_topleft[k / 3][k % 3] == gt.topleft
                        && gates_silver[k / 3][k % 3] == (gt.allegiance == Player::Silver)
                        && gate_type[k / 3][k % 3] == gt.gatetype),
            decreases 12 - i,
        {
            proof {
                reveal_with_fuel(BoardBuilder::first_undef_gate, 13);
            }
            match self.gates[i] {
                Some(gt) => {
                    gates_topleft[i / 3][i % 3] = gt.topleft;
                    gates_silver[i / 3][i % 3] = matches!(gt.allegiance, Player::Silver);
                    gate_type[i / 3][i % 3] = gt.gatetype;
                }
                None => {
                    return Err(BoardBuildingError::GateUndefined(i as u8));
                }
            }
            i += 1;
        }

        let mut silver_gates: u8 = 0;
        let mut n: usize = 0;
        while n < 12
            invariant
                n <= 12,
                self.first_undef_dir(0) is None,
                self.first_undef_gate(0) is None,
                silver_gates <= n,
                silver_gates == self.silver_count(n as int),
            decreases 12 - n,
        {
            proof {
                reveal_with_fuel(BoardBuilder::first_undef_gate, 13);
                assert(self.first_undef_gate(n as int) is None);
            }
            if let Some(gt) = self.gates[n] {
                if matches!(gt.allegiance, Player::Silver) {
                    silver_gates += 1;
                }
            }
            n += 1;
        }
        if silver_gates != 6 {
            return Err(BoardBuildingError::GateAllegianceIncorrect);
        }

        if self.gold_balls.len() != 4 || self.silver_balls.len() != 4 {
            return Err(BoardBuildingError::BallCountIncorrect);
        }
        let gold_raw = [self.gold_balls[0], self.gold_balls[1], self.gold_balls[2], self.gold_balls[3]];
        let silver_raw = [
            self.silver_balls[0],
            self.silver_balls[1],
            self.silver_balls[2],
            self.silver_balls[3],
        ];
        proof {
            assert(gold_raw@ =~= self.gold_balls@);
            assert(silver_raw@ =~= self.silver_balls@);
        }
        let gold_balls = sort4(gold_raw);
        let silver_balls = sort4(silver_raw);

        let board = Board {
            gold_balls,
            silver_balls,
            gates_horizontal,
            gates_topleft,
            gates_silver,
            gate_type,
        };
        proof {
            assert forall|l2: int, g: int| 0 <= l2 < 4 && 0 <= g < 3 implies (#[trigger] self.gates[
            3 * l2 + g] matches Some(gt) && board.topleft(l2, g) == gt.topleft && board.silver(
                l2,
                g,
            ) == (gt.allegiance == Player::Silver) && board.gatetype(l2, g) == gt.gatetype) by {
                let k = 3 * l2 + g;
                assert(0 <= k < 12);
                assert(k / 3 == l2 && k % 3 == g) by {
                    crate::bits::lemma_divmod3(l2, g);
                }
            }
        }
        Ok(board)
    }
}

} // verus!
