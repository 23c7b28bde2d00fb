//! The immutable puzzle description: which cells hold gold and silver balls,
//! each layer's orientation, and each gate's owner, anchor and initial
//! hole pattern.

use vstd::prelude::*;

use crate::Player;

verus! {

/// Immutable description of a Ballcube puzzle: four gold ball cells, four
/// silver ball cells (all distinct, leaving one of the nine cells empty),
/// and, for each of the four layers, its orientation plus the anchor, owner
/// and initial hole pattern of its three gates.
#[derive(Clone, Copy, Debug)]
pub struct Board {
    pub(crate) gold_balls: [u8; 4],
    pub(crate) silver_balls: [u8; 4],
    pub(crate) gates_horizontal: [bool; 4],
    pub(crate) gates_topleft: [[bool; 3]; 4],
    pub(crate) gates_silver: [[bool; 3]; 4],
    pub(crate) gate_type: [[u8; 3]; 4],
}

impl Board {
    /// Whether layer `l` keeps its horizontal orientation.
    pub open(crate) spec fn horiz(self, l: int) -> bool {
        self.gates_horizontal[l]
    }

    /// Whether gate `g` of layer `l` is anchored at the top-left.
    pub open(crate) spec fn topleft(self, l: int, g: int) -> bool {
        self.gates_topleft[l][g]
    }

    /// Whether gate `g` of layer `l` belongs to Silver.
    pub open(crate) spec fn silver(self, l: int, g: int) -> bool {
        self.gates_silver[l][g]
    }

    /// Owner of gate `g` of layer `l`.
    pub open(crate) spec fn gate_owner(self, l: int, g: int) -> Player {
        if self.silver(l, g) {
            Player::Silver
        } else {
            Player::Gold
        }
    }

    /// Initial hole pattern selector of gate `g` of layer `l`.
    pub open(crate) spec fn gatetype(self, l: int, g: int) -> int {
        self.gate_type[l][g] as int
    }

    pub open(crate) spec fn has_gold_ball(self, c: int) -> bool {
        exists|i: int| 0 <= i < 4 && self.gold_balls[i] == c
    }

    pub open(crate) spec fn has_silver_ball(self, c: int) -> bool {
        exists|i: int| 0 <= i < 4 && self.silver_balls[i] == c
    }

    /// Whether cell `c` starts with a ball of either color.
    pub open(crate) spec fn has_ball(self, c: int) -> bool {
        self.has_gold_ball(c) || self.has_silver_ball(c)
    }

    /// The owner of the ball that starts on cell `c`, if any.
    pub open(crate) spec fn ball_owner(self, c: int) -> Option<Player> {
        if self.has_gold_ball(c) {
            Some(Player::Gold)
        } else if self.has_silver_ball(c) {
            Some(Player::Silver)
        } else {
            None
        }
    }

    /// Number of silver gates among gates `0..n` in layer-major order.
    pub open(crate) spec fn silver_gate_count(self, n: int) -> int
        decreases n,
    {
        if n <= 0 {
            0
        } else {
            self.silver_gate_count(n - 1) + if self.silver((n - 1) / 3, (n - 1) % 3) {
                1int
            } else {
                0int
            }
        }
    }

    /// Number of gates among the first `n`, layer-major, that `p` owns
    /// with pattern selector `t`.
    pub open(crate) spec fn owner_type_count(self, p: Player, t: int, n: int) -> int
        decreases n,
    {
        if n <= 0 {
            0
        } else {
            self.owner_type_count(p, t, n - 1) + if self.gate_owner((n - 1) / 3, (n - 1) % 3) == p
                && self.gatetype((n - 1) / 3, (n - 1) % 3) == t {
                1int
            } else {
                0int
            }
        }
    }

    /// Each player's six gates carry the standard pattern multiset
    /// {0, 0, 1, 2, 3, 3}: two single-hole patterns at the edge slots, one
    /// in the middle, and two starting closed.
    pub open(crate) spec fn standard_type_split(self) -> bool {
        &&& self.owner_type_count(Player::Gold, 0, 12) == 2
        &&& self.owner_type_count(Player::Gold, 1, 12) == 1
        &&& self.owner_type_count(Player::Gold, 2, 12) == 1
        &&& self.owner_type_count(Player::Gold, 3, 12) == 2
        &&& self.owner_type_count(Player::Silver, 0, 12) == 2
        &&& self.owner_type_count(Player::Silver, 1, 12) == 1
        &&& self.owner_type_count(Player::Silver, 2, 12) == 1
        &&& self.owner_type_count(Player::Silver, 3, 12) == 2
    }

    /// A board is well formed when its ball arrays are strictly sorted cell
    /// indices below nine, the two colors are disjoint, every gate pattern
    /// selector is below four, and exactly six of the twelve gates are
    /// silver.
    pub open(crate) spec fn wf(self) -> bool {
        &&& forall|i: int, j: int|
            0 <= i < j < 4 ==> self.gold_balls[i] < self.gold_balls[j]
        &&& forall|i: int, j: int|
            0 <= i < j < 4 ==> self.silver_balls[i] < self.silver_balls[j]
        &&& forall|i: int| 0 <= i < 4 ==> self.gold_balls[i] < 9
        &&& forall|i: int| 0 <= i < 4 ==> self.silver_balls[i] < 9
        &&& forall|i: int, j: int|
            0 <= i < 4 && 0 <= j < 4 ==> self.gold_balls[i] != self.silver_balls[j]
        &&& forall|l: int, g: int| 0 <= l < 4 && 0 <= g < 3 ==> self.gatetype(l, g) < 4
        &&& self.silver_gate_count(12) == 6
    }

    /// The owner of the ball that starts on cell `cell_index`, if any.
    pub fn ball(&self, cell_index: u8) -> (r: Option<Player>)
        ensures
            r == self.ball_owner(cell_index as int),
    {
        let mut i: usize = 0;
        while i < 4
            invariant
                i <= 4,
                forall|k: int| 0 <= k < i ==> self.gold_balls[k] != cell_index,
            decreases 4 - i,
        {
            if self.gold_balls[i] == cell_index {
                return Some(Player::Gold);
            }
            i += 1;
        }
        let mut j: usize = 0;
        while j < 4
            invariant
                j <= 4,
                forall|k: int| 0 <= k < 4 ==> self.gold_balls[k] != cell_index,
                forall|k: int| 0 <= k < j ==> self.silver_balls[k] != cell_index,
            decreases 4 - j,
        {
            if self.silver_balls[j] == cell_index {
                return Some(Player::Silver);
            }
            j += 1;
        }
        None
    }

    /// A view of one layer of this board.
    pub fn layer(&self, layer_id: u8) -> (r: LayerProxy)
        requires
            layer_id < 4,
        ensures
            r.matches(*self, layer_id as int),
    {
        LayerProxy {
            layer_id,
            horizontal: self.gates_horizontal[layer_id as usize],
            topleft: self.gates_topleft[layer_id as usize],
            silver: self.gates_silver[layer_id as usize],
            gatetype: self.gate_type[layer_id as usize],
        }
    }
}

/// The data of a single layer, copied out of a board.
#[derive(Clone, Copy, Debug)]
pub struct LayerProxy {
    pub layer_id: u8,
    pub horizontal: bool,
    pub topleft: [bool; 3],
    pub silver: [bool; 3],
    pub gatetype: [u8; 3],
}

impl LayerProxy {
    /// This proxy faithfully reproduces layer `l` of `board`.
    pub open(crate) spec fn matches(self, board: Board, l: int) -> bool {
        &&& self.layer_id == l
        &&& self.horizontal == board.horiz(l)
        &&& forall|g: int| 0 <= g < 3 ==> self.topleft[g] == board.topleft(l, g)
        &&& forall|g: int| 0 <= g < 3 ==> self.silver[g] == board.silver(l, g)
        &&& forall|g: int| 0 <= g < 3 ==> self.gatetype[g] as int == board.gatetype(l, g)
    }

    /// Whether this layer keeps its horizontal orientation.
    pub fn horizontal(&self) -> (r: bool)
        ensures
            r == self.horizontal,
    {
        self.horizontal
    }

    /// A view of one gate of this layer.
    pub fn gate(&self, gate_id: u8) -> (r: GateProxy)
        requires
            gate_id < 3,
        ensures
            r.gate_id == gate_id,
            r.silver == self.silver[gate_id as int],
            r.topleft == self.topleft[gate_id as int],
            r.gatetype == self.gatetype[gate_id as int],
    {
        GateProxy {
            gate_id,
            silver: self.silver[gate_id as usize],
            topleft: self.topleft[gate_id as usize],
            gatetype: self.gatetype[gate_id as usize],
        }
    }
}

/// The data of a single gate, copied out of a layer.
#[derive(Clone, Copy, Debug)]
pub struct GateProxy {
    pub gate_id: u8,
    pub silver: bool,
    pub topleft: bool,
    pub gatetype: u8,
}

impl GateProxy {
    /// The player this gate belongs to.
    pub fn owner(&self) -> (r: Player)
        ensures
            r == (if self.silver {
                Player::Silver
            } else {
                Player::Gold
            }),
    {
        if self.silver {
            Player::Silver
        } else {
            Player::Gold
        }
    }

    /// Whether this gate is anchored at the top-left.
    pub fn topleft(&self) -> (r: bool)
        ensures
            r == self.topleft,
    {
        self.topleft
    }

    /// This gate's initial hole pattern selector.
    pub fn gatetype(&self) -> (r: u8)
        ensures
            r == self.gatetype,
    {
        self.gatetype
    }
}

/// Two boards are equal exactly when all their stored fields agree.
impl PartialEq for Board {
    fn eq(&self, other: &Self) -> (r: bool) {
        let mut same = true;
        let mut i: usize = 0;
        while i < 4
            invariant
                i <= 4,
                same == (forall|k: int|
                    0 <= k < i ==> self.gold_balls[k] == other.gold_balls[k]
                        && self.silver_balls[k] == other.silver_balls[k]
                        && self.gates_horizontal[k] == other.gates_horizontal[k]),
            decreases 4 - i,
        {
            same = same && self.gold_balls[i] == other.gold_balls[i] && self.silver_balls[i]
                == other.silver_balls[i] && self.gates_horizontal[i] == other.gates_horizontal[i];
            i += 1;
        }
        let mut l: usize = 0;
        while l < 4
            invariant
                l <= 4,
                same == ((forall|k: int|
                    0 <= k < 4 ==> self.gold_balls[k] == other.gold_balls[k]
                        && self.silver_balls[k] == other.silver_balls[k]
                        && self.gates_horizontal[k] == other.gates_horizontal[k]) && (forall|
                    l2: int,
                    g2: int,
                |
                    0 <= l2 < l && 0 <= g2 < 3 ==> self.gates_topleft[l2][g2]
                        == other.gates_topleft[l2][g2] && self.gates_silver[l2][g2]
                        == other.gates_silver[l2][g2] && self.gate_type[l2][g2]
                        == other.gate_type[l2][g2])),
            decreases 4 - l,
        {
            let mut g: usize = 0;
            while g < 3
                invariant
                    l < 4,
                    g <= 3,
                    same == ((forall|k: int|
                        0 <= k < 4 ==> self.gold_balls[k] == other.gold_balls[k]
                            && self.silver_balls[k] == other.silver_balls[k]
                            && self.gates_horizontal[k] == other.gates_horizontal[k]) && (forall|
                        l2: int,
                        g2: int,
                    |
                        0 <= l2 < l && 0 <= g2 < 3 ==> self.gates_topleft[l2][g2]
                            == other.gates_topleft[l2][g2] && self.gates_silver[l2][g2]
                            == other.gates_silver[l2][g2] && self.gate_type[l2][g2]
                            == other.gate_type[l2][g2]) && (forall|g2: int|
                        0 <= g2 < g ==> self.gates_topleft[l as int][g2]
                            == other.gates_topleft[l as int][g2] && self.gates_silver[l as int][g2]
                            == other.gates_silver[l as int][g2] && self.gate_type[l as int][g2]
                            == other.gate_type[l as int][g2])),
                decreases 3 - g,
            {
                same = same && self.gates_topleft[l][g] == other.gates_topleft[l][g]
                    && self.gates_silver[l][g] == other.gates_silver[l][g] && self.gate_type[l][g]
                    == other.gate_type[l][g];
                g += 1;
            }
            l += 1;
        }
        same
    }
}

/// Field-for-field agreement of two boards; what `==` decides.
pub open(crate) spec fn same_fields(a: Board, b: Board) -> bool {
    &&& forall|k: int|
        0 <= k < 4 ==> a.gold_balls[k] == b.gold_balls[k] && a.silver_balls[k] == b.silver_balls[k]
            && a.gates_horizontal[k] == b.gates_horizontal[k]
    &&& forall|l2: int, g2: int|
        0 <= l2 < 4 && 0 <= g2 < 3 ==> a.gates_topleft[l2][g2] == b.gates_topleft[l2][g2]
            && a.gates_silver[l2][g2] == b.gates_silver[l2][g2] && a.gate_type[l2][g2]
            == b.gate_type[l2][g2]
}

impl vstd::std_specs::cmp::PartialEqSpecImpl for Board {
    open spec fn obeys_eq_spec() -> bool {
        true
    }

    open spec fn eq_spec(&self, other: &Self) -> bool {
        same_fields(*self, *other)
    }
}

} // verus!
