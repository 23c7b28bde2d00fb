//! Exhaustive game-tree search: a depth-first minimax over positions that
//! returns a forced Win, Draw or Loss together with a move chain, winning
//! as fast as possible and losing as late as possible, with an optional
//! alpha-beta style cut that never changes the verdict.

use vstd::prelude::*;

use crate::ball_bitmask::depth_of;
use crate::board::Board;
use crate::move_check::{legal_move, move_key, Move, MoveChecker};
use crate::state::{
    add_shift, open_cell, owner_gate_count, owner_shift_sum, shift_of, shift_sum, Compact,
};
use crate::win_check::{winner_of, Winner, WinningChecker};
use crate::Player;

verus! {

/// What a position is ultimately worth to the player to move.
#[derive(Clone, Copy, PartialEq, Eq, Structural, Debug)]
pub enum Verdict {
    Win,
    Draw,
    Loss,
}

/// The ghost view of a position: one resting layer per ball column and the
/// packed shift counters.
pub struct GameModel {
    pub depths: Seq<int>,
    pub shifts: u64,
}

/// The ghost view of a concrete state.
pub open(crate) spec fn model_of(s: Compact) -> GameModel {
    GameModel {
        depths: Seq::new(9, |c: int| depth_of(s.spec_balls(), c)),
        shifts: s.spec_shifts(),
    }
}

/// Where a ball at layer `l` of column `c` comes to rest under the holes
/// that the counters dictate.
pub open(crate) spec fn fall_cells(board: Board, shifts: u64, c: int, l: int) -> int
    decreases 4 - l,
{
    if l < 0 {
        l
    } else if l >= 4 {
        4
    } else if open_cell(board, shifts, l, c) {
        fall_cells(board, shifts, c, l + 1)
    } else {
        l
    }
}

/// A legal move of `p` on the model: one of `p`'s gates, not exhausted.
pub open(crate) spec fn m_legal(board: Board, m: GameModel, p: Player, mv: Move) -> bool {
    &&& mv.layer < 4
    &&& mv.gate < 3
    &&& board.gate_owner(mv.layer as int, mv.gate as int) == p
    &&& shift_of(m.shifts, mv.layer as int, mv.gate as int) < 3
}

/// One move on the model: bump the counter, then let every column fall
/// from its current layer.
pub open(crate) spec fn m_step(board: Board, m: GameModel, mv: Move) -> GameModel {
    let shifts2 = add_shift(m.shifts, mv.layer as int, mv.gate as int);
    GameModel {
        depths: Seq::new(9, |c: int| fall_cells(board, shifts2, c, m.depths[c])),
        shifts: shifts2,
    }
}

pub open(crate) spec fn m_done(board: Board, m: GameModel, p: Player) -> bool {
    forall|c: int| 0 <= c < 9 && board.ball_owner(c) == Some(p) ==> #[trigger] m.depths[c] == 4
}

pub open(crate) spec fn m_winner(board: Board, m: GameModel) -> Winner {
    match (m_done(board, m, Player::Gold), m_done(board, m, Player::Silver)) {
        (false, false) => Winner::Nobody,
        (true, false) => Winner::One(Player::Gold),
        (false, true) => Winner::One(Player::Silver),
        (true, true) => Winner::Both,
    }
}

/// Shifts that `p` still has: three per owned gate, less those made.
pub open(crate) spec fn rem_of(board: Board, m: GameModel, p: Player) -> int {
    3 * owner_gate_count(board, p, 12) - owner_shift_sum(board, m.shifts, p, 12)
}

/// The player to move has as many remaining shifts as the opponent, or one
/// more. Alternating play preserves this, and it rules out a player being
/// stranded without a move before the game is decided.
pub open(crate) spec fn balanced(board: Board, m: GameModel, p: Player) -> bool {
    rem_of(board, m, p) == rem_of(board, m, p.spec_other()) || rem_of(board, m, p) == rem_of(
        board,
        m,
        p.spec_other(),
    ) + 1
}

pub open spec fn flip_verdict(k: Verdict) -> Verdict {
    match k {
        Verdict::Win => Verdict::Loss,
        Verdict::Draw => Verdict::Draw,
        Verdict::Loss => Verdict::Win,
    }
}

pub open(crate) spec fn rank(k: Verdict) -> int {
    match k {
        Verdict::Win => 2,
        Verdict::Draw => 1,
        Verdict::Loss => 0,
    }
}

/// A verdict together with the length of its move chain.
pub struct SpecEval {
    pub kind: Verdict,
    pub len: int,
}

/// The search order: a better verdict always wins; among equal verdicts a
/// shorter chain is better, except for losses, where a longer chain delays
/// defeat.
pub open(crate) spec fn better(a: SpecEval, b: SpecEval) -> bool {
    ||| rank(a.kind) > rank(b.kind)
    ||| (a.kind == b.kind && (if a.kind is Loss {
        a.len > b.len
    } else {
        a.len < b.len
    }))
}

/// Value of a decided position for the player to move.
pub open(crate) spec fn terminal_eval(board: Board, m: GameModel, p: Player) -> SpecEval {
    match m_winner(board, m) {
        Winner::Both => SpecEval { kind: Verdict::Draw, len: 0 },
        Winner::One(x) => if x == p {
            SpecEval { kind: Verdict::Win, len: 0 }
        } else {
            SpecEval { kind: Verdict::Loss, len: 0 }
        },
        Winner::Nobody => SpecEval { kind: Verdict::Loss, len: 0 },
    }
}

pub open(crate) spec fn total_rem(m: GameModel) -> int {
    36 - shift_sum(m.shifts, 12)
}

/// Layer-major slot `i`, as a move.
pub open(crate) spec fn move_at(i: int) -> Move {
    Move { layer: (i / 3) as u8, gate: (i % 3) as u8 }
}

/// The value of the best move among the gates with index below `i`, kept
/// in first-found order on ties, or `None` when none of them is legal.
pub open(crate) spec fn best_upto(board: Board, m: GameModel, p: Player, i: int) -> Option<SpecEval>
    decreases total_rem(m), i, 1int,
    when m.shifts >> 24 == 0
    via best_upto_decreases
{
    if i <= 0 {
        None
    } else {
        let prev = best_upto(board, m, p, i - 1);
        if m_legal(board, m, p, move_at(i - 1)) {
            let child = eval_spec(board, m_step(board, m, move_at(i - 1)), p.spec_other());
            let c = SpecEval { kind: flip_verdict(child.kind), len: child.len + 1 };
            match prev {
                None => Some(c),
                Some(b) => if better(c, b) {
                    Some(c)
                } else {
                    Some(b)
                },
            }
        } else {
            prev
        }
    }
}

/// The minimax value of a position for the player to move: terminal
/// positions are read off the winner; otherwise the best reply decides.
pub open(crate) spec fn eval_spec(board: Board, m: GameModel, p: Player) -> SpecEval
    decreases total_rem(m), 13int, 0int,
    when m.shifts >> 24 == 0
    via eval_spec_decreases
{
    if m_winner(board, m) != Winner::Nobody {
        terminal_eval(board, m, p)
    } else {
        match best_upto(board, m, p, 12) {
            Some(v) => v,
            None => SpecEval { kind: Verdict::Loss, len: 0 },
        }
    }
}

#[via_fn]
proof fn best_upto_decreases(board: Board, m: GameModel, p: Player, i: int) {
    if i > 0 && m_legal(board, m, p, move_at(i - 1)) {
        let mv = move_at(i - 1);
        crate::state::lemma_sums_after_shift(
            board,
            m.shifts,
            mv.layer as int,
            mv.gate as int,
            p,
            12,
        );
        crate::state::lemma_shift_sum_bounds(
            add_shift(m.shifts, mv.layer as int, mv.gate as int),
            12,
        );
        crate::state::lemma_shift_sum_bounds(m.shifts, 12);
    }
}

#[via_fn]
proof fn eval_spec_decreases(board: Board, m: GameModel, p: Player) {
    crate::state::lemma_shift_sum_bounds(m.shifts, 12);
}

/// The terminal outcome that a verdict for `p` stands for: the winner the
/// returned chain must reach.
pub open spec fn verdict_winner(k: Verdict, p: Player) -> Winner {
    match k {
        Verdict::Win => Winner::One(p),
        Verdict::Loss => Winner::One(p.spec_other()),
        Verdict::Draw => Winner::Both,
    }
}

/// Replaying `moves` from `m`, with `p` to move first: every position a
/// move is played from is still undecided, each move is legal for the
/// player whose turn it is, the state advances by one model step per move,
/// and the final position's winner is exactly `w`.
pub open(crate) spec fn chain_leads_to(
    board: Board,
    m: GameModel,
    p: Player,
    moves: Seq<Move>,
    w: Winner,
) -> bool
    decreases moves.len(),
{
    if moves.len() == 0 {
        m_winner(board, m) == w
    } else {
        &&& m_winner(board, m) == Winner::Nobody
        &&& m_legal(board, m, p, moves[0])
        &&& chain_leads_to(
            board,
            m_step(board, m, moves[0]),
            p.spec_other(),
            moves.drop_first(),
            w,
        )
    }
}

/// An ordered list of moves plus the player to move at the chain's
/// terminal state; moves are stored leaf first and replayed back to front.
#[derive(Clone, Debug)]
pub struct MoveChain {
    pub(crate) chain: Vec<Move>,
    pub(crate) starting_player: Player,
}

impl MoveChain {
    /// Stored moves, leaf first.
    pub open(crate) spec fn spec_moves(self) -> Seq<Move> {
        self.chain@
    }

    /// The moves in replay order, root first.
    pub open(crate) spec fn replay_seq(self) -> Seq<Move> {
        self.chain@.reverse()
    }

    pub open(crate) spec fn spec_start(self) -> Player {
        self.starting_player
    }

    pub(crate) fn new(starting_player: Player) -> (r: Self)
        ensures
            r.spec_moves() == Seq::<Move>::empty(),
            r.spec_start() == starting_player,
    {
        let r = Self { chain: Vec::new(), starting_player };
        proof {
            assert(r.chain@ =~= Seq::<Move>::empty());
        }
        r
    }

    /// Put `m` at the front of the replay order and flip the root player.
    pub(crate) fn prepend(&mut self, m: Move)
        ensures
            final(self).spec_moves() == old(self).spec_moves().push(m),
            final(self).spec_start() == old(self).spec_start().spec_other(),
    {
        self.chain.push(m);
        self.starting_player = self.starting_player.other();
    }

    /// The stored moves, leaf first; iterate in reverse to replay.
    pub fn moves(&self) -> (r: &Vec<Move>)
        ensures
            r@ == self.spec_moves(),
    {
        &self.chain
    }

    /// The player to move at the root of the chain.
    pub fn starting_player(&self) -> (r: Player)
        ensures
            r == self.spec_start(),
    {
        self.starting_player
    }
}

/// A solved position: the verdict for the player to move, with a chain
/// that realizes it.
#[derive(Clone, Debug)]
pub enum DFSEvaluation {
    Win(MoveChain),
    Draw(MoveChain),
    Loss(MoveChain),
}

impl DFSEvaluation {
    pub open(crate) spec fn spec_kind(self) -> Verdict {
        match self {
            Self::Win(_) => Verdict::Win,
            Self::Draw(_) => Verdict::Draw,
            Self::Loss(_) => Verdict::Loss,
        }
    }

    pub open(crate) spec fn spec_chain(self) -> MoveChain {
        match self {
            Self::Win(x) => x,
            Self::Draw(x) => x,
            Self::Loss(x) => x,
        }
    }

    /// The verdict and chain length, as the search compares them.
    pub open(crate) spec fn value(self) -> SpecEval {
        SpecEval { kind: self.spec_kind(), len: self.spec_chain().spec_moves().len() as int }
    }

    pub(crate) fn flip(self) -> (r: Self)
        ensures
            r.spec_kind() == flip_verdict(self.spec_kind()),
            r.spec_chain() == self.spec_chain(),
    {
        match self {
            Self::Win(x) => Self::Loss(x),
            Self::Draw(x) => Self::Draw(x),
            Self::Loss(x) => Self::Win(x),
        }
    }

    pub(crate) fn add_move(&mut self, m: Move)
        ensures
            final(self).spec_kind() == old(self).spec_kind(),
            final(self).spec_chain().spec_moves() == old(self).spec_chain().spec_moves().push(m),
            final(self).spec_chain().spec_start() == old(
                self,
            ).spec_chain().spec_start().spec_other(),
    {
        match self {
            Self::Win(x) => x.prepend(m),
            Self::Draw(x) => x.prepend(m),
            Self::Loss(x) => x.prepend(m),
        }
    }

    /// The chain realizing this verdict.
    pub fn moves(&self) -> (r: &MoveChain)
        ensures
            *r == self.spec_chain(),
    {
        match self {
            Self::Win(x) | Self::Draw(x) | Self::Loss(x) => x,
        }
    }
}

/// Whether `a` beats `b` in the search order.
fn eval_better(a: &DFSEvaluation, b: &DFSEvaluation) -> (r: bool)
    ensures
        r == better(a.value(), b.value()),
{
    match (a, b) {
        (DFSEvaluation::Win(x), DFSEvaluation::Win(y)) => x.moves().len() < y.moves().len(),
        (DFSEvaluation::Win(_), _) => true,
        (DFSEvaluation::Draw(_), DFSEvaluation::Win(_)) => false,
        (DFSEvaluation::Draw(x), DFSEvaluation::Draw(y)) => x.moves().len() < y.moves().len(),
        (DFSEvaluation::Draw(_), DFSEvaluation::Loss(_)) => true,
        (DFSEvaluation::Loss(x), DFSEvaluation::Loss(y)) => x.moves().len() > y.moves().len(),
        (DFSEvaluation::Loss(_), _) => false,
    }
}

/// The exhaustive solver for one board.
pub struct DFSWinFinder {
    pub(crate) checker: WinningChecker,
    pub(crate) move_generator: MoveChecker,
    pub(crate) board: Board,
}

impl DFSWinFinder {
    pub open(crate) spec fn spec_board(self) -> Board {
        self.board
    }

    pub open(crate) spec fn wf(self) -> bool {
        &&& self.board.wf()
        &&& self.checker.wf()
        &&& self.checker.spec_board() == self.board
        &&& self.move_generator.wf()
        &&& self.move_generator.spec_board() == self.board
    }

    pub fn new(board: &Board) -> (r: Self)
        requires
            board.wf(),
        ensures
            r.wf(),
            r.spec_board() == *board,
    {
        let checker = WinningChecker::new(board);
        let move_generator = MoveChecker::new(board);
        Self { checker, move_generator, board: *board }
    }

    /// Solve a position. The verdict equals the minimax value whether or
    /// not pruning is on; without pruning the chain length is the optimal
    /// one as well. The returned chain backs the result up: replayed from
    /// the given position it passes only undecided positions through
    /// legal alternating moves, starting with the given player, and ends
    /// in a terminal won by that player for Win, by the opponent for Loss,
    /// and by both for Draw. At a decided position the chain is empty.
    pub fn evaluate(&self, state: &Compact, player: Player, prune_alpha_beta: bool) -> (r:
        DFSEvaluation)
        requires
            self.wf(),
            state.inv(self.spec_board()),
            state.spec_balls() & state.spec_gates() == 0,
            balanced(self.spec_board(), model_of(*state), player),
        ensures
            r.spec_kind() == eval_spec(self.spec_board(), model_of(*state), player).kind,
            !prune_alpha_beta ==> r.value() == eval_spec(self.spec_board(), model_of(*state), player),
            r.spec_chain().spec_start() == player,
            chain_leads_to(
                self.spec_board(),
                model_of(*state),
                player,
                r.spec_chain().replay_seq(),
                verdict_winner(r.spec_kind(), player),
            ),
        decreases 36 - shift_sum(state.spec_shifts(), 12),
    {
        let ghost board = self.spec_board();
        let ghost m = model_of(*state);
        proof {
            crate::state::lemma_shift_sum_bounds(state.spec_shifts(), 12);
            lemma_model_winner(board, *state);
        }
        match self.checker.won(state) {
            Winner::Nobody => {},
            Winner::Both => {
                return DFSEvaluation::Draw(MoveChain::new(player));
            },
            Winner::One(x) => {
                let e = MoveChain::new(player);
                return if x == player {
                    DFSEvaluation::Win(e)
                } else {
                    DFSEvaluation::Loss(e)
                };
            },
        }

        let move_list = self.move_generator.moves(state, player);
        proof {
            assert forall|j: int|
                0 <= j < 12 && (move_list@.len() == 0 || j < move_key(move_list@[0]))
                    implies !m_legal(board, m, player, move_at(j)) by {
                if m_legal(board, m, player, move_at(j)) {
                    crate::bits::lemma_divmod3(j / 3, j % 3);
                    assert(move_key(move_at(j)) == j);
                    assert(legal_move(board, *state, player, move_at(j)));
                    assert(move_list@.contains(move_at(j)));
                    let k0 = choose|k: int| 0 <= k < move_list@.len() && move_list@[k] == move_at(j);
                    if k0 > 0 {
                        assert(move_key(move_list@[0]) < move_key(move_list@[k0]));
                    }
                    assert(false);
                }
            }
        }
        let mut best_option: Option<DFSEvaluation> = None;
        let ghost mut kb: int = 0;
        let mut idx: usize = 0;
        while idx < move_list.len()
            invariant
                self.wf(),
                board == self.spec_board(),
                m == model_of(*state),
                state.inv(board),
                state.spec_balls() & state.spec_gates() == 0,
                balanced(board, m, player),
                m_winner(board, m) == Winner::Nobody,
                idx <= move_list@.len(),
                0 <= kb <= 12,
                forall|k: int|
                    0 <= k < move_list@.len() ==> legal_move(board, *state, player, #[trigger] move_list@[k]),
                forall|mv: Move|
                    legal_move(board, *state, player, mv) ==> #[trigger] move_list@.contains(mv),
                forall|k1: int, k2: int|
                    0 <= k1 < k2 < move_list@.len() ==> move_key(#[trigger] move_list@[k1])
                        < move_key(#[trigger] move_list@[k2]),
                idx < move_list@.len() ==> kb <= move_key(move_list@[idx as int]),
                forall|j: int|
                    kb <= j < 12 && (idx == move_list@.len() || j < move_key(
                        move_list@[idx as int],
                    )) ==> !m_legal(board, m, player, move_at(j)),
                match (best_option, best_upto(board, m, player, kb)) {
                    (None, None) => true,
                    (Some(b), Some(v)) => b.spec_kind() == v.kind && (!prune_alpha_beta
                        ==> b.value() == v) && b.spec_chain().spec_start() == player
                        && chain_leads_to(
                        board,
                        m,
                        player,
                        b.spec_chain().replay_seq(),
                        verdict_winner(b.spec_kind(), player),
                    ),
                    _ => false,
                },
            decreases move_list@.len() - idx,
        {
            let mv = move_list[idx];
            proof {
                assert(legal_move(board, *state, player, mv));
                lemma_skip_illegal(board, m, player, kb, move_key(mv));
            }
            let mut new_state = *state;
            new_state.shift_gate(&self.board, mv.layer, mv.gate);
            proof {
                lemma_model_step_matches(board, *state, new_state, mv);
                lemma_child_preconditions(board, m, player, mv);
                crate::state::lemma_sums_after_shift(
                    board,
                    m.shifts,
                    mv.layer as int,
                    mv.gate as int,
                    player,
                    12,
                );
                crate::state::lemma_shift_sum_bounds(new_state.spec_shifts(), 12);
            }
            let child = self.evaluate(&new_state, player.other(), prune_alpha_beta);
            let mut ev = child.flip();
            ev.add_move(mv);
            proof {
                let stored = ev.spec_chain().spec_moves();
                assert(stored == child.spec_chain().spec_moves().push(mv));
                assert(stored.take(stored.len() - 1) =~= child.spec_chain().spec_moves());
                assert(verdict_winner(ev.spec_kind(), player) == verdict_winner(
                    child.spec_kind(),
                    player.spec_other(),
                ));
                lemma_chain_extends(
                    board,
                    m,
                    player,
                    mv,
                    stored,
                    verdict_winner(ev.spec_kind(), player),
                );
                assert(ev.spec_chain().spec_start() == player);
            }

            let replace = match &best_option {
                None => true,
                Some(b) => eval_better(&ev, b),
            };
            if replace {
                best_option = Some(ev);
            }
            proof {
                let key = move_key(mv);
                crate::bits::lemma_divmod3(mv.layer as int, mv.gate as int);
                assert(move_at(key) == mv);
                assert(m_legal(board, m, player, mv));
                assert(best_upto(board, m, player, key) == best_upto(board, m, player, kb));
                assert(best_upto(board, m, player, key + 1) is Some);
                kb = key + 1;
                assert forall|j: int|
                    kb <= j < 12 && (idx + 1 == move_list@.len() || j < move_key(
                        move_list@[idx as int + 1],
                    )) implies !m_legal(board, m, player, move_at(j)) by {
                    if m_legal(board, m, player, move_at(j)) {
                        crate::bits::lemma_divmod3(j / 3, j % 3);
                        assert(move_key(move_at(j)) == j);
                        assert(legal_move(board, *state, player, move_at(j)));
                        assert(move_list@.contains(move_at(j)));
                        let k0 = choose|k: int|
                            0 <= k < move_list@.len() && move_list@[k] == move_at(j);
                        if k0 <= idx {
                            assert(move_key(move_list@[k0]) <= move_key(move_list@[idx as int]));
                        } else {
                            assert(idx + 1 < move_list@.len());
                            assert(k0 >= idx + 1);
                            assert(move_key(move_list@[k0]) >= move_key(
                                move_list@[idx as int + 1],
                            ));
                        }
                        assert(false);
                    }
                }
            }
            idx += 1;

            if prune_alpha_beta {
                if matches!(&best_option, Some(DFSEvaluation::Win(_))) {
                    proof {
                        lemma_win_stays(board, m, player, kb);
                    }
                    return best_option.unwrap();
                }
            }
        }
        proof {
            lemma_skip_illegal(board, m, player, kb, 12);
            if best_option is None {
                lemma_none_no_legal(board, m, player, 12);
                assert forall|mv: Move| !legal_move(board, *state, player, mv) by {
                    if legal_move(board, *state, player, mv) {
                        let j = move_key(mv);
                        crate::bits::lemma_divmod3(mv.layer as int, mv.gate as int);
                        assert(move_at(j) == mv);
                        assert(!m_legal(board, m, player, move_at(j)));
                        assert(false);
                    }
                }
                lemma_no_moves_terminal(board, *state, player);
                assert(false);
            }
        }
        best_option.unwrap()
    }
}

/// The model's winner agrees with the state's winner.
pub(crate) proof fn lemma_model_winner(board: Board, s: Compact)
    ensures
        m_winner(board, model_of(s)) == winner_of(board, s.spec_balls()),
{
    lemma_done_eq(board, s, Player::Gold);
    lemma_done_eq(board, s, Player::Silver);
}

proof fn lemma_done_eq(board: Board, s: Compact, p: Player)
    ensures
        m_done(board, model_of(s), p) == crate::win_check::player_done(board, s.spec_balls(), p),
{
    let m = model_of(s);
    if crate::win_check::player_done(board, s.spec_balls(), p) {
        assert forall|c: int| 0 <= c < 9 && board.ball_owner(c) == Some(p)
            implies #[trigger] m.depths[c] == 4 by {
            assert(depth_of(s.spec_balls(), c) == 4);
        }
    }
    if m_done(board, m, p) {
        assert forall|c: int| 0 <= c < 9 && board.ball_owner(c) == Some(p)
            implies #[trigger] depth_of(s.spec_balls(), c) == 4 by {
            assert(m.depths[c] == 4);
        }
    }
}

/// Falling through the holes of the mask is falling through the holes the
/// counters dictate.
proof fn lemma_fall_eq(board: Board, shifts: u64, gates: u64, c: int, l: int)
    requires
        crate::state::gates_ok(board, shifts, gates),
        0 <= c < 9,
        0 <= l <= 4,
    ensures
        crate::ball_bitmask::fall_to(gates, c, l) == fall_cells(board, shifts, c, l),
    decreases 4 - l,
{
    if l < 4 {
        assert(crate::ball_bitmask::layer_bit(gates, l, c) == open_cell(board, shifts, l, c));
        if open_cell(board, shifts, l, c) {
            lemma_fall_eq(board, shifts, gates, c, l + 1);
        }
    }
}

/// Applying a move to the concrete state steps the model.
pub(crate) proof fn lemma_model_step_matches(board: Board, s_old: Compact, s_new: Compact, mv: Move)
    requires
        board.wf(),
        s_new.inv(board),
        mv.layer < 4,
        mv.gate < 3,
        s_new.spec_shifts() == add_shift(s_old.spec_shifts(), mv.layer as int, mv.gate as int),
        forall|c: int|
            0 <= c < 9 ==> #[trigger] depth_of(s_new.spec_balls(), c) == crate::ball_bitmask::fall_to(
                s_new.spec_gates(),
                c,
                depth_of(s_old.spec_balls(), c),
            ),
    ensures
        model_of(s_new) == m_step(board, model_of(s_old), mv),
{
    let m2 = m_step(board, model_of(s_old), mv);
    assert forall|c: int| 0 <= c < 9 implies #[trigger] model_of(s_new).depths[c] == m2.depths[c] by {
        crate::ball_bitmask::lemma_depth_bounds(s_old.spec_balls(), c);
        lemma_fall_eq(
            board,
            s_new.spec_shifts(),
            s_new.spec_gates(),
            c,
            depth_of(s_old.spec_balls(), c),
        );
    }
    assert(model_of(s_new).depths =~= m2.depths);
}

/// After a legal move the opponent is the balanced side.
pub(crate) proof fn lemma_child_preconditions(board: Board, m: GameModel, p: Player, mv: Move)
    requires
        m.shifts >> 24 == 0,
        balanced(board, m, p),
        m_legal(board, m, p, mv),
    ensures
        balanced(board, m_step(board, m, mv), p.spec_other()),
{
    let o = p.spec_other();
    crate::state::lemma_sums_after_shift(board, m.shifts, mv.layer as int, mv.gate as int, p, 12);
    crate::state::lemma_sums_after_shift(board, m.shifts, mv.layer as int, mv.gate as int, o, 12);
    assert(board.gate_owner(mv.layer as int, mv.gate as int) == p);
    assert(o != p);
}

/// `best_upto` does not change across a range of illegal gate indices.
proof fn lemma_skip_illegal(board: Board, m: GameModel, p: Player, a: int, b: int)
    requires
        m.shifts >> 24 == 0,
        0 <= a <= b <= 12,
        forall|j: int| a <= j < b ==> !m_legal(board, m, p, move_at(j)),
    ensures
        best_upto(board, m, p, b) == best_upto(board, m, p, a),
    decreases b - a,
{
    if a < b {
        lemma_skip_illegal(board, m, p, a, b - 1);
    }
}

/// An empty best means no gate below the bound was legal.
proof fn lemma_none_no_legal(board: Board, m: GameModel, p: Player, i: int)
    requires
        m.shifts >> 24 == 0,
        0 <= i <= 12,
        best_upto(board, m, p, i) is None,
    ensures
        forall|j: int| 0 <= j < i ==> !m_legal(board, m, p, #[trigger] move_at(j)),
    decreases i,
{
    if i > 0 {
        lemma_none_no_legal(board, m, p, i - 1);
    }
}

/// Once the best option is a win, the final verdict is a win.
proof fn lemma_win_stays(board: Board, m: GameModel, p: Player, i: int)
    requires
        m.shifts >> 24 == 0,
        0 <= i <= 12,
        best_upto(board, m, p, i) matches Some(v) && v.kind == Verdict::Win,
    ensures
        best_upto(board, m, p, 12) matches Some(v) && v.kind == Verdict::Win,
    decreases 12 - i,
{
    if i < 12 {
        lemma_win_stays(board, m, p, i + 1);
    }
}

/// A player without a legal move in a balanced, undecided position cannot
/// exist: both players would have to be out of shifts, and then every gate
/// is fully open and every ball has left the cube.
pub(crate) proof fn lemma_no_moves_terminal(board: Board, s: Compact, p: Player)
    requires
        board.wf(),
        s.inv(board),
        s.spec_balls() & s.spec_gates() == 0,
        balanced(board, model_of(s), p),
        forall|mv: Move| !legal_move(board, s, p, mv),
    ensures
        winner_of(board, s.spec_balls()) == Winner::Both,
{
    let m = model_of(s);
    let o = p.spec_other();
    // p's counters are all 3
    assert forall|l: int, g: int|
        0 <= l < 4 && 0 <= g < 3 && board.gate_owner(l, g) == p implies #[trigger] shift_of(
        m.shifts,
        l,
        g,
    ) == 3 by {
        let mv = Move { layer: l as u8, gate: g as u8 };
        assert(!legal_move(board, s, p, mv));
        crate::state::lemma_shift_of_bounds(m.shifts, l, g);
    }
    lemma_owner_sum_full(board, m.shifts, p, 12);
    assert(rem_of(board, m, p) == 0);
    crate::state::lemma_owner_sum_bounds(board, m.shifts, o, 12);
    assert(rem_of(board, m, o) >= 0);
    assert(rem_of(board, m, o) == 0);
    crate::state::lemma_owner_sum_bounds(board, m.shifts, o, 12);
    assert forall|l: int, g: int| 0 <= l < 4 && 0 <= g < 3 implies #[trigger] shift_of(
        m.shifts,
        l,
        g,
    ) == 3 by {
        if board.gate_owner(l, g) != p {
            assert(board.gate_owner(l, g) == o) by {
                if board.silver(l, g) {
                    assert(board.gate_owner(l, g) == Player::Silver);
                } else {
                    assert(board.gate_owner(l, g) == Player::Gold);
                }
            }
        }
    }
    // every cell of every layer is open
    assert forall|l: int, c: int| 0 <= l < 4 && 0 <= c < 9 implies open_cell(
        board,
        s.spec_shifts(),
        l,
        c,
    ) by {
        let h = board.horiz(l);
        let g = crate::state::gate_of_cell(h, c);
        assert(0 <= g < 3) by {
            crate::bits::lemma_divmod3(c / 3, c % 3);
        }
        assert(shift_of(s.spec_shifts(), l, g) == 3);
        lemma_window_saturated(board.gatetype(l, g));
        crate::state::lemma_perm_cells(c);
        let k = crate::bits::canon_pos(h, board.topleft(l, g), c) % 3;
        assert(0 <= k < 3);
    }
    // so every ball has fallen out
    assert forall|c: int| 0 <= c < 9 && board.has_ball(c) implies #[trigger] depth_of(
        s.spec_balls(),
        c,
    ) == 4 by {
        let d = depth_of(s.spec_balls(), c);
        crate::ball_bitmask::lemma_depth_bounds(s.spec_balls(), c);
        if d < 4 {
            let balls = s.spec_balls();
            assert(crate::ball_bitmask::layer_bit(balls, d, c)) by {
                let l0 = choose|l: int|
                    0 <= l <= 4 && crate::ball_bitmask::col_of(balls, c) == #[trigger] (1u64 << ((9
                        * l) as u64));
                crate::ball_bitmask::lemma_col_single_facts(balls, c, l0);
            }
            assert(crate::ball_bitmask::layer_bit(s.spec_gates(), d, c));
            crate::bits::lemma_bit_ops(balls, s.spec_gates(), (9 * d + c) as u64);
            assert(crate::bits::bit64(balls & s.spec_gates(), (9 * d + c) as u64));
            crate::bits::lemma_zero_word((9 * d + c) as u64, 0);
        }
    }
}

/// After three shifts every slot of a window is open.
proof fn lemma_window_saturated(ty: int)
    ensures
        forall|k: int| 0 <= k < 3 ==> crate::state::win_bit(crate::state::window(ty, 3), k),
{
    crate::state::lemma_window_facts(ty, 0);
    crate::state::lemma_window_facts(ty, 1);
    crate::state::lemma_window_facts(ty, 2);
    let w2 = crate::state::window(ty, 2);
    let w3 = crate::state::window(ty, 3);
    assert(w3 == w2 / 2 + 4);
    assert(crate::state::win_bit(w3, 2));
    assert(w2 >= 6 ==> w3 == 7) by (nonlinear_arith)
        requires
            w3 == w2 / 2 + 4,
            0 <= w2 <= 7,
    ;
    assert(w2 >= 6) by {
        let w1 = crate::state::window(ty, 1);
        assert(w2 == w1 / 2 + 4);
        assert(w1 >= 4);
    }
    assert(w3 == 7);
}

/// With every owned gate at three shifts, the owner's sum is full.
proof fn lemma_owner_sum_full(board: Board, sh: u64, p: Player, n: int)
    requires
        0 <= n <= 12,
        forall|l: int, g: int|
            0 <= l < 4 && 0 <= g < 3 && board.gate_owner(l, g) == p ==> #[trigger] shift_of(
                sh,
                l,
                g,
            ) == 3,
    ensures
        owner_shift_sum(board, sh, p, n) == 3 * owner_gate_count(board, p, n),
    decreases n,
{
    if n > 0 {
        lemma_owner_sum_full(board, sh, p, n - 1);
        crate::bits::lemma_divmod3((n - 1) / 3, (n - 1) % 3);
    }
}

/// Prepending a legal move from an undecided position to a chain that
/// reaches `w` gives a chain that reaches `w`.
proof fn lemma_chain_extends(
    board: Board,
    m: GameModel,
    p: Player,
    mv: Move,
    stored: Seq<Move>,
    w: Winner,
)
    requires
        m_winner(board, m) == Winner::Nobody,
        m_legal(board, m, p, mv),
        stored.len() >= 1,
        stored[stored.len() - 1] == mv,
        chain_leads_to(
            board,
            m_step(board, m, mv),
            p.spec_other(),
            stored.take(stored.len() - 1).reverse(),
            w,
        ),
    ensures
        chain_leads_to(board, m, p, stored.reverse(), w),
{
    let rev = stored.reverse();
    assert(rev[0] == mv);
    assert(rev.drop_first() =~= stored.take(stored.len() - 1).reverse());
}

} // verus!
