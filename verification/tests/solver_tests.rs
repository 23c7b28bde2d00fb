use ballcube::board::Board;
use ballcube::builder::{BoardBuilder, Gate};
use ballcube::dependency::dependency;
use ballcube::dfs::{DFSEvaluation, DFSWinFinder, MoveChain};
use ballcube::island::measure_island;
use ballcube::move_check::MoveChecker;
use ballcube::state::Compact;
use ballcube::win_check::{Winner, WinningChecker};
use ballcube::Player;

fn generate_test_board() -> Board {
    BoardBuilder {
        gold_balls: vec![0, 1, 2, 3],
        silver_balls: vec![4, 5, 6, 7],
        gates_horizontal: [true, false, true, false].map(Some),
        gates: [
            Gate::build().s().t().ty(3).finalize(),
            Gate::build().g().t().ty(3).finalize(),
            Gate::build().g().b().ty(3).finalize(),
            Gate::build().g().b().ty(0).finalize(),
            Gate::build().g().t().ty(0).finalize(),
            Gate::build().s().t().ty(1).finalize(),
            Gate::build().s().t().ty(0).finalize(),
            Gate::build().s().b().ty(1).finalize(),
            Gate::build().g().b().ty(0).finalize(),
            Gate::build().g().b().ty(3).finalize(),
            Gate::build().s().b().ty(2).finalize(),
            Gate::build().s().t().ty(2).finalize(),
        ],
    }
    .finalize()
    .expect("Could not generate board")
}

/// An all-horizontal, all-topleft board whose twelve owners and patterns
/// are given layer-major, with a choice of ball cells per player.
fn flat_board_with_balls(
    gold_balls: Vec<u8>,
    silver_balls: Vec<u8>,
    silver: [bool; 12],
    types: [u8; 12],
) -> Board {
    let mut gates: [Option<Gate>; 12] = [None; 12];
    for i in 0..12 {
        gates[i] = Some(Gate {
            allegiance: if silver[i] { Player::Silver } else { Player::Gold },
            topleft: true,
            gatetype: types[i],
        });
    }
    BoardBuilder {
        gold_balls,
        silver_balls,
        gates_horizontal: [true; 4].map(Some),
        gates,
    }
    .finalize()
    .expect("Could not generate board")
}

/// As `flat_board_with_balls` with the standard ball layout.
fn flat_board(silver: [bool; 12], types: [u8; 12]) -> Board {
    flat_board_with_balls(vec![0, 1, 2, 3], vec![4, 5, 6, 7], silver, types)
}

/// Pack a state key from per-cell depths and a shift counter word.
fn state_key(depths: [u64; 9], shifts: u64) -> u64 {
    let mut base5 = 0u64;
    let mut power = 1u64;
    for d in depths {
        base5 += d * power;
        power *= 5;
    }
    base5 | (shifts << 21)
}

/// Replay an evaluation's chain from `state`, checking that turns
/// alternate from the chain's starting player, every move belongs to the
/// player making it, and no move targets an exhausted gate.
fn check_moves(board: &Board, state: &Compact, moves: &MoveChain) {
    let mut state = *state;
    for (i, m) in moves.moves().iter().rev().enumerate() {
        let current_player = if i % 2 == 0 {
            moves.starting_player()
        } else {
            moves.starting_player().other()
        };
        assert_eq!(
            board.layer(m.layer()).gate(m.gate()).owner(),
            current_player,
            "Move does not fit player"
        );
        assert!(
            state.get_shift(m.layer(), m.gate()) < 3,
            "Move already removed gate"
        );
        state.shift_gate(board, m.layer(), m.gate());
    }
}

/// Replay an evaluation's chain and check that it reaches its promised
/// outcome: every position a move is played from is still undecided, and
/// the final
/// position's winner is the chain's root player for a win, the opponent
/// for a loss, and both for a draw.
fn check_chain_outcome(board: &Board, state: &Compact, ev: &DFSEvaluation) {
    let checker = WinningChecker::new(board);
    let mut s = *state;
    let chain = ev.moves();
    for m in chain.moves().iter().rev() {
        assert_eq!(checker.won(&s), Winner::Nobody);
        s.shift_gate(board, m.layer(), m.gate());
    }
    let expected = match ev {
        DFSEvaluation::Win(c) => Winner::One(c.starting_player()),
        DFSEvaluation::Loss(c) => Winner::One(c.starting_player().other()),
        DFSEvaluation::Draw(_) => Winner::Both,
    };
    assert_eq!(checker.won(&s), expected);
}

#[test]
fn won_is_exclusive() {
    for _ in 0..20 {
        let board = Board::random();
        let checker = WinningChecker::new(&board);
        let initial = Compact::build_from_board(&board);
        let game = initial.random_game(&board, Player::Gold);
        for (k, (s, _)) in game.iter().enumerate() {
            let gold_out = (0..9).all(|c| {
                board.ball(c) != Some(Player::Gold) || s.depth()[c as usize] == 4
            });
            let silver_out = (0..9).all(|c| {
                board.ball(c) != Some(Player::Silver) || s.depth()[c as usize] == 4
            });
            let expected = match (gold_out, silver_out) {
                (false, false) => Winner::Nobody,
                (true, false) => Winner::One(Player::Gold),
                (false, true) => Winner::One(Player::Silver),
                (true, true) => Winner::Both,
            };
            assert_eq!(checker.won(s), expected);
            if k + 1 < game.len() {
                assert_eq!(checker.won(s), Winner::Nobody);
            }
        }
    }
}

#[test]
fn moves_lists_unexhausted_own_gates() {
    let board = generate_test_board();
    let checker = MoveChecker::new(&board);
    let mut state = Compact::build_from_board(&board);
    assert_eq!(checker.moves(&state, Player::Gold).len(), 6);
    assert_eq!(checker.moves(&state, Player::Silver).len(), 6);
    // exhaust silver gate (0, 0)
    state.shift_gate(&board, 0, 0);
    state.shift_gate(&board, 0, 0);
    state.shift_gate(&board, 0, 0);
    let silver_moves = checker.moves(&state, Player::Silver);
    assert_eq!(silver_moves.len(), 5);
    for m in &silver_moves {
        assert_eq!(board.layer(m.layer()).gate(m.gate()).owner(), Player::Silver);
        assert!(state.get_shift(m.layer(), m.gate()) < 3);
    }
    assert_eq!(checker.moves(&state, Player::Gold).len(), 6);
}

#[test]
fn terminal_states_evaluate_to_empty_chains() {
    for _ in 0..5 {
        let board = Board::random();
        let initial = Compact::build_from_board(&board);
        let game = initial.random_game(&board, Player::Silver);
        let last = game.last().expect("empty game").0;
        let checker = WinningChecker::new(&board);
        let finder = DFSWinFinder::new(&board);
        for player in [Player::Gold, Player::Silver] {
            let ev = finder.evaluate(&last, player, true);
            assert!(ev.moves().moves().is_empty());
            check_chain_outcome(&board, &last, &ev);
            match (checker.won(&last), &ev) {
                (Winner::Both, DFSEvaluation::Draw(_)) => {}
                (Winner::One(x), DFSEvaluation::Win(_)) => assert_eq!(x, player),
                (Winner::One(x), DFSEvaluation::Loss(_)) => assert_eq!(x, player.other()),
                other => panic!("unexpected terminal evaluation {:?}", other.0),
            }
        }
    }
}

#[test]
fn forced_win_in_one_move() {
    // only gate (3, 0), gold's, can still move; its third shift drops
    // gold's last ball, while silver's last ball stays put on gate (3, 1)
    let board = flat_board_with_balls(
        vec![0, 1, 2, 4],
        vec![3, 5, 6, 7],
        [
            true, true, true, true, true, false, false, false, false, false, true, false,
        ],
        [3; 12],
    );
    let shifts = 0xFF_FFFF_u64 - (1 << 18) - (1 << 20);
    let state = Compact::from_u64(state_key([3, 4, 4, 3, 4, 4, 4, 4, 4], shifts), &board);
    let finder = DFSWinFinder::new(&board);
    let ev = finder.evaluate(&state, Player::Gold, true);
    match &ev {
        DFSEvaluation::Win(chain) => {
            assert_eq!(chain.moves().len(), 1);
            assert_eq!(chain.starting_player(), Player::Gold);
        }
        other => panic!("expected a win, got {:?}", other),
    }
    check_moves(&board, &state, ev.moves());
    check_chain_outcome(&board, &state, &ev);
}

#[test]
fn forced_loss_in_one_move() {
    // only gate (3, 0), silver's, can still move; its third shift drops
    // gold's last ball while silver's own rests on gate (3, 1), so silver
    // to move loses in one
    let board = flat_board_with_balls(
        vec![0, 1, 2, 4],
        vec![3, 5, 6, 7],
        [
            true, true, true, true, true, false, false, false, false, true, false, false,
        ],
        [3; 12],
    );
    let shifts = 0xFF_FFFF_u64 - (1 << 18) - (1 << 20);
    let state = Compact::from_u64(state_key([3, 4, 4, 3, 4, 4, 4, 4, 4], shifts), &board);
    let finder = DFSWinFinder::new(&board);
    let ev = finder.evaluate(&state, Player::Silver, true);
    match &ev {
        DFSEvaluation::Loss(chain) => {
            assert_eq!(chain.moves().len(), 1);
            assert_eq!(chain.starting_player(), Player::Silver);
        }
        other => panic!("expected a loss, got {:?}", other),
    }
    check_moves(&board, &state, ev.moves());
    check_chain_outcome(&board, &state, &ev);
}

#[test]
fn mutual_zugzwang_loses_for_whoever_moves() {
    // each player's one remaining gate sits under the other player's last
    // ball: whichever player must move hands the opponent the win
    let board = flat_board(
        [
            true, true, true, true, true, false, false, false, false, true, false, false,
        ],
        [3; 12],
    );
    // silver's gate (3, 0) holds gold's ball at cell 2... and gold's gate
    // (3, 1) holds silver's ball at cell 5; both gates still unshifted
    let shifts = 0xFF_FFFF_u64 - (3 << 18) - (3 << 20);
    let state = Compact::from_u64(state_key([4, 4, 3, 4, 4, 3, 4, 4, 4], shifts), &board);
    let finder = DFSWinFinder::new(&board);
    for player in [Player::Gold, Player::Silver] {
        let ev = finder.evaluate(&state, player, false);
        assert!(matches!(ev, DFSEvaluation::Loss(_)));
        check_chain_outcome(&board, &state, &ev);
    }
}

#[test]
fn pruning_never_changes_the_verdict() {
    // a fixed endgame with two live gates per player: silver's (3, 0) and
    // (2, 0), gold's (3, 1) and (2, 2), each shifted once, with one ball
    // of each color still resting on the bottom layer
    let board = flat_board(
        [
            true, true, true, true, false, false, true, false, false, true, false, false,
        ],
        [3; 12],
    );
    let shifts = 0xFF_FFFF_u64 - (2 << 12) - (2 << 16) - (2 << 18) - (2 << 20);
    let state = Compact::from_u64(state_key([3, 4, 4, 4, 3, 4, 4, 4, 4], shifts), &board);
    let finder = DFSWinFinder::new(&board);
    for player in [Player::Gold, Player::Silver] {
        let pruned = finder.evaluate(&state, player, true);
        let full = finder.evaluate(&state, player, false);
        assert_eq!(
            std::mem::discriminant(&pruned),
            std::mem::discriminant(&full)
        );
        check_moves(&board, &state, pruned.moves());
        check_moves(&board, &state, full.moves());
        check_chain_outcome(&board, &state, &pruned);
        check_chain_outcome(&board, &state, &full);
    }

    for _ in 0..5 {
        let board = Board::random();
        let initial = Compact::build_from_board(&board);
        let game = initial.random_game(&board, Player::Silver);
        let finder = DFSWinFinder::new(&board);
        for k in 0..game.len() {
            let state = game[k].0;
            // evaluate only positions with at most six shifts left, so the
            // unpruned search stays well within the time budget
            if state.shift_count() < 30 {
                continue;
            }
            let player = if (k + 1) % 2 == 0 {
                Player::Silver
            } else {
                Player::Gold
            };
            let pruned = finder.evaluate(&state, player, true);
            let full = finder.evaluate(&state, player, false);
            assert_eq!(
                std::mem::discriminant(&pruned),
                std::mem::discriminant(&full)
            );
            check_moves(&board, &state, pruned.moves());
            check_moves(&board, &state, full.moves());
            check_chain_outcome(&board, &state, &pruned);
            check_chain_outcome(&board, &state, &full);
        }
    }
}

#[test]
fn random_evaluation() {
    let board = Board::random();
    let state = Compact::build_from_board(&board);

    let mut state_stack: Vec<(Compact, Player)> = Vec::new();
    for (k, (s, _)) in state.random_game(&board, Player::Silver).iter().enumerate() {
        let to_move = if (k + 1) % 2 == 0 {
            Player::Silver
        } else {
            Player::Gold
        };
        state_stack.push((*s, to_move));
    }

    let win_checker = WinningChecker::new(&board);
    while let Some(last) = state_stack.last() {
        if win_checker.won(&last.0) == Winner::Nobody {
            break;
        }
        state_stack.pop();
    }

    let mut evaluated = 0;
    while let Some((chosen_state, player)) = state_stack.last().copied() {
        // keep each search shallow enough for the time budget
        if chosen_state.shift_count() < 28 {
            break;
        }
        let ev = DFSWinFinder::new(&board).evaluate(&chosen_state, player, true);
        let ev_str = match &ev {
            DFSEvaluation::Win(_) => "Win",
            DFSEvaluation::Draw(_) => "Draw",
            DFSEvaluation::Loss(_) => "Loss",
        };

        println!(
            "{} for {:#?} in {:02} turns",
            ev_str,
            player,
            ev.moves().moves().len()
        );

        println!(
            "[{:02}] Board: {:#018x}, State: {:#018x}",
            state_stack.len(),
            board.to_u64(),
            chosen_state.to_u64()
        );

        check_moves(&board, &chosen_state, ev.moves());

        evaluated += 1;
        state_stack.pop();
        if state_stack.len() <= 13 || evaluated >= 10 {
            break;
        }
    }
}

#[test]
fn island_finds_the_nearest_opposing_ball() {
    // every gate starts closed; silver's first gate covers gold's balls
    // and gold's gate in the last column covers silver's
    let board = flat_board(
        [
            true, false, false, true, true, true, true, true, false, false, false, false,
        ],
        [3; 12],
    );
    let state = Compact::build_from_board(&board);
    let measure = measure_island(&board, &state);
    let sd = measure.silver_definite.expect("silver island");
    assert_eq!(
        (sd.distance, sd.ball_id, sd.layer, sd.gate),
        (1, 0, 0, 0)
    );
    let gd = measure.gold_definite.expect("gold island");
    assert_eq!(
        (gd.distance, gd.ball_id, gd.layer, gd.gate),
        (1, 6, 0, 2)
    );
    let sh = measure.silver_heuristic.expect("silver heuristic");
    assert_eq!((sh.distance, sh.ball_id), (1, 0));
    // the measure is a pure function of board and state
    let again = measure_island(&board, &state);
    assert_eq!(measure, again);
}

#[test]
fn dependency_exact_distances() {
    let board = generate_test_board();
    let state = Compact::build_from_board(&board);
    let deps = dependency(&board, &state, 2);
    assert_eq!(deps[0], vec![1]);
    assert_eq!(deps[1], vec![1, 3]);
    assert_eq!(deps[2], vec![1]);
    assert_eq!(deps[3], vec![2]);
}

#[test]
fn dataset_row_exact_values() {
    let board = generate_test_board();
    let state = Compact::build_from_board(&board);
    let row = ballcube::features::case_features(&board, &state, Player::Gold, 2);
    let expected: Vec<u8> = vec![
        0, 0, 0, 0, 0, 0, 0, 0, 1, 0, 1, 0, 1, 0, 1, 0, 2, 4, // balls
        1, 1, 3, 1, 0, 0, 3, 1, 0, 0, 3, 0, 0, // layer 0
        0, 0, 0, 0, 0, 0, 0, 1, 0, 1, 1, 1, 0, // layer 1
        1, 1, 0, 1, 0, 1, 1, 0, 0, 0, 0, 0, 0, // layer 2
        0, 0, 3, 0, 0, 1, 2, 0, 0, 1, 2, 1, 0, // layer 3
        0, 2, // player to move and verdict code
    ];
    assert_eq!(row, expected);
}

fn shift_possibility_string(
    shift_possibilities: &[Vec<u8>; 4],
    board: &Board,
    cell: u8,
) -> String {
    let x = (0_u8..)
        .zip(shift_possibilities.iter())
        .map(|(layer_index, layer_ints)| {
            let layer = board.layer(layer_index);
            let gate_id = if layer.horizontal() { cell / 3 } else { cell % 3 };
            let gatecolor_str = match layer.gate(gate_id).owner() {
                Player::Gold => "G",
                Player::Silver => "S",
            };
            format!(
                "[{}{}] {:<4}",
                gatecolor_str,
                gate_id,
                layer_ints
                    .clone()
                    .iter()
                    .map(|x| format!("{}", x))
                    .collect::<Vec<String>>()
                    .join(", ")
            )
        })
        .collect::<Vec<String>>()
        .join("; ");
    format!(
        "{} {}",
        board.ball(cell).map_or("X", |x| match x {
            Player::Gold => "G",
            Player::Silver => "S",
        }),
        x
    )
}

#[test]
fn dependency_random_evaluation() {
    let board = Board::random();
    let state = Compact::build_from_board(&board);

    println!(
        "Board: {:#018x}, State: {:#018x}",
        board.to_u64(),
        state.to_u64()
    );

    for i in 0..9 {
        println!(
            "{}",
            shift_possibility_string(&dependency(&board, &state, i), &board, i)
        );
    }
}
