use ballcube::board::Board;
use ballcube::builder::{BoardBuilder, Gate};
use ballcube::state::Compact;
use ballcube::Player;

fn generate_test_board() -> Board {
    BoardBuilder {
        gold_balls: vec![0, 1, 2, 3],
        silver_balls: vec![4, 5, 6, 7],
        gates_horizontal: [true, false, true, false].map(Some),
        gates: [
            Gate::build().s().t().ty(3).finalize(),
            Gate::build().g().t().ty(3).finalize(),
            Gate::build().g().b().ty(3).finalize(),
            Gate::build().g().b().ty(0).finalize(),
            Gate::build().g().t().ty(0).finalize(),
            Gate::build().s().t().ty(1).finalize(),
            Gate::build().s().t().ty(0).finalize(),
            Gate::build().s().b().ty(1).finalize(),
            Gate::build().g().b().ty(0).finalize(),
            Gate::build().g().b().ty(3).finalize(),
            Gate::build().s().b().ty(2).finalize(),
            Gate::build().s().t().ty(2).finalize(),
        ],
    }
    .finalize()
    .expect("Could not generate board")
}

fn run_shifting_checks() {
    let b = generate_test_board();
    let mut s = Compact::build_from_board(&b);

    assert_eq!(s.depth(), [0, 0, 0, 0, 0, 0, 0, 0, 4]);
    assert_eq!(s.get_gate_bits() & 0b1_1111_1111_u64, 0);
    assert_eq!(s.shift_count(), 0);
    s.shift_gate_raw(&b, 0, 0);
    assert_eq!(s.get_shift(0, 0), 1);
    assert_eq!(s.shift_count(), 1);

    assert_eq!(s.get_gate_bits() & 0b1_1111_1111_u64, 0b0_0000_0100);
    s.drop_balls();
    assert_eq!(s.depth(), [0, 0, 1, 0, 0, 0, 0, 0, 4]);

    s.shift_gate(&b, 1, 2);
    assert_eq!(s.get_shift(1, 2), 1);
    assert_eq!(s.shift_count(), 2);

    assert_eq!(s.depth(), [0, 0, 2, 0, 0, 0, 0, 0, 4]);

    s.shift_gate(&b, 2, 0);
    assert_eq!(s.get_shift(2, 0), 1);
    assert_eq!(s.shift_count(), 3);

    assert_eq!(s.depth(), [0, 0, 3, 0, 0, 0, 0, 0, 4]);

    s.shift_gate(&b, 3, 2);
    assert_eq!(s.get_shift(3, 2), 1);
    assert_eq!(s.shift_count(), 4);

    s.shift_gate(&b, 3, 2);
    assert_eq!(s.get_shift(3, 2), 2);
    assert_eq!(s.shift_count(), 5);

    assert_eq!(s.depth(), [0, 0, 4, 0, 0, 0, 0, 0, 4]);
}

#[test]
fn state_test_shifting() {
    run_shifting_checks();
}

#[test]
fn mod_test_shifting() {
    run_shifting_checks();
}

fn run_serialize_round_trips(skew: u32) {
    for i in 0..100 {
        let starting_player = if (i + skew) & 1 == 0 {
            Player::Silver
        } else {
            Player::Gold
        };
        let board = Board::random();
        let initial_state = Compact::build_from_board(&board);
        let states = initial_state.random_game(&board, starting_player);
        for s in std::iter::once(initial_state).chain(states.iter().map(|x| x.0)) {
            let serialized = s.to_u64();
            let deserialized_state = Compact::from_u64(serialized, &board);

            assert_eq!(s, deserialized_state);
        }
    }
}

#[test]
fn state_serialize() {
    run_serialize_round_trips(0);
}

#[test]
fn mod_state_serialize() {
    run_serialize_round_trips(1);
}

#[test]
fn test_generation() {
    let b = generate_test_board();
    let mut s = Compact::build_from_board(&b);

    assert_eq!(s.get_ball_bits(), 0b0_1111_1111_u64);
    assert_eq!(s.get_gate_bits() & 0b1_1111_1111_u64, 0);
    s.shift_gate_raw(&b, 0, 0);
    assert_eq!(s.get_gate_bits() & 0b1_1111_1111_u64, 0b0_0000_0100);
    s.drop_balls();
    assert_eq!(s.get_ball_bits(), 0b1000_1111_1011_u64, "{:b}", s.get_ball_bits());

    s.shift_gate(&b, 1, 2);
    s.shift_gate(&b, 2, 0);
    s.shift_gate(&b, 3, 2);
    s.shift_gate(&b, 3, 2);
    assert_eq!(s.depth(), [0, 0, 4, 0, 0, 0, 0, 0, 4]);
}

#[test]
fn state_key_exact_value() {
    // fresh fixture state: only the empty cell reads depth 4, so the key
    // is 4 * 5^8 with no shift bits set
    let b = generate_test_board();
    let s = Compact::build_from_board(&b);
    assert_eq!(s.to_u64(), 4 * 390625);
}

#[test]
fn ball_count_is_conserved() {
    for _ in 0..20 {
        let board = Board::random();
        let initial = Compact::build_from_board(&board);
        assert_eq!(initial.get_ball_bits().count_ones(), 8);
        for (s, _) in initial.random_game(&board, Player::Gold) {
            assert_eq!(s.get_ball_bits().count_ones(), 8);
        }
    }
}

#[test]
fn depth_is_monotone_and_gravity_settles() {
    for _ in 0..20 {
        let board = Board::random();
        let mut prev = Compact::build_from_board(&board);
        for (s, _) in prev.random_game(&board, Player::Silver) {
            let before = prev.depth();
            let after = s.depth();
            for c in 0..9 {
                assert!(before[c] <= after[c]);
            }
            assert_eq!(s.get_ball_bits() & s.get_gate_bits(), 0);
            prev = s;
        }
    }
}

#[test]
fn shifts_grow_one_gate_at_a_time() {
    let b = generate_test_board();
    let mut s = Compact::build_from_board(&b);
    let before: Vec<u8> = (0..12).map(|i| s.get_shift(i / 3, i % 3)).collect();
    s.shift_gate(&b, 1, 2);
    for i in 0..12u8 {
        let expected = if (i / 3, i % 3) == (1, 2) {
            before[i as usize] + 1
        } else {
            before[i as usize]
        };
        assert_eq!(s.get_shift(i / 3, i % 3), expected);
    }
}

#[test]
fn silver_shift_count_counts_only_silver_gates() {
    let b = generate_test_board();
    let mut s = Compact::build_from_board(&b);
    // gate (0, 0) is silver, gate (0, 1) is gold
    s.shift_gate(&b, 0, 0);
    s.shift_gate(&b, 0, 1);
    s.shift_gate(&b, 0, 0);
    assert_eq!(s.shift_count(), 3);
    assert_eq!(s.shift_count_silver(&b), 2);
}
