use ballcube::board::Board;
use ballcube::builder::{BoardBuilder, BoardBuildingError, Gate};
use ballcube::codec::DeserializationError;

fn generate_test_board() -> Board {
    BoardBuilder {
        gold_balls: vec![0, 1, 2, 3],
        silver_balls: vec![4, 5, 6, 7],
        gates_horizontal: [true, false, true, false].map(Some),
        gates: [
            Gate::build().s().t().ty(3).finalize(),
            Gate::build().g().t().ty(3).finalize(),
            Gate::build().g().b().ty(3).finalize(),
            Gate::build().g().b().ty(0).finalize(),
            Gate::build().g().t().ty(0).finalize(),
            Gate::build().s().t().ty(1).finalize(),
            Gate::build().s().t().ty(0).finalize(),
            Gate::build().s().b().ty(1).finalize(),
            Gate::build().g().b().ty(0).finalize(),
            Gate::build().g().b().ty(3).finalize(),
            Gate::build().s().b().ty(2).finalize(),
            Gate::build().s().t().ty(2).finalize(),
        ],
    }
    .finalize()
    .expect("Could not generate board")
}

#[test]
fn board_serialize() {
    for _ in 0..100 {
        let board = Board::random();
        let serialized = board.to_u64();
        let deserialized_board =
            Board::try_from_u64(serialized).expect("Could not deserialize board");

        assert_eq!(board, deserialized_board);
    }
}

#[test]
fn board_key_exact_value() {
    // hand-computed key of the fixture board: gold presence 0b1111, the
    // empty cell 8 compressed to rank 4, orientations 1010, then the
    // anchor, owner and pattern bits of the twelve gates
    let board = generate_test_board();
    assert_eq!(board.to_u64(), 0xAC44_3FCE_1873_580F_u64);
    let back = Board::try_from_u64(0xAC44_3FCE_1873_580F_u64).unwrap();
    assert_eq!(back, board);
}

#[test]
fn board_accessors() {
    let board = generate_test_board();
    assert_eq!(board.ball(0), Some(ballcube::Player::Gold));
    assert_eq!(board.ball(4), Some(ballcube::Player::Silver));
    assert_eq!(board.ball(8), None);
    assert!(board.layer(0).horizontal());
    assert!(!board.layer(1).horizontal());
    assert_eq!(board.layer(0).gate(0).owner(), ballcube::Player::Silver);
    assert_eq!(board.layer(0).gate(1).owner(), ballcube::Player::Gold);
    assert!(board.layer(0).gate(0).topleft());
    assert!(!board.layer(0).gate(2).topleft());
    assert_eq!(board.layer(0).gate(0).gatetype(), 3);
    assert_eq!(board.layer(3).gate(2).gatetype(), 2);
}

#[test]
fn builder_error_direction_undefined() {
    let mut builder = BoardBuilder {
        gold_balls: vec![0, 1, 2, 3],
        silver_balls: vec![4, 5, 6, 7],
        gates_horizontal: [true, false, true, false].map(Some),
        gates: [Gate::build().s().t().ty(0).finalize(); 12],
    };
    builder.gates_horizontal[2] = None;
    assert_eq!(
        builder.finalize().unwrap_err(),
        BoardBuildingError::GateDirectionUndefined(2)
    );
}

#[test]
fn builder_error_gate_undefined() {
    let mut builder = BoardBuilder {
        gold_balls: vec![0, 1, 2, 3],
        silver_balls: vec![4, 5, 6, 7],
        gates_horizontal: [true, false, true, false].map(Some),
        gates: [Gate::build().s().t().ty(0).finalize(); 12],
    };
    builder.gates[7] = None;
    assert_eq!(
        builder.finalize().unwrap_err(),
        BoardBuildingError::GateUndefined(7)
    );
}

#[test]
fn builder_error_allegiance() {
    // all twelve gates silver: the 6/6 split is violated
    let builder = BoardBuilder {
        gold_balls: vec![0, 1, 2, 3],
        silver_balls: vec![4, 5, 6, 7],
        gates_horizontal: [true, false, true, false].map(Some),
        gates: [Gate::build().s().t().ty(0).finalize(); 12],
    };
    assert_eq!(
        builder.finalize().unwrap_err(),
        BoardBuildingError::GateAllegianceIncorrect
    );
}

#[test]
fn builder_error_ball_count() {
    let mut gates = [Gate::build().s().t().ty(0).finalize(); 12];
    for slot in gates.iter_mut().take(6) {
        *slot = Gate::build().g().t().ty(0).finalize();
    }
    let builder = BoardBuilder {
        gold_balls: vec![0, 1, 2],
        silver_balls: vec![4, 5, 6, 7],
        gates_horizontal: [true, false, true, false].map(Some),
        gates,
    };
    assert_eq!(
        builder.finalize().unwrap_err(),
        BoardBuildingError::BallCountIncorrect
    );
}

#[test]
fn builder_sorts_balls() {
    let mut gates = [Gate::build().s().t().ty(0).finalize(); 12];
    for slot in gates.iter_mut().take(6) {
        *slot = Gate::build().g().t().ty(0).finalize();
    }
    let board = BoardBuilder {
        gold_balls: vec![3, 0, 2, 1],
        silver_balls: vec![7, 5, 6, 4],
        gates_horizontal: [true, true, true, true].map(Some),
        gates,
    }
    .finalize()
    .unwrap();
    for c in 0..4 {
        assert_eq!(board.ball(c), Some(ballcube::Player::Gold));
        assert_eq!(board.ball(c + 4), Some(ballcube::Player::Silver));
    }
}

#[test]
fn decode_error_wrong_gold_count() {
    // three gold presence bits only
    assert_eq!(
        Board::try_from_u64(0b111).unwrap_err(),
        DeserializationError::IncorrectBoard
    );
}

#[test]
fn decode_error_bad_empty_rank() {
    // four gold balls but an empty-cell rank of seven
    let key = 0b1111_u64 | (7 << 9);
    assert_eq!(
        Board::try_from_u64(key).unwrap_err(),
        DeserializationError::IncorrectBoard
    );
}

#[test]
fn random_boards_are_well_formed() {
    for _ in 0..50 {
        let board = Board::random();
        let mut gold = 0;
        let mut silver = 0;
        let mut empty = 0;
        for c in 0..9 {
            match board.ball(c) {
                Some(ballcube::Player::Gold) => gold += 1,
                Some(ballcube::Player::Silver) => silver += 1,
                None => empty += 1,
            }
        }
        assert_eq!((gold, silver, empty), (4, 4, 1));
        let mut silver_gates = 0;
        let mut gold_types = vec![0u8; 0];
        let mut silver_types = vec![0u8; 0];
        for l in 0..4 {
            for g in 0..3 {
                let gate = board.layer(l).gate(g);
                assert!(gate.gatetype() < 4);
                if gate.owner() == ballcube::Player::Silver {
                    silver_gates += 1;
                    silver_types.push(gate.gatetype());
                } else {
                    gold_types.push(gate.gatetype());
                }
            }
        }
        assert_eq!(silver_gates, 6);
        // each player holds the standard pattern multiset {0, 0, 1, 2, 3, 3}
        gold_types.sort_unstable();
        silver_types.sort_unstable();
        assert_eq!(gold_types, vec![0, 0, 1, 2, 3, 3]);
        assert_eq!(silver_types, vec![0, 0, 1, 2, 3, 3]);
    }
}
