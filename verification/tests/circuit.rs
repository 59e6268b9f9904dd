use zk_battleship::error::VerificationError;
use zk_battleship::game::field::{Battlefield, CellType};
use zk_battleship::ship::ShipType;
use zk_battleship::zk_system::{
    count_ship_in_field, BattlefieldVar, BattleshipVerification, ByteVar, Circuit, ShipTypeVar,
};

fn sample_board() -> Battlefield {
    let mut field = [CellType::EMPTY; 100];
    for i in [0, 55, 17, 99, 39, 49] {
        field[i] = CellType::OCCUPIED;
    }
    Battlefield(field)
}

fn entry(ship_size: u8, count: u8) -> ShipType {
    ShipType { ship_size, count }
}

#[test]
fn fresh_system_is_satisfied_and_holds_one_public_variable() {
    let cs = Circuit::new();
    assert_eq!(cs.is_satisfied(), Ok(true));
    assert_eq!(cs.num_instance_variables(), 1);
}

#[test]
fn allocated_bytes_are_read_back() {
    let mut cs = Circuit::new();
    for value in [0u8, 1, 2, 77, 128, 255] {
        let witness = ByteVar::new_witness(&mut cs, value).unwrap();
        assert_eq!(witness.value(), Ok(value));
        let input = ByteVar::new_input(&mut cs, value).unwrap();
        assert_eq!(input.value(), Ok(value));
    }
    assert_eq!(cs.is_satisfied(), Ok(true));
}

#[test]
fn witnesses_are_private_and_inputs_are_public() {
    let mut cs = Circuit::new();
    ByteVar::new_witness(&mut cs, 9).unwrap();
    ByteVar::new_witness(&mut cs, 200).unwrap();
    assert_eq!(cs.num_instance_variables(), 1);
    ByteVar::new_input(&mut cs, 9).unwrap();
    assert_eq!(cs.num_instance_variables(), 9);
    ByteVar::new_input(&mut cs, 0).unwrap();
    assert_eq!(cs.num_instance_variables(), 17);
    ByteVar::new_witness(&mut cs, 1).unwrap();
    assert_eq!(cs.num_instance_variables(), 17);
}

#[test]
fn enforced_equality_of_equal_bytes_holds() {
    let mut cs = Circuit::new();
    let a = ByteVar::new_witness(&mut cs, 42).unwrap();
    let b = ByteVar::new_input(&mut cs, 42).unwrap();
    assert_eq!(cs.enforce_equal(&a, &b), Ok(()));
    assert_eq!(cs.is_satisfied(), Ok(true));
    // comparing allocates no public variable
    assert_eq!(cs.num_instance_variables(), 9);
}

#[test]
fn enforced_equality_of_different_bytes_does_not_hold() {
    for (x, y) in [(0u8, 1u8), (1, 0), (4, 5), (255, 127), (16, 0)] {
        let mut cs = Circuit::new();
        let a = ByteVar::new_input(&mut cs, x).unwrap();
        let b = ByteVar::new_input(&mut cs, y).unwrap();
        assert_eq!(cs.is_satisfied(), Ok(true));
        assert_eq!(cs.enforce_equal(&a, &b), Ok(()));
        assert_eq!(cs.is_satisfied(), Ok(false));
    }
}

#[test]
fn one_failed_equality_leaves_the_system_unsatisfied() {
    let mut cs = Circuit::new();
    let a = ByteVar::new_input(&mut cs, 3).unwrap();
    let b = ByteVar::new_input(&mut cs, 4).unwrap();
    let c = ByteVar::new_input(&mut cs, 3).unwrap();
    assert_eq!(cs.enforce_equal(&a, &c), Ok(()));
    assert_eq!(cs.is_satisfied(), Ok(true));
    assert_eq!(cs.enforce_equal(&a, &b), Ok(()));
    assert_eq!(cs.is_satisfied(), Ok(false));
    assert_eq!(cs.enforce_equal(&c, &a), Ok(()));
    assert_eq!(cs.is_satisfied(), Ok(false));
}

#[test]
fn lifted_board_holds_the_cell_values_as_witnesses() {
    let mut cs = Circuit::new();
    let board = sample_board();
    let lifted = BattlefieldVar::new_witness(&mut cs, &board).unwrap();
    assert_eq!(lifted.values(), Ok(board.cell_values()));
    assert_eq!(cs.num_instance_variables(), 1);
    assert_eq!(cs.is_satisfied(), Ok(true));
}

#[test]
fn lifted_entry_is_two_public_inputs() {
    let mut cs = Circuit::new();
    let ship = ShipTypeVar::new_input(&mut cs, &entry(3, 2)).unwrap();
    assert_eq!(cs.num_instance_variables(), 17);
    let derived = ByteVar::new_input(&mut cs, 2).unwrap();
    assert_eq!(ship.enforce_count(&mut cs, &derived), Ok(()));
    assert_eq!(cs.is_satisfied(), Ok(true));
    // the count is compared, not the size
    let wrong = ByteVar::new_input(&mut cs, 3).unwrap();
    assert_eq!(ship.enforce_count(&mut cs, &wrong), Ok(()));
    assert_eq!(cs.is_satisfied(), Ok(false));
}

#[test]
fn ships_are_counted_on_the_lifted_board() {
    let mut cs = Circuit::new();
    let lifted = BattlefieldVar::new_witness(&mut cs, &sample_board()).unwrap();
    for (size, expected) in [(1u8, Ok(4u8)), (2, Ok(1)), (3, Ok(0)), (10, Ok(0))] {
        let ship = ShipTypeVar::new_input(&mut cs, &entry(size, 0)).unwrap();
        assert_eq!(count_ship_in_field(&lifted, &ship), expected);
    }
    for size in [0u8, 11, 200] {
        let ship = ShipTypeVar::new_input(&mut cs, &entry(size, 0)).unwrap();
        assert_eq!(count_ship_in_field(&lifted, &ship), Err(VerificationError::AssignmentMissing));
    }
}

#[test]
fn constraints_of_a_matching_inventory_are_satisfied() {
    let mut cs = Circuit::new();
    let circuit =
        BattleshipVerification { field: sample_board(), ships: vec![entry(1, 4), entry(2, 1)] };
    assert_eq!(circuit.generate_constraints(&mut cs), Ok(vec![4, 1]));
    assert_eq!(cs.is_satisfied(), Ok(true));
    // three public bytes per entry, the board is private
    assert_eq!(cs.num_instance_variables(), 1 + 8 * 3 * 2);
}

#[test]
fn a_wrong_count_is_an_unsatisfied_constraint_and_no_error() {
    let mut cs = Circuit::new();
    let circuit = BattleshipVerification {
        field: sample_board(),
        ships: vec![entry(1, 4), entry(2, 0), entry(3, 0)],
    };
    assert_eq!(circuit.generate_constraints(&mut cs), Ok(vec![4, 1, 0]));
    assert_eq!(cs.is_satisfied(), Ok(false));
    assert_eq!(cs.num_instance_variables(), 1 + 8 * 3 * 3);
}

#[test]
fn constraints_of_an_empty_inventory_hold_the_board_alone() {
    let mut cs = Circuit::new();
    let circuit = BattleshipVerification { field: sample_board(), ships: vec![] };
    assert_eq!(circuit.generate_constraints(&mut cs), Ok(vec![]));
    assert_eq!(cs.is_satisfied(), Ok(true));
    assert_eq!(cs.num_instance_variables(), 1);
}

#[test]
fn a_size_that_cannot_be_counted_stops_the_building() {
    let mut cs = Circuit::new();
    let circuit = BattleshipVerification {
        field: sample_board(),
        ships: vec![entry(1, 4), entry(0, 0), entry(2, 1)],
    };
    assert_eq!(circuit.generate_constraints(&mut cs), Err(VerificationError::AssignmentMissing));
}

#[test]
fn constraints_can_be_added_to_a_system_in_use() {
    let mut cs = Circuit::new();
    let a = ByteVar::new_input(&mut cs, 1).unwrap();
    let b = ByteVar::new_input(&mut cs, 2).unwrap();
    assert_eq!(cs.enforce_equal(&a, &b), Ok(()));
    let circuit = BattleshipVerification { field: sample_board(), ships: vec![entry(1, 4)] };
    assert_eq!(circuit.generate_constraints(&mut cs), Ok(vec![4]));
    // the equality enforced before still fails
    assert_eq!(cs.is_satisfied(), Ok(false));
    assert_eq!(cs.num_instance_variables(), 1 + 8 * 2 + 8 * 3);
}
