use zk_battleship::error::VerificationError;
use zk_battleship::game::field::{Battlefield, CellType, FIELD_SIZE};
use zk_battleship::ship::ShipType;
use zk_battleship::zk_system::BattleshipVerification;

fn board(occupied: &[usize]) -> Battlefield {
    let mut field = [CellType::EMPTY; FIELD_SIZE * FIELD_SIZE];
    for &i in occupied {
        field[i] = CellType::OCCUPIED;
    }
    Battlefield(field)
}

fn check(occupied: &[usize], inventory: &[(u8, u8)]) -> Result<(), VerificationError> {
    let ships = inventory
        .iter()
        .map(|&(ship_size, count)| ShipType { ship_size, count })
        .collect();
    BattleshipVerification { field: board(occupied), ships }.verify()
}

fn violation(ship_size: u8, count: u8) -> Result<(), VerificationError> {
    Err(VerificationError::ConstraintViolation { ship: Some(ShipType { ship_size, count }) })
}

#[test]
fn battleship_constraints_correctness() {
    let mut field = [CellType::EMPTY; FIELD_SIZE * FIELD_SIZE];
    // 4 ship-1
    field[00] = CellType::OCCUPIED;
    field[55] = CellType::OCCUPIED;
    field[17] = CellType::OCCUPIED;
    field[99] = CellType::OCCUPIED;

    // 1 ship-2
    field[39] = CellType::OCCUPIED;
    field[49] = CellType::OCCUPIED;

    let circuit = BattleshipVerification {
        field: Battlefield(field),
        ships: vec![ShipType { ship_size: 1, count: 4 }, ShipType { ship_size: 2, count: 1 }],
    };

    assert_eq!(circuit.verify(), Ok(()));
}

#[test]
fn wrong_count_of_singles_is_a_constraint_violation() {
    let cells = [0, 55, 17, 99, 39, 49];
    assert_eq!(check(&cells, &[(1, 3), (2, 1)]), violation(1, 3));
}

#[test]
fn isolated_cells_match_their_number_only() {
    let boards: [&[usize]; 5] = [
        &[],
        &[44],
        &[0, 9, 90, 99],
        &[0, 2, 4, 11, 13],
        &[0, 11, 22, 33, 44, 55, 66, 77, 88, 99],
    ];
    for cells in boards {
        let k = cells.len() as u8;
        assert_eq!(check(cells, &[(1, k)]), Ok(()));
        assert_eq!(check(cells, &[(1, k + 1)]), violation(1, k + 1));
        if k > 0 {
            assert_eq!(check(cells, &[(1, k - 1)]), violation(1, k - 1));
        }
    }
}

#[test]
fn alternating_cells_are_fifty_single_ships() {
    let cells: Vec<usize> = (0..100).filter(|i| (i % 10 + i / 10) % 2 == 0).collect();
    assert_eq!(check(&cells, &[(1, 50)]), Ok(()));
    assert_eq!(check(&cells, &[(1, 49)]), violation(1, 49));
}

#[test]
fn one_horizontal_run_is_one_ship_of_its_length() {
    for len in 2..=10usize {
        for start in 0..=(10 - len) {
            let x = (len + start) % 10;
            let cells: Vec<usize> = (start..start + len).map(|y| x + 10 * y).collect();
            let size = len as u8;
            assert_eq!(check(&cells, &[(size, 1)]), Ok(()));
            assert_eq!(check(&cells, &[(size, 0)]), violation(size, 0));
        }
    }
}

#[test]
fn one_vertical_run_is_counted_like_a_horizontal_one() {
    for len in 2..=10usize {
        for start in 0..=(10 - len) {
            let y = (len + start) % 10;
            let cells: Vec<usize> = (start..start + len).map(|x| x + 10 * y).collect();
            let mirrored: Vec<usize> = (start..start + len).map(|x| y + 10 * x).collect();
            let size = len as u8;
            assert_eq!(check(&cells, &[(size, 1)]), Ok(()));
            assert_eq!(check(&cells, &[(size, 0)]), violation(size, 0));
            assert_eq!(check(&cells, &[(size, 1)]), check(&mirrored, &[(size, 1)]));
            assert_eq!(check(&cells, &[(size, 2)]), check(&mirrored, &[(size, 2)]));
        }
    }
}

#[test]
fn verifying_twice_gives_the_same_verdict() {
    let cells = [0, 55, 17, 99, 39, 49];
    let inventories: [&[(u8, u8)]; 4] =
        [&[(1, 4), (2, 1)], &[(1, 3), (2, 1)], &[(1, 4), (2, 2)], &[(0, 1)]];
    for inventory in inventories {
        assert_eq!(check(&cells, inventory), check(&cells, inventory));
    }
}

#[test]
fn ships_at_the_edges_are_counted() {
    // a run that ends at the last index of its line, in the last line
    assert_eq!(check(&[79, 89, 99], &[(3, 1)]), Ok(()));
    assert_eq!(check(&[97, 98, 99], &[(3, 1)]), Ok(()));
    // a run that starts at index 0 of the first line
    assert_eq!(check(&[0, 10], &[(2, 1)]), Ok(()));
    assert_eq!(check(&[0, 1], &[(2, 1)]), Ok(()));
    // runs that fill a whole line
    let row: Vec<usize> = (0..10).map(|y| 9 + 10 * y).collect();
    assert_eq!(check(&row, &[(10, 1)]), Ok(()));
    let column: Vec<usize> = (90..100).collect();
    assert_eq!(check(&column, &[(10, 1)]), Ok(()));
    // single cells in the four corners
    assert_eq!(check(&[0, 9, 90, 99], &[(1, 4)]), Ok(()));
}

#[test]
fn a_run_must_have_exactly_the_declared_length() {
    // a run of three is neither a ship of two nor one of four
    let cells = [12, 22, 32];
    assert_eq!(check(&cells, &[(2, 0), (3, 1), (4, 0)]), Ok(()));
    assert_eq!(check(&cells, &[(2, 1)]), violation(2, 1));
    assert_eq!(check(&cells, &[(4, 1)]), violation(4, 1));
    // nor are its cells single ships
    assert_eq!(check(&cells, &[(1, 0)]), Ok(()));
}

#[test]
fn the_first_violated_entry_is_named() {
    let cells = [0, 55, 17, 99, 39, 49];
    assert_eq!(check(&cells, &[(1, 4), (2, 0), (3, 7)]), violation(2, 0));
    assert_eq!(check(&cells, &[(3, 1), (2, 0), (1, 4)]), violation(3, 1));
}

#[test]
fn an_empty_inventory_holds_on_every_board() {
    assert_eq!(check(&[], &[]), Ok(()));
    assert_eq!(check(&[0, 1, 2, 10, 11], &[]), Ok(()));
}

#[test]
fn a_size_outside_the_field_is_an_error() {
    assert_eq!(check(&[], &[(0, 0)]), Err(VerificationError::AssignmentMissing));
    assert_eq!(check(&[], &[(11, 0)]), Err(VerificationError::AssignmentMissing));
    assert_eq!(check(&[5], &[(1, 1), (255, 0)]), Err(VerificationError::AssignmentMissing));
    // a malformed entry outweighs a wrong count before it
    assert_eq!(check(&[5], &[(1, 2), (0, 0)]), Err(VerificationError::AssignmentMissing));
}

#[test]
fn the_classic_fleet_is_accepted() {
    let cells = [
        0, 10, 20, 30, // 4
        2, 12, 22, 5, 6, 7, // 3, 3
        50, 51, 70, 80, 9, 19, // 2, 2, 2
        45, 47, 99, 94, // 1, 1, 1, 1
    ];
    assert_eq!(check(&cells, &[(4, 1), (3, 2), (2, 3), (1, 4)]), Ok(()));
    assert_eq!(check(&cells, &[(4, 1), (3, 2), (2, 3), (1, 5)]), violation(1, 5));
    assert_eq!(check(&cells, &[(4, 1), (3, 3), (2, 3), (1, 4)]), violation(3, 3));
}
