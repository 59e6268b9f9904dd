use zk_battleship::counting::{count_ships, has_neighbors, is_well_formed, CountingStrategy};
use zk_battleship::error::VerificationError;

fn grid(occupied: &[usize]) -> [u8; 100] {
    let mut cells = [0u8; 100];
    for &i in occupied {
        cells[i] = 1;
    }
    cells
}

#[test]
fn counts_on_the_sample_board() {
    let cells = grid(&[0, 55, 17, 99, 39, 49]);
    assert_eq!(count_ships(&cells, 1), Ok(4));
    assert_eq!(count_ships(&cells, 2), Ok(1));
    assert_eq!(count_ships(&cells, 3), Ok(0));
    assert_eq!(count_ships(&cells, 10), Ok(0));
}

#[test]
fn empty_board_holds_no_ship() {
    let cells = grid(&[]);
    for size in 1..=10u8 {
        assert_eq!(count_ships(&cells, size), Ok(0));
    }
}

#[test]
fn full_board_holds_twenty_runs_of_ten() {
    let cells = [1u8; 100];
    assert_eq!(count_ships(&cells, 10), Ok(20));
    assert_eq!(count_ships(&cells, 9), Ok(0));
    assert_eq!(count_ships(&cells, 1), Ok(0));
}

#[test]
fn runs_are_counted_in_both_directions() {
    // two runs of three along one line, one run of three across
    let cells = grid(&[0, 10, 20, 40, 50, 60, 3, 4, 5]);
    assert_eq!(count_ships(&cells, 3), Ok(3));
    assert_eq!(count_ships(&cells, 2), Ok(0));
    assert_eq!(count_ships(&cells, 1), Ok(0));
}

#[test]
fn a_square_block_is_two_runs_each_way() {
    let cells = grid(&[44, 45, 54, 55]);
    assert_eq!(count_ships(&cells, 2), Ok(4));
    assert_eq!(count_ships(&cells, 1), Ok(0));
}

#[test]
fn diagonal_neighbours_do_not_join() {
    let cells = grid(&[0, 11, 22]);
    assert_eq!(count_ships(&cells, 1), Ok(3));
    assert_eq!(count_ships(&cells, 3), Ok(0));
}

#[test]
fn orthogonal_neighbours_are_no_single_ships() {
    let cells = grid(&[34, 35]);
    assert_eq!(count_ships(&cells, 1), Ok(0));
    let cells = grid(&[34, 44]);
    assert_eq!(count_ships(&cells, 1), Ok(0));
}

#[test]
fn three_runs_of_two_fit_in_one_line() {
    let cells = grid(&[5, 15, 35, 45, 65, 75]);
    assert_eq!(count_ships(&cells, 2), Ok(3));
}

#[test]
fn run_at_the_end_of_a_line_is_counted() {
    let cells = grid(&[85, 95]);
    assert_eq!(count_ships(&cells, 2), Ok(1));
    let cells = grid(&[58, 59]);
    assert_eq!(count_ships(&cells, 2), Ok(1));
}

#[test]
fn sizes_outside_one_to_ten_are_rejected() {
    let cells = grid(&[0]);
    assert_eq!(count_ships(&cells, 0), Err(VerificationError::AssignmentMissing));
    assert_eq!(count_ships(&cells, 11), Err(VerificationError::AssignmentMissing));
    assert_eq!(count_ships(&cells, 255), Err(VerificationError::AssignmentMissing));
}

#[test]
fn malformed_cell_values_are_rejected() {
    let mut cells = grid(&[0]);
    cells[73] = 2;
    assert!(!is_well_formed(&cells));
    for size in 1..=10u8 {
        assert_eq!(count_ships(&cells, size), Err(VerificationError::AssignmentMissing));
    }
    cells[73] = 1;
    assert!(is_well_formed(&cells));
    assert_eq!(count_ships(&cells, 1), Ok(2));
}

#[test]
fn neighbours_are_the_four_orthogonal_cells() {
    let cells = grid(&[45]);
    // (x, y) is at index x + 10 * y
    assert!(has_neighbors(&cells, 5, 3));
    assert!(has_neighbors(&cells, 5, 5));
    assert!(has_neighbors(&cells, 4, 4));
    assert!(has_neighbors(&cells, 6, 4));
    assert!(!has_neighbors(&cells, 5, 4));
    assert!(!has_neighbors(&cells, 4, 3));
    assert!(!has_neighbors(&cells, 6, 5));
    assert!(!has_neighbors(&cells, 0, 0));
}

#[test]
fn neighbours_outside_the_grid_count_as_empty() {
    let cells = grid(&[0, 9, 90, 99]);
    assert!(!has_neighbors(&cells, 0, 0));
    assert!(!has_neighbors(&cells, 9, 0));
    assert!(!has_neighbors(&cells, 0, 9));
    assert!(!has_neighbors(&cells, 9, 9));
    // the end of one line does not touch the start of the next
    let cells = grid(&[9, 10]);
    assert!(!has_neighbors(&cells, 9, 0));
    assert!(!has_neighbors(&cells, 0, 1));
    // a cell beyond the edge can have a neighbour on the grid
    assert!(has_neighbors(&cells, 10, 0));
    assert!(!has_neighbors(&cells, usize::MAX, usize::MAX));
}

#[test]
fn a_malformed_neighbour_is_no_neighbour() {
    let mut cells = grid(&[]);
    cells[46] = 2;
    assert!(!has_neighbors(&cells, 5, 4));
}

#[test]
fn strategy_depends_on_size_one() {
    assert_eq!(CountingStrategy::for_size(1), CountingStrategy::IsolatedCells);
    assert_eq!(CountingStrategy::for_size(2), CountingStrategy::StraightRuns);
    assert_eq!(CountingStrategy::for_size(10), CountingStrategy::StraightRuns);
    assert_eq!(CountingStrategy::for_size(0), CountingStrategy::StraightRuns);
}

#[test]
fn exchanging_rows_and_columns_changes_no_count() {
    let boards: [&[usize]; 4] = [
        &[0, 55, 17, 99, 39, 49],
        &[0, 10, 20, 30, 2, 12, 22, 5, 6, 7, 50, 51, 70, 80, 9, 19, 45, 47, 99, 94],
        &[44, 45, 54, 55, 1, 2, 3, 4, 5, 6],
        &[90, 91, 92, 93, 94, 95, 96, 97, 98, 99, 9, 19, 29],
    ];
    for occupied in boards {
        let cells = grid(occupied);
        let mirrored: Vec<usize> = occupied.iter().map(|i| i / 10 + 10 * (i % 10)).collect();
        let transposed = grid(&mirrored);
        for size in 0..=11u8 {
            assert_eq!(count_ships(&cells, size), count_ships(&transposed, size));
        }
    }
}
