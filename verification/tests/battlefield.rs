use rand::rngs::StdRng;
use rand::SeedableRng;
use zk_battleship::battlefield::Battlefield;
use zk_battleship::error::VerificationError;
use zk_battleship::game::field::{CellType, XY};
use zk_battleship::ship::{Ship, ShipShape, ShipType};
use zk_battleship::zk_system::BattleshipVerification;

fn horizontal(size: u8) -> ShipShape {
    ShipShape { dxy: XY(1, 0), size }
}

fn vertical(size: u8) -> ShipShape {
    ShipShape { dxy: XY(0, 1), size }
}

fn occupied_cells(game: &Battlefield) -> Vec<usize> {
    let field = game.field();
    (0..100).filter(|&i| field.0[i] == CellType::OCCUPIED).collect()
}

#[test]
fn new_game_is_empty() {
    let game = Battlefield::new();
    assert_eq!(occupied_cells(&game), Vec::<usize>::new());
    assert!(!game.is_hit(XY(0, 0)));
}

#[test]
fn fire_records_the_shot() {
    let mut game = Battlefield::new();
    game.fire(XY(3, 4));
    assert!(game.is_hit(XY(3, 4)));
    assert!(!game.is_hit(XY(4, 3)));
    game.fire(XY(4, 3));
    game.fire(XY(3, 4));
    assert!(game.is_hit(XY(3, 4)));
    assert!(game.is_hit(XY(4, 3)));
    assert_eq!(occupied_cells(&game), Vec::<usize>::new());
}

#[test]
fn ship_can_be_placed_on_an_empty_board_if_it_fits() {
    let game = Battlefield::new();
    assert!(game.can_place_ship(Ship { xy: XY(0, 0), shape: horizontal(4) }));
    assert!(game.can_place_ship(Ship { xy: XY(6, 9), shape: horizontal(4) }));
    assert!(!game.can_place_ship(Ship { xy: XY(7, 9), shape: horizontal(4) }));
    assert!(game.can_place_ship(Ship { xy: XY(9, 6), shape: vertical(4) }));
    assert!(!game.can_place_ship(Ship { xy: XY(9, 7), shape: vertical(4) }));
    assert!(!game.can_place_ship(Ship { xy: XY(10, 0), shape: horizontal(1) }));
    assert!(!game.can_place_ship(Ship { xy: XY(0, 10), shape: horizontal(1) }));
    // a ship without cells fits everywhere
    assert!(game.can_place_ship(Ship { xy: XY(50, 50), shape: horizontal(0) }));
}

#[test]
fn ship_cannot_touch_another_one() {
    let mut game = Battlefield::new();
    game.place_ship(Ship { xy: XY(4, 4), shape: horizontal(2) });
    assert_eq!(occupied_cells(&game), vec![44, 45]);
    // on it
    assert!(!game.can_place_ship(Ship { xy: XY(4, 4), shape: horizontal(1) }));
    assert!(!game.can_place_ship(Ship { xy: XY(5, 4), shape: horizontal(1) }));
    // beside it, diagonally too
    for (x, y) in [(3, 3), (4, 3), (5, 3), (6, 3), (3, 4), (6, 4), (3, 5), (4, 5), (5, 5), (6, 5)] {
        assert!(!game.can_place_ship(Ship { xy: XY(x, y), shape: horizontal(1) }));
    }
    // one cell further away
    for (x, y) in [(2, 4), (7, 4), (4, 2), (5, 6), (2, 2), (7, 6)] {
        assert!(game.can_place_ship(Ship { xy: XY(x, y), shape: horizontal(1) }));
    }
    // a longer ship that runs into it
    assert!(!game.can_place_ship(Ship { xy: XY(0, 4), shape: horizontal(4) }));
    assert!(game.can_place_ship(Ship { xy: XY(0, 4), shape: horizontal(3) }));
    assert!(!game.can_place_ship(Ship { xy: XY(5, 0), shape: vertical(4) }));
    assert!(game.can_place_ship(Ship { xy: XY(5, 0), shape: vertical(3) }));
}

#[test]
fn available_cells_come_x_by_x() {
    let game = Battlefield::new();
    let cells = game.get_available_cells(horizontal(1));
    assert_eq!(cells.len(), 100);
    for (i, xy) in cells.iter().enumerate() {
        assert_eq!(*xy, XY(i / 10, i % 10));
    }
}

#[test]
fn available_cells_leave_room_for_the_whole_ship() {
    let game = Battlefield::new();
    let cells = game.get_available_cells(horizontal(4));
    assert_eq!(cells.len(), 70);
    assert_eq!(cells[0], XY(0, 0));
    assert_eq!(cells[9], XY(0, 9));
    assert_eq!(cells[69], XY(6, 9));
    let cells = game.get_available_cells(vertical(4));
    assert_eq!(cells.len(), 70);
    assert_eq!(cells[0], XY(0, 0));
    assert_eq!(cells[6], XY(0, 6));
    assert_eq!(cells[7], XY(1, 0));
    assert_eq!(cells[69], XY(9, 6));
}

#[test]
fn available_cells_avoid_placed_ships() {
    let mut game = Battlefield::new();
    game.place_ship(Ship { xy: XY(0, 0), shape: vertical(3) });
    let cells = game.get_available_cells(horizontal(1));
    // the ship and the cells around it: two columns of four cells
    assert_eq!(cells.len(), 92);
    assert_eq!(cells[0], XY(0, 4));
    assert!(!cells.contains(&XY(1, 3)));
    assert!(cells.contains(&XY(2, 0)));
}

fn crowded() -> Battlefield {
    let mut game = Battlefield::new();
    for x in [1, 4, 7] {
        for y in [1, 4, 7] {
            game.place_ship(Ship { xy: XY(x, y), shape: horizontal(1) });
        }
    }
    game
}

#[test]
fn available_cells_on_a_crowded_board() {
    let game = crowded();
    // only the last cell of each line is left
    let cells = game.get_available_cells(horizontal(2));
    assert_eq!(cells, (0..9).map(|x| XY(x, 9)).collect::<Vec<XY>>());
    let cells = game.get_available_cells(vertical(2));
    assert_eq!(cells, (0..9).map(|y| XY(9, y)).collect::<Vec<XY>>());
    let cells = game.get_available_cells(vertical(10));
    assert_eq!(cells, vec![XY(9, 0)]);
    let cells = game.get_available_cells(horizontal(11));
    assert_eq!(cells, Vec::<XY>::new());
}

#[test]
fn ship_is_placed_at_an_available_cell() {
    let mut rng = StdRng::seed_from_u64(11);
    for _ in 0..20 {
        let mut game = crowded();
        let before = occupied_cells(&game);
        assert!(game.emplace_ships(3, &mut rng));
        let after = occupied_cells(&game);
        let added: Vec<usize> = after.iter().copied().filter(|i| !before.contains(i)).collect();
        assert_eq!(added.len(), 3);
        assert_eq!(after.len(), before.len() + 3);
        // the ship lies in the last row or in the last column
        let in_row = added.iter().all(|i| i / 10 == 9) && added[1] == added[0] + 1;
        let in_column = added.iter().all(|i| i % 10 == 9) && added[1] == added[0] + 10;
        assert!(in_row || in_column);
        assert_eq!(added[2] - added[1], added[1] - added[0]);
    }
}

#[test]
fn ship_of_a_given_shape_is_placed_where_it_can_start() {
    let mut rng = StdRng::seed_from_u64(3);
    for _ in 0..20 {
        let mut game = crowded();
        let before = occupied_cells(&game);
        let cells = game.get_available_cells(vertical(2));
        assert!(!cells.is_empty());
        game.emplace_shape(vertical(2), &mut rng);
        let after = occupied_cells(&game);
        let added: Vec<usize> = after.iter().copied().filter(|i| !before.contains(i)).collect();
        // the ship starts at one of the available cells and steps in y
        assert_eq!(added.len(), 2);
        assert!(cells.contains(&XY(added[0] % 10, added[0] / 10)));
        assert_eq!(added[1], added[0] + 10);
    }
}

#[test]
fn no_ship_is_placed_where_there_is_no_room() {
    let mut rng = StdRng::seed_from_u64(5);
    let mut game = crowded();
    for xy in [XY(4, 9), XY(7, 9), XY(9, 4), XY(9, 7)] {
        game.place_ship(Ship { xy, shape: horizontal(1) });
    }
    let before = occupied_cells(&game);
    for _ in 0..10 {
        assert!(!game.emplace_ships(4, &mut rng));
        assert_eq!(occupied_cells(&game), before);
    }
    assert_eq!(game.get_available_cells(horizontal(4)), Vec::<XY>::new());
    assert_eq!(game.get_available_cells(vertical(4)), Vec::<XY>::new());
}

#[test]
fn placing_a_ship_marks_its_cells() {
    let mut game = Battlefield::new();
    game.fire(XY(1, 1));
    game.place_ship(Ship { xy: XY(2, 3), shape: horizontal(3) });
    assert_eq!(occupied_cells(&game), vec![32, 33, 34]);
    game.place_ship(Ship { xy: XY(9, 6), shape: vertical(4) });
    assert_eq!(occupied_cells(&game), vec![32, 33, 34, 69, 79, 89, 99]);
    game.place_ship(Ship { xy: XY(0, 0), shape: vertical(0) });
    assert_eq!(occupied_cells(&game), vec![32, 33, 34, 69, 79, 89, 99]);
    assert!(game.is_hit(XY(1, 1)));
    assert_eq!(game.index(XY(2, 3)), CellType::OCCUPIED);
    assert_eq!(game.index(XY(3, 2)), CellType::EMPTY);
}

#[test]
fn generated_board_holds_the_fleet_of_one_game() {
    let mut generated = 0;
    for round in 0..40u8 {
        let mut seed = [round; 32];
        seed[0] = 7;
        if let Some(game) = Battlefield::generate(seed) {
            generated += 1;
            assert_eq!(occupied_cells(&game).len(), 20);
            assert!(!game.is_hit(XY(0, 0)));
            let circuit = BattleshipVerification {
                field: game.field(),
                ships: Battlefield::ships_for_game(),
            };
            assert_eq!(circuit.verify(), Ok(()));
            let circuit = BattleshipVerification {
                field: game.field(),
                ships: vec![ShipType { ship_size: 4, count: 2 }],
            };
            assert_eq!(
                circuit.verify(),
                Err(VerificationError::ConstraintViolation {
                    ship: Some(ShipType { ship_size: 4, count: 2 })
                })
            );
        }
    }
    assert!(generated > 30);
}

#[test]
fn generation_depends_on_the_seed_alone() {
    let seed = [42u8; 32];
    let first = Battlefield::generate(seed).map(|game| occupied_cells(&game));
    let second = Battlefield::generate(seed).map(|game| occupied_cells(&game));
    assert_eq!(first, second);
    let boards: Vec<Option<Vec<usize>>> = (0..8u8)
        .map(|i| Battlefield::generate([i; 32]).map(|game| occupied_cells(&game)))
        .collect();
    assert!(boards.iter().any(|board| *board != boards[0]));
}

#[test]
fn inventory_of_one_game() {
    assert_eq!(
        Battlefield::ships_for_game(),
        vec![
            ShipType { ship_size: 4, count: 1 },
            ShipType { ship_size: 3, count: 2 },
            ShipType { ship_size: 2, count: 3 },
            ShipType { ship_size: 1, count: 4 },
        ]
    );
}

#[test]
fn board_is_rendered_line_by_line() {
    let mut game = Battlefield::new();
    game.place_ship(Ship { xy: XY(1, 0), shape: horizontal(2) });
    let blank = "⬜️";
    let hidden: String = (0..10).map(|_| format!("\n{}", blank.repeat(10))).collect();
    assert_eq!(game.render(), hidden);
    // the cell (1, 0) is the second of the first line
    game.fire(XY(1, 0));
    game.fire(XY(0, 1));
    let text = game.render();
    let lines: Vec<&str> = text.split('\n').collect();
    assert_eq!(lines.len(), 11);
    assert_eq!(lines[0], "");
    assert_eq!(lines[1], format!("{}🛳️{}", blank, blank.repeat(8)));
    assert_eq!(lines[2], format!("🌊{}", blank.repeat(9)));
    for line in &lines[3..] {
        assert_eq!(*line, blank.repeat(10));
    }
}
