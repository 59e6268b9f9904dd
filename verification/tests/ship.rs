use zk_battleship::game::field::XY;
use zk_battleship::ship::{Ship, ShipShape};

#[test]
fn ship_hands_out_its_cells_in_order() {
    let mut ship = Ship { xy: XY(2, 5), shape: ShipShape { dxy: XY(1, 0), size: 3 } };
    assert_eq!(ship.next(), Some(XY(2, 5)));
    assert_eq!(ship.next(), Some(XY(3, 5)));
    assert_eq!(ship.next(), Some(XY(4, 5)));
    assert_eq!(ship.next(), None);
    assert_eq!(ship.next(), None);
    assert_eq!(ship.xy, XY(5, 5));
    assert_eq!(ship.shape.size, 0);
}

#[test]
fn ship_walks_along_its_direction() {
    let ship = Ship { xy: XY(7, 1), shape: ShipShape { dxy: XY(0, 1), size: 4 } };
    assert_eq!(ship.cells(), vec![XY(7, 1), XY(7, 2), XY(7, 3), XY(7, 4)]);
    let ship = Ship { xy: XY(0, 0), shape: ShipShape { dxy: XY(2, 3), size: 3 } };
    assert_eq!(ship.cells(), vec![XY(0, 0), XY(2, 3), XY(4, 6)]);
}

#[test]
fn ship_of_size_zero_has_no_cells() {
    let mut ship = Ship { xy: XY(1, 1), shape: ShipShape { dxy: XY(1, 0), size: 0 } };
    assert_eq!(ship.cells(), Vec::<XY>::new());
    assert_eq!(ship.next(), None);
    assert_eq!(ship.xy, XY(1, 1));
}
