use zk_battleship::error::VerificationError;
use zk_battleship::inventory::verdict;
use zk_battleship::ship::ShipType;

fn inventory(entries: &[(u8, u8)]) -> Vec<ShipType> {
    entries.iter().map(|&(ship_size, count)| ShipType { ship_size, count }).collect()
}

#[test]
fn verdict_is_success_when_counts_agree_and_system_is_satisfied() {
    let ships = inventory(&[(4, 1), (3, 2), (2, 3), (1, 4)]);
    assert_eq!(verdict(&ships, &vec![1, 2, 3, 4], true), Ok(()));
    assert_eq!(verdict(&Vec::new(), &Vec::new(), true), Ok(()));
}

#[test]
fn verdict_names_the_first_differing_entry() {
    let ships = inventory(&[(4, 1), (3, 2), (2, 3), (1, 4)]);
    assert_eq!(
        verdict(&ships, &vec![1, 0, 3, 5], false),
        Err(VerificationError::ConstraintViolation {
            ship: Some(ShipType { ship_size: 3, count: 2 })
        })
    );
    assert_eq!(
        verdict(&ships, &vec![1, 2, 3, 5], false),
        Err(VerificationError::ConstraintViolation {
            ship: Some(ShipType { ship_size: 1, count: 4 })
        })
    );
}

#[test]
fn verdict_does_not_trust_a_satisfied_system_over_differing_counts() {
    let ships = inventory(&[(2, 1)]);
    assert_eq!(
        verdict(&ships, &vec![0], true),
        Err(VerificationError::ConstraintViolation {
            ship: Some(ShipType { ship_size: 2, count: 1 })
        })
    );
}

#[test]
fn verdict_reports_an_unsatisfied_system_without_a_name() {
    let ships = inventory(&[(2, 1)]);
    assert_eq!(
        verdict(&ships, &vec![1], false),
        Err(VerificationError::ConstraintViolation { ship: None })
    );
    assert_eq!(
        verdict(&Vec::new(), &Vec::new(), false),
        Err(VerificationError::ConstraintViolation { ship: None })
    );
}
