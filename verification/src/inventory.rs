//! What it means for a board to hold an inventory, and the verdict that
//! follows from the derived counts.
use vstd::prelude::*;
use crate::counting::count_result;
use crate::error::VerificationError;
use crate::ship::ShipType;

verus! {

/// The grid holds exactly as many ships of the entry's size as the entry
/// declares.
pub open spec fn entry_holds(g: Seq<u8>, ship: ShipType) -> bool {
    count_result(g, ship.ship_size) == Ok::<u8, VerificationError>(ship.count)
}

/// Every size of the inventory can be counted on the grid.
pub open spec fn inventory_countable(g: Seq<u8>, ships: Seq<ShipType>) -> bool {
    forall|i: int| 0 <= i < ships.len() ==> count_result(g, (#[trigger] ships[i]).ship_size) is Ok
}

/// The grid holds every entry of the inventory.
pub open spec fn inventory_matches(g: Seq<u8>, ships: Seq<ShipType>) -> bool {
    forall|i: int| 0 <= i < ships.len() ==> entry_holds(g, #[trigger] ships[i])
}

/// Entry `i` is the first one that the grid does not hold.
pub open spec fn is_first_violation(g: Seq<u8>, ships: Seq<ShipType>, i: int) -> bool {
    &&& 0 <= i < ships.len()
    &&& !entry_holds(g, ships[i])
    &&& forall|j: int| 0 <= j < i ==> entry_holds(g, #[trigger] ships[j])
}

/// What a run of the verifier returns for the grid of a board and an
/// inventory: an error where a size of the inventory cannot be counted,
/// else success where the grid holds the inventory, else the first entry
/// that it does not hold.
pub open spec fn is_verdict(
    g: Seq<u8>,
    ships: Seq<ShipType>,
    r: Result<(), VerificationError>,
) -> bool {
    &&& !inventory_countable(g, ships) ==> r == Err::<(), VerificationError>(
        VerificationError::AssignmentMissing,
    )
    &&& inventory_countable(g, ships) && inventory_matches(g, ships) ==> r == Ok::<
        (),
        VerificationError,
    >(())
    &&& forall|i: int|
        inventory_countable(g, ships) && is_first_violation(g, ships, i) ==> r == Err::<
            (),
            VerificationError,
        >(VerificationError::ConstraintViolation { ship: Some(ships[i]) })
}

/// The first `n` entries of the inventory are held, or one of them is the
/// first that is not.
pub proof fn lemma_first_violation(g: Seq<u8>, ships: Seq<ShipType>, n: int)
    requires
        0 <= n <= ships.len(),
    ensures
        (forall|j: int| 0 <= j < n ==> entry_holds(g, #[trigger] ships[j])) || exists|i: int|
            0 <= i < n && is_first_violation(g, ships, i),
    decreases n,
{
    if n > 0 {
        lemma_first_violation(g, ships, n - 1);
        if forall|j: int| 0 <= j < n - 1 ==> entry_holds(g, #[trigger] ships[j]) {
            if !entry_holds(g, ships[n - 1]) {
                assert(is_first_violation(g, ships, n - 1));
            }
        } else {
            let i = choose|i: int| 0 <= i < n - 1 && is_first_violation(g, ships, i);
            assert(0 <= i < n && is_first_violation(g, ships, i));
        }
    }
}

/// The verdict is decided by the grid and the inventory: it is success
/// exactly where every size can be counted and the grid holds the
/// inventory, and any two verdicts are the same.
pub proof fn lemma_verdict_is_decided(
    g: Seq<u8>,
    ships: Seq<ShipType>,
    r: Result<(), VerificationError>,
    other: Result<(), VerificationError>,
)
    requires
        is_verdict(g, ships, r),
        is_verdict(g, ships, other),
    ensures
        r is Ok <==> inventory_countable(g, ships) && inventory_matches(g, ships),
        r == other,
{
    lemma_first_violation(g, ships, ships.len() as int);
    if inventory_countable(g, ships) && !inventory_matches(g, ships) {
        let i = choose|i: int| 0 <= i < ships.len() && is_first_violation(g, ships, i);
        assert(r == other);
    }
}

/// The derived counts are those of the inventory's sizes on the grid.
pub open spec fn counts_derived_from(g: Seq<u8>, ships: Seq<ShipType>, derived: Seq<u8>) -> bool {
    &&& derived.len() == ships.len()
    &&& forall|i: int|
        0 <= i < ships.len() ==> count_result(g, (#[trigger] ships[i]).ship_size) == Ok::<
            u8,
            VerificationError,
        >(derived[i])
}

/// Every derived count equals the declared one.
pub open spec fn counts_agree(ships: Seq<ShipType>, derived: Seq<u8>) -> bool {
    forall|i: int| 0 <= i < ships.len() ==> derived[i] == (#[trigger] ships[i]).count
}

/// Entry `i` is the first whose derived count differs from the declared one.
pub open spec fn is_first_mismatch(ships: Seq<ShipType>, derived: Seq<u8>, i: int) -> bool {
    &&& 0 <= i < ships.len()
    &&& derived[i] != ships[i].count
    &&& forall|j: int| 0 <= j < i ==> derived[j] == (#[trigger] ships[j]).count
}

/// The verdict of a run, from the inventory, the counts derived for its
/// entries and the answer of the constraint system.
///
/// The run succeeds when the system is satisfied and every derived count
/// equals the declared one. Otherwise it is a constraint violation, which
/// names the first entry whose counts differ, if there is one.
pub fn verdict(ships: &Vec<ShipType>, derived: &Vec<u8>, satisfied: bool) -> (r: Result<
    (),
    VerificationError,
>)
    requires
        derived@.len() == ships@.len(),
    ensures
        counts_agree(ships@, derived@) && satisfied ==> r == Ok::<(), VerificationError>(()),
        counts_agree(ships@, derived@) && !satisfied ==> r == Err::<(), VerificationError>(
            VerificationError::ConstraintViolation { ship: None },
        ),
        forall|i: int|
            is_first_mismatch(ships@, derived@, i) ==> r == Err::<(), VerificationError>(
                VerificationError::ConstraintViolation { ship: Some(ships@[i]) },
            ),
        match r {
            Ok(_) => counts_agree(ships@, derived@) && satisfied,
            Err(VerificationError::ConstraintViolation { ship: None }) => counts_agree(
                ships@,
                derived@,
            ) && !satisfied,
            Err(VerificationError::ConstraintViolation { ship: Some(ship) }) => exists|i: int|
                is_first_mismatch(ships@, derived@, i) && ships@[i] == ship,
            Err(_) => false,
        },
{
    let mut i: usize = 0;
    while i < ships.len()
        invariant
            i <= ships@.len(),
            derived@.len() == ships@.len(),
            forall|j: int| 0 <= j < i ==> derived@[j] == (#[trigger] ships@[j]).count,
        decreases ships@.len() - i,
    {
        if derived[i] != ships[i].count {
            assert(is_first_mismatch(ships@, derived@, i as int));
            assert forall|k: int| is_first_mismatch(ships@, derived@, k) implies k == i by {
                if k < i {
                    assert(derived@[k] == ships@[k].count);
                } else if k > i {
                    assert(derived@[i as int] == ships@[i as int].count);
                }
            }
            return Err(VerificationError::ConstraintViolation { ship: Some(ships[i]) });
        }
        i += 1;
    }
    assert(counts_agree(ships@, derived@));
    if satisfied {
        Ok(())
    } else {
        Err(VerificationError::ConstraintViolation { ship: None })
    }
}

/// Where the counts were derived from the grid, they agree with the
/// inventory exactly when the grid holds it, and the first mismatch is the
/// first violation.
pub proof fn lemma_derived_counts(g: Seq<u8>, ships: Seq<ShipType>, derived: Seq<u8>)
    requires
        counts_derived_from(g, ships, derived),
    ensures
        inventory_countable(g, ships),
        counts_agree(ships, derived) <==> inventory_matches(g, ships),
        forall|i: int| is_first_mismatch(ships, derived, i) <==> is_first_violation(g, ships, i),
{
    assert forall|i: int| 0 <= i < ships.len() implies (derived[i] == (#[trigger] ships[i]).count
        <==> entry_holds(g, ships[i])) by {
        assert(count_result(g, ships[i].ship_size) == Ok::<u8, VerificationError>(derived[i]));
    }
    assert forall|i: int| is_first_mismatch(ships, derived, i) implies is_first_violation(
        g,
        ships,
        i,
    ) by {
        assert forall|j: int| 0 <= j < i implies entry_holds(g, #[trigger] ships[j]) by {
            assert(derived[j] == ships[j].count);
        }
    }
    assert forall|i: int| is_first_violation(g, ships, i) implies is_first_mismatch(
        ships,
        derived,
        i,
    ) by {
        assert forall|j: int| 0 <= j < i implies derived[j] == (#[trigger] ships[j]).count by {
            assert(entry_holds(g, ships[j]));
        }
    }
}

} // verus!
