//! The verifier: lifts a board and an inventory into an arithmetic
//! constraint system, derives the number of ships of each declared size,
//! enforces that it equals the declared count, and reports the verdict.
//!
//! The constraint system is that of `ark-relations`, over the base field of
//! the Jubjub curve. The proofs see nothing inside it. What it holds is
//! named instead: the bytes allocated in it, in order and with their
//! visibility, and the truth of each equality enforced in it. The contracts
//! of the calls into `ark-relations` and `ark-r1cs-std` are stated over
//! those names and are believed, not proved.
use vstd::prelude::*;
use ark_ed_on_bls12_381::Fq;
use ark_r1cs_std::alloc::AllocVar;
use ark_r1cs_std::bits::boolean::Boolean;
use ark_r1cs_std::bits::uint8::UInt8;
use ark_r1cs_std::eq::EqGadget;
use ark_r1cs_std::R1CSVar;
use ark_relations::r1cs::{ConstraintSystem, ConstraintSystemRef, SynthesisError};
use crate::counting::{count_result, count_ships};
use crate::error::VerificationError;
use crate::game::field::Battlefield;
use crate::inventory::{
    counts_agree, counts_derived_from, inventory_countable, is_verdict, lemma_derived_counts,
    verdict,
};
use crate::ship::ShipType;

verus! {

/// `ark_relations::r1cs::SynthesisError`, the error of every circuit
/// operation. Nothing is known of a value of it.
#[verifier::external_type_specification]
#[verifier::external_body]
pub struct ExSynthesisError(SynthesisError);

/// The handle to a constraint system. It holds an
/// `ark_relations::r1cs::ConstraintSystemRef`, of which the proofs see
/// nothing. (The type itself cannot be declared to the verifier: it is
/// generic over a field, and the bound on the field is a trait of
/// `ark-ff`.) A handle is made by `Circuit::new` only and cannot be copied,
/// so each system has one handle.
#[verifier::external_body]
pub struct Circuit {
    system: ConstraintSystemRef<Fq>,
}

/// An unsigned byte allocated in a constraint system. It holds an
/// `ark_r1cs_std::bits::uint8::UInt8`, of which the proofs see nothing. A
/// value is made by allocation only, so its eight bits are variables of a
/// system, each assigned 0 or 1.
#[verifier::external_body]
pub struct ByteVar {
    var: UInt8<Fq>,
}

/// A boolean of a constraint system that says whether two allocated bytes
/// are equal. It holds an `ark_r1cs_std::bits::boolean::Boolean`, of which
/// the proofs see nothing. A value is made by comparing two allocated bytes
/// only, so it is a variable of a system, never a constant.
#[verifier::external_body]
pub struct BoolVar {
    var: Boolean<Fq>,
}

/// Which constraint system the handle stands for: two values are equal
/// exactly for the same system.
pub uninterp spec fn system_of(cs: Circuit) -> int;

/// The bytes allocated in the system so far, oldest first: for each one
/// whether it is a public input (`true`) or a private witness (`false`), and
/// its value.
pub uninterp spec fn allocated(cs: Circuit) -> Seq<(bool, u8)>;

/// For each equality enforced in the system so far, oldest first, whether
/// it holds on the values assigned.
pub uninterp spec fn enforced(cs: Circuit) -> Seq<bool>;

/// The value that the byte was allocated with.
pub uninterp spec fn byte_of(byte: ByteVar) -> u8;

/// The constraint system that the byte was allocated in.
pub uninterp spec fn byte_system(byte: ByteVar) -> int;

/// Whether the two bytes that the boolean compares are equal.
pub uninterp spec fn truth_of(condition: BoolVar) -> bool;

/// The constraint system that the boolean lives in.
pub uninterp spec fn bool_system(condition: BoolVar) -> int;

/// Calls `ConstraintSystem::new_ref`, which makes a constraint system in
/// proving mode with no variable and no constraint.
#[verifier::external_body]
fn new_circuit() -> (cs: Circuit)
    ensures
        allocated(cs) == Seq::<(bool, u8)>::empty(),
        enforced(cs) == Seq::<bool>::empty(),
{
    Circuit { system: ConstraintSystem::new_ref() }
}

/// Calls `AllocVar::new_witness` of `UInt8` with the given value: the byte
/// becomes eight private boolean variables of the system, each constrained
/// to be 0 or 1 and assigned one bit of the value. On a system in proving
/// mode no step of it fails, and the constraints it adds hold.
#[verifier::external_body]
fn new_witness_byte(cs: &mut Circuit, value: u8) -> (r: Result<ByteVar, SynthesisError>)
    ensures
        r is Ok,
        byte_of(r->Ok_0) == value,
        byte_system(r->Ok_0) == system_of(*old(cs)),
        system_of(*final(cs)) == system_of(*old(cs)),
        allocated(*final(cs)) == allocated(*old(cs)).push((false, value)),
        enforced(*final(cs)) == enforced(*old(cs)),
{
    UInt8::new_witness(cs.system.clone(), || Ok(value)).map(|var| ByteVar { var })
}

/// Calls `AllocVar::new_input` of `UInt8` with the given value: the byte
/// becomes eight public boolean variables of the system, each constrained
/// to be 0 or 1 and assigned one bit of the value. On a system in proving
/// mode no step of it fails, and the constraints it adds hold.
#[verifier::external_body]
fn new_input_byte(cs: &mut Circuit, value: u8) -> (r: Result<ByteVar, SynthesisError>)
    ensures
        r is Ok,
        byte_of(r->Ok_0) == value,
        byte_system(r->Ok_0) == system_of(*old(cs)),
        system_of(*final(cs)) == system_of(*old(cs)),
        allocated(*final(cs)) == allocated(*old(cs)).push((true, value)),
        enforced(*final(cs)) == enforced(*old(cs)),
{
    UInt8::new_input(cs.system.clone(), || Ok(value)).map(|var| ByteVar { var })
}

/// Calls `R1CSVar::value` of `UInt8`, which reads the assignment of the
/// byte's eight bits from its constraint system and puts them together:
/// the value that the byte was allocated with.
#[verifier::external_body]
fn assigned_byte(byte: &ByteVar) -> (r: Result<u8, SynthesisError>)
    ensures
        r is Ok,
        r->Ok_0 == byte_of(*byte),
{
    byte.var.value()
}

/// Calls `EqGadget::is_eq` of `UInt8`, which adds to the system of the two
/// bytes a boolean that is true exactly when they are equal, with
/// constraints that hold by the way the boolean is assigned. It allocates
/// no byte and enforces nothing of the two bytes. The call works on the
/// system that the bytes carry, which has to be the one behind `cs`. (It
/// compares the bits as slices and panics on slices of different or of no
/// length; a byte always has eight bits.)
#[allow(unused_variables)]
#[verifier::external_body]
fn bytes_equal(cs: &mut Circuit, a: &ByteVar, b: &ByteVar) -> (r: Result<BoolVar, SynthesisError>)
    requires
        byte_system(*a) == system_of(*old(cs)),
        byte_system(*b) == system_of(*old(cs)),
    ensures
        r is Ok,
        truth_of(r->Ok_0) == (byte_of(*a) == byte_of(*b)),
        bool_system(r->Ok_0) == system_of(*old(cs)),
        system_of(*final(cs)) == system_of(*old(cs)),
        allocated(*final(cs)) == allocated(*old(cs)),
        enforced(*final(cs)) == enforced(*old(cs)),
{
    a.var.is_eq(&b.var).map(|var| BoolVar { var })
}

/// Calls `EqGadget::enforce_equal` of `Boolean` with `Boolean::TRUE`, which
/// adds to the system of the boolean the constraint that it is true. For a
/// boolean that is a variable this does not fail. The call works on the
/// system that the boolean carries, which has to be the one behind `cs`.
#[allow(unused_variables)]
#[verifier::external_body]
fn enforce_true(cs: &mut Circuit, condition: &BoolVar) -> (r: Result<(), SynthesisError>)
    requires
        bool_system(*condition) == system_of(*old(cs)),
    ensures
        r is Ok,
        system_of(*final(cs)) == system_of(*old(cs)),
        allocated(*final(cs)) == allocated(*old(cs)),
        enforced(*final(cs)) == enforced(*old(cs)).push(truth_of(*condition)),
{
    condition.var.enforce_equal(&Boolean::TRUE)
}

/// Calls `ConstraintSystemRef::is_satisfied`, which evaluates every
/// constraint of the system on its assignment. The constraints that
/// allocation and comparison add always hold, so the system is satisfied
/// exactly when every enforced equality holds.
#[verifier::external_body]
fn system_is_satisfied(cs: &Circuit) -> (r: Result<bool, SynthesisError>)
    ensures
        r is Ok,
        r->Ok_0 == all_hold(enforced(*cs)),
{
    cs.system.is_satisfied()
}

/// Calls `ConstraintSystemRef::num_instance_variables`, which returns the
/// number of public variables of the system: the constant one that every
/// system starts with, and the eight bits of each byte allocated as public
/// input. Comparing bytes adds private variables only.
#[verifier::external_body]
fn instance_variables(cs: &Circuit) -> (n: usize)
    ensures
        n == 1 + 8 * public_bytes(allocated(*cs)),
{
    cs.system.num_instance_variables()
}

/// The number of bytes in the record that were allocated as public input.
pub open spec fn public_bytes(bytes: Seq<(bool, u8)>) -> nat
    decreases bytes.len(),
{
    if bytes.len() == 0 {
        0
    } else {
        public_bytes(bytes.drop_last()) + if bytes.last().0 {
            1nat
        } else {
            0nat
        }
    }
}

/// Every one of the truth values is `true`.
pub open spec fn all_hold(truths: Seq<bool>) -> bool {
    forall|i: int| 0 <= i < truths.len() ==> truths[i]
}

/// The record of a byte allocated as private witness.
pub open spec fn witness(value: u8) -> (bool, u8) {
    (false, value)
}

/// The record of a byte allocated as public input.
pub open spec fn input(value: u8) -> (bool, u8) {
    (true, value)
}

/// What lifting a board allocates: each cell value as private witness, in
/// flat order.
pub open spec fn board_allocations(g: Seq<u8>) -> Seq<(bool, u8)> {
    Seq::new(g.len(), |i: int| witness(g[i]))
}

/// What one inventory entry allocates: its size, its declared count and the
/// derived count, each as public input, in this order.
pub open spec fn entry_allocations(ship: ShipType, derived: u8) -> Seq<(bool, u8)> {
    seq![input(ship.ship_size), input(ship.count), input(derived)]
}

/// What the first `n` inventory entries allocate, entry after entry.
pub open spec fn inventory_allocations(ships: Seq<ShipType>, derived: Seq<u8>, n: int) -> Seq<
    (bool, u8),
>
    decreases n,
{
    if n <= 0 {
        Seq::empty()
    } else {
        inventory_allocations(ships, derived, n - 1) + entry_allocations(
            ships[n - 1],
            derived[n - 1],
        )
    }
}

/// For each of the first `n` inventory entries, whether the derived count
/// equals the declared one.
pub open spec fn equalities(ships: Seq<ShipType>, derived: Seq<u8>, n: int) -> Seq<bool> {
    Seq::new(n as nat, |i: int| derived[i] == ships[i].count)
}

/// What the first `n` entries allocate depends on their derived counts
/// alone.
pub proof fn lemma_inventory_allocations(
    ships: Seq<ShipType>,
    derived: Seq<u8>,
    longer: Seq<u8>,
    n: int,
)
    requires
        forall|i: int| 0 <= i < n ==> derived[i] == longer[i],
    ensures
        inventory_allocations(ships, derived, n) == inventory_allocations(ships, longer, n),
    decreases n,
{
    if n > 0 {
        lemma_inventory_allocations(ships, derived, longer, n - 1);
    }
}

impl Circuit {
    /// Which constraint system the handle stands for.
    pub open spec fn system(self) -> int {
        system_of(self)
    }

    /// The bytes allocated so far, oldest first, each with its visibility.
    pub open spec fn allocated(self) -> Seq<(bool, u8)> {
        allocated(self)
    }

    /// The truth of each equality enforced so far, oldest first.
    pub open spec fn enforced(self) -> Seq<bool> {
        enforced(self)
    }

    /// `self` is the system `before` after more bytes were allocated and
    /// more equalities enforced in it.
    pub open spec fn extends(self, before: Circuit, bytes: Seq<(bool, u8)>, truths: Seq<
        bool,
    >) -> bool {
        &&& self.system() == before.system()
        &&& self.allocated() == before.allocated() + bytes
        &&& self.enforced() == before.enforced() + truths
    }

    /// A fresh constraint system: nothing is allocated, nothing enforced.
    pub fn new() -> (cs: Circuit)
        ensures
            cs.allocated() == Seq::<(bool, u8)>::empty(),
            cs.enforced() == Seq::<bool>::empty(),
    {
        new_circuit()
    }

    /// Enforces in the system that the two bytes are equal.
    pub fn enforce_equal(&mut self, a: &ByteVar, b: &ByteVar) -> (r: Result<
        (),
        VerificationError,
    >)
        requires
            a.system() == old(self).system(),
            b.system() == old(self).system(),
        ensures
            r is Ok,
            final(self).extends(*old(self), Seq::empty(), seq![a@ == b@]),
    {
        let ghost before = *self;
        let r = match bytes_equal(self, a, b) {
            Ok(equal) => match enforce_true(self, &equal) {
                Ok(_) => Ok(()),
                Err(_) => Err(VerificationError::AllocationFailure),
            },
            Err(_) => Err(VerificationError::AllocationFailure),
        };
        assert(self.allocated() =~= before.allocated() + Seq::<(bool, u8)>::empty());
        assert(self.enforced() =~= before.enforced() + seq![a@ == b@]);
        r
    }

    /// The number of public variables of the system: one, and eight for
    /// each byte allocated as public input.
    pub fn num_instance_variables(&self) -> (n: usize)
        ensures
            n == 1 + 8 * public_bytes(self.allocated()),
    {
        instance_variables(self)
    }

    /// Tells whether the system is satisfied: whether every equality
    /// enforced in it holds.
    pub fn is_satisfied(&self) -> (r: Result<bool, VerificationError>)
        ensures
            r == Ok::<bool, VerificationError>(all_hold(self.enforced())),
    {
        match system_is_satisfied(self) {
            Ok(satisfied) => Ok(satisfied),
            Err(_) => Err(VerificationError::AssignmentMissing),
        }
    }
}

impl View for ByteVar {
    type V = u8;

    /// The value that the byte was allocated with.
    open spec fn view(&self) -> u8 {
        byte_of(*self)
    }
}

impl ByteVar {
    /// The constraint system that the byte was allocated in.
    pub open spec fn system(self) -> int {
        byte_system(self)
    }

    /// Allocates `value` as a private witness of the system.
    pub fn new_witness(cs: &mut Circuit, value: u8) -> (r: Result<ByteVar, VerificationError>)
        ensures
            r is Ok,
            r->Ok_0@ == value,
            r->Ok_0.system() == old(cs).system(),
            final(cs).extends(*old(cs), seq![witness(value)], Seq::empty()),
    {
        let ghost before = *cs;
        let r = match new_witness_byte(cs, value) {
            Ok(byte) => Ok(byte),
            Err(_) => Err(VerificationError::AllocationFailure),
        };
        assert(cs.allocated() =~= before.allocated() + seq![witness(value)]);
        assert(cs.enforced() =~= before.enforced() + Seq::<bool>::empty());
        r
    }

    /// Allocates `value` as a public input of the system.
    pub fn new_input(cs: &mut Circuit, value: u8) -> (r: Result<ByteVar, VerificationError>)
        ensures
            r is Ok,
            r->Ok_0@ == value,
            r->Ok_0.system() == old(cs).system(),
            final(cs).extends(*old(cs), seq![input(value)], Seq::empty()),
    {
        let ghost before = *cs;
        let r = match new_input_byte(cs, value) {
            Ok(byte) => Ok(byte),
            Err(_) => Err(VerificationError::AllocationFailure),
        };
        assert(cs.allocated() =~= before.allocated() + seq![input(value)]);
        assert(cs.enforced() =~= before.enforced() + Seq::<bool>::empty());
        r
    }

    /// Reads the value that the system has assigned to the byte.
    pub fn value(&self) -> (r: Result<u8, VerificationError>)
        ensures
            r == Ok::<u8, VerificationError>(self@),
    {
        match assigned_byte(self) {
            Ok(v) => Ok(v),
            Err(_) => Err(VerificationError::AssignmentMissing),
        }
    }
}

/// The board lifted into a constraint system: one byte variable per cell,
/// in the flat order of the board.
pub struct BattlefieldVar {
    cells: Vec<ByteVar>,
}

impl View for BattlefieldVar {
    type V = Seq<u8>;

    /// The cell values, in flat order.
    closed spec fn view(&self) -> Seq<u8> {
        Seq::new(self.cells@.len(), |i: int| self.cells@[i]@)
    }
}

impl BattlefieldVar {
    /// Every cell was allocated in the constraint system `system`.
    pub closed spec fn in_system(&self, system: int) -> bool {
        forall|i: int|
            0 <= i < self.cells@.len() ==> (#[trigger] self.cells@[i]).system() == system
    }

    /// Allocates every cell of the board as a private witness, in flat
    /// order: 1 for an occupied cell, 0 for an empty one.
    pub fn new_witness(cs: &mut Circuit, field: &Battlefield) -> (r: Result<
        BattlefieldVar,
        VerificationError,
    >)
        ensures
            r is Ok,
            r->Ok_0@ == field.values(),
            r->Ok_0.in_system(old(cs).system()),
            final(cs).extends(*old(cs), board_allocations(field.values()), Seq::empty()),
    {
        let ghost before = *cs;
        let ghost g = field.values();
        let values = field.cell_values();
        let mut cells: Vec<ByteVar> = Vec::new();
        let mut i: usize = 0;
        assert(cs.allocated() =~= before.allocated() + board_allocations(g).take(0));
        while i < 100
            invariant
                i <= 100,
                g == field.values(),
                values@ == g,
                cells@.len() == i,
                forall|j: int| 0 <= j < i ==> (#[trigger] cells@[j])@ == g[j],
                forall|j: int| 0 <= j < i ==> (#[trigger] cells@[j]).system() == before.system(),
                cs.system() == before.system(),
                cs.allocated() == before.allocated() + board_allocations(g).take(i as int),
                cs.enforced() == before.enforced(),
            decreases 100 - i,
        {
            match ByteVar::new_witness(cs, values[i]) {
                Ok(byte) => {
                    cells.push(byte);
                },
                Err(e) => {
                    return Err(e);
                },
            }
            assert(cs.allocated() =~= before.allocated() + board_allocations(g).take(i + 1)) by {
                assert(board_allocations(g).take(i + 1) =~= board_allocations(g).take(
                    i as int,
                ).push(witness(g[i as int])));
            }
            assert(cs.enforced() =~= before.enforced());
            i += 1;
        }
        let lifted = BattlefieldVar { cells };
        assert(lifted@ =~= g);
        assert(board_allocations(g).take(100) =~= board_allocations(g));
        assert(cs.enforced() =~= before.enforced() + Seq::<bool>::empty());
        Ok(lifted)
    }

    /// Reads the value of every cell back from the constraint system.
    pub fn values(&self) -> (r: Result<[u8; 100], VerificationError>)
        requires
            self@.len() == 100,
        ensures
            r is Ok,
            r->Ok_0@ == self@,
    {
        let mut values: [u8; 100] = [0u8;100];
        let mut i: usize = 0;
        while i < 100
            invariant
                i <= 100,
                self@.len() == 100,
                forall|j: int| 0 <= j < i ==> values@[j] == self@[j],
            decreases 100 - i,
        {
            match self.cells[i].value() {
                Ok(v) => {
                    values[i] = v;
                },
                Err(e) => {
                    return Err(e);
                },
            }
            i += 1;
        }
        assert(values@ =~= self@);
        Ok(values)
    }
}

/// An inventory entry lifted into a constraint system.
pub struct ShipTypeVar {
    ship_size: ByteVar,
    count: ByteVar,
}

impl View for ShipTypeVar {
    type V = ShipType;

    /// The inventory entry.
    closed spec fn view(&self) -> ShipType {
        ShipType { ship_size: self.ship_size@, count: self.count@ }
    }
}

impl ShipTypeVar {
    /// Size and count were allocated in the constraint system `system`.
    pub closed spec fn in_system(&self, system: int) -> bool {
        self.ship_size.system() == system && self.count.system() == system
    }

    /// Allocates the size of the entry, then its count, both as public
    /// inputs.
    pub fn new_input(cs: &mut Circuit, ship: &ShipType) -> (r: Result<
        ShipTypeVar,
        VerificationError,
    >)
        ensures
            r is Ok,
            r->Ok_0@ == *ship,
            r->Ok_0.in_system(old(cs).system()),
            final(cs).extends(
                *old(cs),
                seq![input(ship.ship_size), input(ship.count)],
                Seq::empty(),
            ),
    {
        let ghost before = *cs;
        let ship_size = match ByteVar::new_input(cs, ship.ship_size) {
            Ok(byte) => byte,
            Err(e) => {
                return Err(e);
            },
        };
        let count = match ByteVar::new_input(cs, ship.count) {
            Ok(byte) => byte,
            Err(e) => {
                return Err(e);
            },
        };
        assert(cs.allocated() =~= before.allocated() + seq![
            input(ship.ship_size),
            input(ship.count),
        ]);
        assert(cs.enforced() =~= before.enforced() + Seq::<bool>::empty());
        Ok(ShipTypeVar { ship_size, count })
    }

    /// Enforces in the system that `derived` equals the declared count.
    pub fn enforce_count(&self, cs: &mut Circuit, derived: &ByteVar) -> (r: Result<
        (),
        VerificationError,
    >)
        requires
            self.in_system(old(cs).system()),
            derived.system() == old(cs).system(),
        ensures
            r is Ok,
            final(cs).extends(*old(cs), Seq::empty(), seq![derived@ == self@.count]),
    {
        cs.enforce_equal(derived, &self.count)
    }
}

/// Derives, from the values assigned in the constraint system, the number
/// of ships of the entry's size on the lifted board.
pub fn count_ship_in_field(field: &BattlefieldVar, ship: &ShipTypeVar) -> (r: Result<
    u8,
    VerificationError,
>)
    requires
        field@.len() == 100,
    ensures
        r == count_result(field@, ship@.ship_size),
{
    let ship_size: u8 = match ship.ship_size.value() {
        Ok(size) => size,
        Err(e) => {
            return Err(e);
        },
    };
    let values = match field.values() {
        Ok(values) => values,
        Err(e) => {
            return Err(e);
        },
    };
    count_ships(&values, ship_size)
}

/// A board and the inventory that it is claimed to hold.
pub struct BattleshipVerification {
    /// The public inputs of the circuit: the declared inventory.
    pub ships: Vec<ShipType>,
    /// The private input of the circuit, its witness: the board.
    pub field: Battlefield,
}

impl BattleshipVerification {
    /// Builds the circuit in `cs`: lifts the board once as witness, and for
    /// each inventory entry, in order, lifts its size and count as public
    /// inputs, derives the number of ships of its size, allocates that
    /// number as public input and enforces that it equals the declared
    /// count.
    ///
    /// Returns the derived counts, one per entry. A count that differs from
    /// the declared one is no error here: it shows as an enforced equality
    /// that does not hold. The only error is a size that cannot be counted,
    /// which stops the building at its entry.
    pub fn generate_constraints(&self, cs: &mut Circuit) -> (r: Result<
        Vec<u8>,
        VerificationError,
    >)
        ensures
            inventory_countable(self.field.values(), self.ships@) <==> r is Ok,
            r is Err ==> r == Err::<Vec<u8>, VerificationError>(
                VerificationError::AssignmentMissing,
            ),
            final(cs).system() == old(cs).system(),
            match r {
                Ok(derived) => {
                    &&& counts_derived_from(self.field.values(), self.ships@, derived@)
                    &&& final(cs).extends(
                        *old(cs),
                        board_allocations(self.field.values()) + inventory_allocations(
                            self.ships@,
                            derived@,
                            self.ships@.len() as int,
                        ),
                        equalities(self.ships@, derived@, self.ships@.len() as int),
                    )
                },
                Err(_) => true,
            },
    {
        let ghost before = *cs;
        let ghost g = self.field.values();
        let ghost ships = self.ships@;
        let field = match BattlefieldVar::new_witness(cs, &self.field) {
            Ok(field) => field,
            Err(e) => {
                return Err(e);
            },
        };
        let ghost lifted = *cs;
        let mut derived: Vec<u8> = Vec::new();
        let mut i: usize = 0;
        assert(cs.allocated() =~= lifted.allocated() + inventory_allocations(ships, derived@, 0));
        assert(cs.enforced() =~= lifted.enforced() + equalities(ships, derived@, 0));
        while i < self.ships.len()
            invariant
                i <= self.ships@.len(),
                g == self.field.values(),
                ships == self.ships@,
                field@ == g,
                field@.len() == 100,
                field.in_system(before.system()),
                derived@.len() == i,
                before == *old(cs),
                forall|j: int|
                    0 <= j < i ==> count_result(g, (#[trigger] ships[j]).ship_size) == Ok::<
                        u8,
                        VerificationError,
                    >(derived@[j]),
                cs.system() == before.system(),
                cs.allocated() == lifted.allocated() + inventory_allocations(
                    ships,
                    derived@,
                    i as int,
                ),
                cs.enforced() == lifted.enforced() + equalities(ships, derived@, i as int),
            decreases self.ships@.len() - i,
        {
            let ghost counted = derived@;
            let ship = match ShipTypeVar::new_input(cs, &self.ships[i]) {
                Ok(ship) => ship,
                Err(e) => {
                    return Err(e);
                },
            };
            let ships_count: u8 = match count_ship_in_field(&field, &ship) {
                Ok(count) => count,
                Err(e) => {
                    assert(count_result(g, ships[i as int].ship_size) is Err);
                    return Err(e);
                },
            };
            let actual_ships = match ByteVar::new_input(cs, ships_count) {
                Ok(byte) => byte,
                Err(e) => {
                    return Err(e);
                },
            };
            match ship.enforce_count(cs, &actual_ships) {
                Ok(_) => {},
                Err(e) => {
                    return Err(e);
                },
            }
            derived.push(ships_count);
            proof {
                lemma_inventory_allocations(ships, counted, derived@, i as int);
                assert(cs.allocated() =~= lifted.allocated() + inventory_allocations(
                    ships,
                    derived@,
                    i + 1,
                ));
                assert(cs.enforced() =~= lifted.enforced() + equalities(ships, derived@, i + 1));
            }
            i += 1;
        }
        proof {
            let n = ships.len() as int;
            assert(cs.allocated() =~= before.allocated() + (board_allocations(g)
                + inventory_allocations(ships, derived@, n)));
            assert(cs.enforced() =~= before.enforced() + equalities(ships, derived@, n));
        }
        Ok(derived)
    }

    /// Checks the board against the inventory.
    ///
    /// The run builds a fresh constraint system and asks it whether it is
    /// satisfied. It succeeds when the board holds every entry of the
    /// inventory. An inventory with a size outside `1..=10` is
    /// `AssignmentMissing`; otherwise a count that differs is a
    /// `ConstraintViolation` that names the first such entry.
    pub fn verify(self) -> (r: Result<(), VerificationError>)
        ensures
            is_verdict(self.field.values(), self.ships@, r),
    {
        let mut cs = Circuit::new();
        let derived = match self.generate_constraints(&mut cs) {
            Ok(derived) => derived,
            Err(e) => {
                return Err(e);
            },
        };
        proof {
            lemma_derived_counts(self.field.values(), self.ships@, derived@);
            let truths = equalities(self.ships@, derived@, self.ships@.len() as int);
            assert(cs.enforced() =~= truths);
            assert(all_hold(truths) == counts_agree(self.ships@, derived@)) by {
                if all_hold(truths) {
                    assert forall|i: int| 0 <= i < self.ships@.len() implies derived@[i] == (
                    #[trigger] self.ships@[i]).count by {
                        assert(truths[i]);
                    }
                }
            }
        }
        match cs.is_satisfied() {
            Ok(satisfied) => verdict(&self.ships, &derived, satisfied),
            Err(e) => Err(e),
        }
    }
}

} // verus!
