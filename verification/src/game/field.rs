//! The board as plain data: a fixed grid of cells addressed by `XY`.
use vstd::prelude::*;

verus! {

/// Side length of the square game field.
pub const FIELD_SIZE: usize = 10;

/// Coordinates inside the field: `XY(x, y)` is the cell at flat index
/// `x + y * FIELD_SIZE`.
#[derive(Clone, Copy, PartialEq, Eq, Structural, Debug)]
pub struct XY(pub usize, pub usize);

/// What a cell of the field holds.
#[allow(non_camel_case_types)]
#[allow(clippy::upper_case_acronyms)]
#[derive(Clone, Copy, PartialEq, Eq, Structural, Debug)]
pub enum CellType {
    EMPTY,
    OCCUPIED,
}

/// Fixed size matrix that represents the game field, stored in the order of
/// the flat index.
#[derive(Clone, Copy, Debug)]
pub struct Battlefield(pub [CellType; 100]);

/// The byte that stands for a cell inside a constraint system.
pub open spec fn cell_value(cell: CellType) -> u8 {
    match cell {
        CellType::EMPTY => 0,
        CellType::OCCUPIED => 1,
    }
}

/// Flat index of the cell `(x, y)`.
pub open spec fn flat_index(x: int, y: int) -> int {
    x + y * 10
}

/// The cell `(x, y)` lies on the grid of cell values `g` and holds a ship.
pub open spec fn occupied(g: Seq<u8>, x: int, y: int) -> bool {
    0 <= x < 10 && 0 <= y < 10 && g[flat_index(x, y)] == 1
}

impl XY {
    /// The coordinates of the cell with flat index `coordinates`, or `None`
    /// when the index lies outside the field. The first coordinate is the
    /// tens digit, the second the units digit.
    pub fn from_coordinates(coordinates: usize) -> (xy: Option<XY>)
        ensures
            coordinates > 99 ==> xy is None,
            coordinates <= 99 ==> xy == Some(
                XY((coordinates / 10) as usize, (coordinates % 10) as usize),
            ),
    {
        if coordinates > 99 {
            None
        } else {
            Some(XY(coordinates / FIELD_SIZE, coordinates % FIELD_SIZE))
        }
    }
}

/// How a cell is shown once it was fired at.
pub open spec fn glyph(cell: CellType) -> Seq<char> {
    match cell {
        CellType::EMPTY => "\u{1F30A}"@,
        CellType::OCCUPIED => "\u{1F6F3}\u{FE0F}"@,
    }
}

impl CellType {
    /// The text that shows this cell: a wave for water, a ship for a ship.
    pub fn symbol(self) -> (text: &'static str)
        ensures
            text@ == glyph(self),
    {
        match self {
            CellType::EMPTY => "\u{1F30A}",
            CellType::OCCUPIED => "\u{1F6F3}\u{FE0F}",
        }
    }

    /// The byte that stands for this cell: 1 if occupied, else 0.
    pub fn value(self) -> (v: u8)
        ensures
            v == cell_value(self),
    {
        match self {
            CellType::EMPTY => 0,
            CellType::OCCUPIED => 1,
        }
    }
}

impl View for Battlefield {
    type V = Seq<CellType>;

    open spec fn view(&self) -> Seq<CellType> {
        self.0@
    }
}

impl Battlefield {
    /// The cell values of the board, one byte per cell in flat order.
    pub open spec fn values(self) -> Seq<u8> {
        Seq::new(100, |i: int| cell_value(self@[i]))
    }

    /// A board with no ship on it.
    pub fn empty() -> (field: Battlefield)
        ensures
            forall|i: int| 0 <= i < 100 ==> field@[i] == CellType::EMPTY,
    {
        Battlefield([CellType::EMPTY;100])
    }

    /// Tells whether the cell `(x, y)` holds a ship; a cell outside the board
    /// does not.
    pub fn is_occupied(&self, x: usize, y: usize) -> (r: bool)
        ensures
            r == occupied(self.values(), x as int, y as int),
    {
        x < 10 && y < 10 && self.0[x + 10 * y] == CellType::OCCUPIED
    }

    /// The cell at `xy`.
    pub fn get(&self, xy: XY) -> (cell: CellType)
        requires
            xy.0 + xy.1 * 10 < 100,
        ensures
            cell == self@[flat_index(xy.0 as int, xy.1 as int)],
    {
        self.0[xy.0 + xy.1 * FIELD_SIZE]
    }

    /// Puts `cell` at `xy`.
    pub fn set(&mut self, xy: XY, cell: CellType)
        requires
            xy.0 + xy.1 * 10 < 100,
        ensures
            final(self)@ == old(self)@.update(flat_index(xy.0 as int, xy.1 as int), cell),
    {
        self.0[xy.0 + xy.1 * FIELD_SIZE] = cell;
    }

    /// The cell values of the board as bytes: 1 for an occupied cell, 0 for
    /// an empty one.
    pub fn cell_values(&self) -> (values: [u8; 100])
        ensures
            values@ == self.values(),
    {
        let mut values: [u8; 100] = [0u8;100];
        let mut i: usize = 0;
        while i < 100
            invariant
                i <= 100,
                forall|j: int| 0 <= j < i ==> values@[j] == cell_value(self@[j]),
            decreases 100 - i,
        {
            values[i] = self.0[i].value();
            i += 1;
        }
        assert(values@ =~= self.values());
        values
    }
}

} // verus!
