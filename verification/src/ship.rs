//! Ships: a start cell, a direction and a length, and the inventory entry
//! that says how many ships of one length a board must hold.
use vstd::prelude::*;
use crate::game::field::XY;

verus! {

/// Direction and length of a ship.
#[derive(Clone, Copy, Debug)]
pub struct ShipShape {
    /// Step from one cell of the ship to the next.
    pub dxy: XY,
    /// Number of cells.
    pub size: u8,
}

/// A ship on the board; also the cursor that walks over its cells.
#[derive(Clone, Copy, Debug)]
pub struct Ship {
    /// The first cell not yet handed out.
    pub xy: XY,
    /// Direction and number of the cells still to come.
    pub shape: ShipShape,
}

/// An inventory entry: so many ships of this size.
#[derive(Clone, Copy, PartialEq, Eq, Structural, Debug)]
pub struct ShipType {
    /// The size of the ship, a value in `1..=FIELD_SIZE`.
    pub ship_size: u8,
    /// Count of ships of this type in the field.
    pub count: u8,
}

impl ShipShape {
    /// A ship of this shape that starts on the field can be walked without
    /// leaving the range of `usize`.
    pub open spec fn in_range(self) -> bool {
        &&& 10 + self.size * self.dxy.0 <= usize::MAX
        &&& 10 + self.size * self.dxy.1 <= usize::MAX
    }
}

impl Ship {
    /// The coordinates of the ship's `k`-th cell, counted from 0.
    pub open spec fn cell(self, k: int) -> (int, int) {
        (self.xy.0 + k * self.shape.dxy.0, self.xy.1 + k * self.shape.dxy.1)
    }

    /// One of the ship's first `n` cells is at `(x, y)`.
    pub open spec fn covers_first(self, n: int, x: int, y: int) -> bool {
        exists|k: int| 0 <= k < n && #[trigger] self.cell(k) == (x, y)
    }

    /// The ship has a cell at `(x, y)`.
    pub open spec fn covers(self, x: int, y: int) -> bool {
        self.covers_first(self.shape.size as int, x, y)
    }

    /// Every cell of the ship lies on the field.
    pub open spec fn on_field(self) -> bool {
        forall|k: int|
            0 <= k < self.shape.size ==> 0 <= (#[trigger] self.cell(k)).0 < 10 && 0 <= self.cell(
                k,
            ).1 < 10
    }

    /// The ship can be walked to its end without leaving the range of
    /// `usize`.
    pub open spec fn in_range(self) -> bool {
        &&& self.xy.0 + self.shape.size * self.shape.dxy.0 <= usize::MAX
        &&& self.xy.1 + self.shape.size * self.shape.dxy.1 <= usize::MAX
    }

    /// What is left of the ship after its first `k` cells.
    pub open spec fn rest(self, k: int) -> Ship {
        Ship {
            xy: XY(self.cell(k).0 as usize, self.cell(k).1 as usize),
            shape: ShipShape { dxy: self.shape.dxy, size: (self.shape.size - k) as u8 },
        }
    }

    /// Hands out the next cell of the ship and moves on by one step, or
    /// returns `None` when no cell is left.
    pub fn next(&mut self) -> (r: Option<XY>)
        requires
            old(self).shape.size > 0 ==> old(self).xy.0 + old(self).shape.dxy.0 <= usize::MAX
                && old(self).xy.1 + old(self).shape.dxy.1 <= usize::MAX,
        ensures
            old(self).shape.size == 0 ==> r is None && *final(self) == *old(self),
            old(self).shape.size > 0 ==> r == Some(old(self).xy) && *final(self) == old(
                self,
            ).rest(1),
    {
        if self.shape.size > 0 {
            let result = self.xy;
            self.xy.0 += self.shape.dxy.0;
            self.xy.1 += self.shape.dxy.1;
            self.shape.size -= 1;
            Some(result)
        } else {
            None
        }
    }

    /// The cells of the ship, first to last.
    pub fn cells(self) -> (cells: Vec<XY>)
        requires
            self.in_range(),
        ensures
            cells@.len() == self.shape.size,
            forall|k: int| 0 <= k < self.shape.size ==> #[trigger] cells@[k] == self.rest(k).xy,
    {
        let mut cursor = self;
        let mut cells: Vec<XY> = Vec::new();
        let mut k: u8 = 0;
        while k < self.shape.size
            invariant
                k <= self.shape.size,
                self.in_range(),
                cursor == self.rest(k as int),
                self.cell(k as int).0 <= usize::MAX,
                self.cell(k as int).1 <= usize::MAX,
                cells@.len() == k,
                forall|j: int| 0 <= j < k ==> #[trigger] cells@[j] == self.rest(j).xy,
            decreases self.shape.size - k,
        {
            proof {
                self.lemma_cell_in_range(k as int + 1);
                self.lemma_cell_step(k as int);
            }
            match cursor.next() {
                Some(xy) => {
                    cells.push(xy);
                },
                None => {},
            }
            k += 1;
        }
        cells
    }

    /// Each cell lies one step after the cell before it.
    pub proof fn lemma_cell_step(self, k: int)
        ensures
            self.cell(k + 1).0 == self.cell(k).0 + self.shape.dxy.0,
            self.cell(k + 1).1 == self.cell(k).1 + self.shape.dxy.1,
    {
        let dx = self.shape.dxy.0 as int;
        let dy = self.shape.dxy.1 as int;
        assert((k + 1) * dx == k * dx + dx) by (nonlinear_arith);
        assert((k + 1) * dy == k * dy + dy) by (nonlinear_arith);
    }

    /// Every cursor position of a ship that is in range fits in `usize`.
    pub proof fn lemma_cell_in_range(self, k: int)
        requires
            self.in_range(),
            0 <= k <= self.shape.size,
        ensures
            0 <= self.cell(k).0 <= usize::MAX,
            0 <= self.cell(k).1 <= usize::MAX,
    {
        let size = self.shape.size as int;
        let dx = self.shape.dxy.0 as int;
        let dy = self.shape.dxy.1 as int;
        assert(0 <= k * dx <= size * dx) by (nonlinear_arith)
            requires
                0 <= k <= size,
                0 <= dx,
        ;
        assert(0 <= k * dy <= size * dy) by (nonlinear_arith)
            requires
                0 <= k <= size,
                0 <= dy,
        ;
    }
}

} // verus!
