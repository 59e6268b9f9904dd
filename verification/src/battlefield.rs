//! The game state: the board with its ships and the shots fired at it, and
//! the rules by which ships are placed.
use vstd::prelude::*;
use itertools::Itertools;
use rand::rngs::StdRng;
use rand::seq::SliceRandom;
use rand::{Rng, SeedableRng};
use crate::game::field::{flat_index, glyph, occupied, Battlefield as Grid};
pub use crate::game::field::{CellType, FIELD_SIZE, XY};
use crate::fleet::law_game_board_holds_inventory;
use crate::inventory::inventory_matches;
use crate::ship::{Ship, ShipShape, ShipType};

verus! {

/// `rand::rngs::StdRng`, the random number generator that places the ships.
/// Nothing is known of a value of it.
#[verifier::external_type_specification]
#[verifier::external_body]
pub struct ExStdRng(StdRng);

/// Calls `Itertools::cartesian_product` on the ranges `0..n` and `0..m`.
/// It yields every pair of an item of the first and an item of the second,
/// the first item changing slowest: pair number `i` is `(i / m, i % m)`.
#[verifier::external_body]
fn coordinate_pairs(n: usize, m: usize) -> (pairs: Vec<(usize, usize)>)
    requires
        n * m <= usize::MAX,
    ensures
        pairs@.len() == n * m,
        forall|i: int|
            0 <= i < n * m ==> #[trigger] pairs@[i] == ((i / m as int) as usize, (i % m as int)
                as usize),
{
    (0..n).cartesian_product(0..m).collect()
}

/// Calls `SeedableRng::from_seed` of `StdRng`, which makes a generator from
/// the seed. Nothing is claimed of it.
#[verifier::external_body]
fn seeded_rng(seed: [u8; 32]) -> (rng: StdRng) {
    StdRng::from_seed(seed)
}

/// Calls `Rng::gen` for a `bool`, which draws `true` or `false` from the
/// generator. Nothing is claimed of the result.
#[verifier::external_body]
fn flip_coin(rng: &mut StdRng) -> (heads: bool) {
    rng.gen()
}

/// Calls `SliceRandom::choose` on the cells, which returns one random
/// element of the slice, or `None` if the slice is empty. Which element is
/// not known.
#[verifier::external_body]
fn choose_cell(cells: &Vec<XY>, rng: &mut StdRng) -> (chosen: Option<XY>)
    ensures
        cells@.len() == 0 ==> chosen is None,
        cells@.len() > 0 ==> chosen is Some && cells@.contains(chosen->0),
{
    cells.choose(rng).copied()
}

/// The board of one game and the cells that were fired at.
pub struct Battlefield {
    field: Grid,
    hits: Vec<XY>,
}

/// What a game is made of: the cell values of its board, 1 for a cell with
/// a ship and 0 for an empty one, and the cells fired at, oldest first.
pub ghost struct Game {
    pub values: Seq<u8>,
    pub hits: Seq<XY>,
}

impl View for Battlefield {
    type V = Game;

    closed spec fn view(&self) -> Game {
        Game { values: self.field.values(), hits: self.hits@ }
    }
}

/// The cell `(nx, ny)` is `(x, y)` or touches it, diagonally too.
pub open spec fn near(x: int, y: int, nx: int, ny: int) -> bool {
    x - 1 <= nx <= x + 1 && y - 1 <= ny <= y + 1
}

/// The cell `(x, y)` lies on the field, and neither it nor any cell that
/// touches it holds a ship.
pub open spec fn is_free(g: Seq<u8>, x: int, y: int) -> bool {
    &&& 0 <= x < 10
    &&& 0 <= y < 10
    &&& forall|nx: int, ny: int| near(x, y, nx, ny) ==> !occupied(g, nx, ny)
}

/// The ship can be placed on the grid: each of its cells is free.
pub open spec fn can_place(g: Seq<u8>, ship: Ship) -> bool {
    forall|k: int|
        0 <= k < ship.shape.size ==> is_free(g, (#[trigger] ship.cell(k)).0, ship.cell(k).1)
}

/// The coordinates of the field in the order in which they are tried:
/// `x` by `x`, and for each `x` every `y`.
pub open spec fn field_coordinates() -> Seq<XY> {
    Seq::new(100, |i: int| XY((i / 10) as usize, (i % 10) as usize))
}

/// The predicate "a ship of this shape can start at the cell".
pub open spec fn can_start_at(g: Seq<u8>, shape: ShipShape) -> spec_fn(XY) -> bool {
    |xy: XY| can_place(g, Ship { xy, shape })
}

/// The grid `g` with the first `n` cells of the ship marked as occupied.
pub open spec fn with_cells(g: Seq<u8>, ship: Ship, n: int) -> Seq<u8> {
    Seq::new(
        100,
        |i: int|
            if ship.covers_first(n, i % 10, i / 10) {
                1u8
            } else {
                g[i]
            },
    )
}

/// The grid `g` with every cell of the ship marked as occupied.
pub open spec fn with_ship(g: Seq<u8>, ship: Ship) -> Seq<u8> {
    with_cells(g, ship, ship.shape.size as int)
}

/// The ship has `size` cells, runs along a row or along a column, and can
/// be placed on the grid.
pub open spec fn is_placement(g: Seq<u8>, size: u8, ship: Ship) -> bool {
    &&& ship.shape.size == size
    &&& (ship.shape.dxy == XY(1, 0) || ship.shape.dxy == XY(0, 1))
    &&& can_place(g, ship)
}

/// The grid `after` is the grid `before` with a ship of the shape placed
/// at `xy`, where it could be placed.
pub open spec fn placed_at(before: Seq<u8>, shape: ShipShape, xy: XY, after: Seq<u8>) -> bool {
    can_place(before, Ship { xy, shape }) && after == with_ship(before, Ship { xy, shape })
}

/// There is a cell of the field at which a ship of the shape can start.
pub open spec fn has_room(g: Seq<u8>, shape: ShipShape) -> bool {
    field_coordinates().filter(can_start_at(g, shape)).len() > 0
}

/// No ship of the shape can be placed anywhere on the grid.
pub open spec fn no_room(g: Seq<u8>, shape: ShipShape) -> bool {
    forall|xy: XY| !#[trigger] can_place(g, Ship { xy, shape })
}

/// The grid on which the ships of the fleet were placed one after the
/// other, starting from an empty one.
pub open spec fn fleet_grid(fleet: Seq<Ship>) -> Seq<u8>
    decreases fleet.len(),
{
    if fleet.len() == 0 {
        Seq::new(100, |i: int| 0u8)
    } else {
        with_ship(fleet_grid(fleet.drop_last()), fleet.last())
    }
}

/// The fleet has one ship for each of the sizes, in their order, and each
/// ship could be placed on the grid that the ships before it had left.
pub open spec fn legal_fleet(fleet: Seq<Ship>, sizes: Seq<u8>) -> bool {
    &&& fleet.len() == sizes.len()
    &&& forall|n: int|
        0 <= n < fleet.len() ==> is_placement(
            fleet_grid(fleet.take(n)),
            sizes[n],
            #[trigger] fleet[n],
        )
}

/// The fleet holds legally placed ships for the first of the sizes, and
/// leaves no room for a ship of the next size in the direction `dxy`.
pub open spec fn stuck_fleet(fleet: Seq<Ship>, sizes: Seq<u8>, dxy: XY) -> bool {
    &&& fleet.len() < sizes.len()
    &&& legal_fleet(fleet, sizes.take(fleet.len() as int))
    &&& (dxy == XY(1, 0) || dxy == XY(0, 1))
    &&& no_room(fleet_grid(fleet), ShipShape { dxy, size: sizes[fleet.len() as int] })
}

/// The sizes of the ships of one game, in the order in which they are
/// placed.
pub open spec fn game_sizes() -> Seq<u8> {
    seq![4u8, 3u8, 3u8, 2u8, 2u8, 2u8, 1u8, 1u8, 1u8, 1u8]
}

/// The inventory of one game: for each size in `game_sizes`, how many ships
/// of it there are.
pub open spec fn game_inventory() -> Seq<ShipType> {
    seq![
        ShipType { ship_size: 4, count: 1 },
        ShipType { ship_size: 3, count: 2 },
        ShipType { ship_size: 2, count: 3 },
        ShipType { ship_size: 1, count: 4 },
    ]
}

/// What is shown for the cell with flat index `i`: the cell itself if it
/// was fired at, else a blank square.
pub open spec fn shown(g: Seq<u8>, hits: Seq<XY>, i: int) -> Seq<char> {
    if hits.contains(XY((i % 10) as usize, (i / 10) as usize)) {
        if g[i] == 1 {
            glyph(CellType::OCCUPIED)
        } else {
            glyph(CellType::EMPTY)
        }
    } else {
        "\u{2B1C}\u{FE0F}"@
    }
}

/// The text that shows the first `n` cells: each line of ten cells starts
/// with a line break.
pub open spec fn rendered(g: Seq<u8>, hits: Seq<XY>, n: int) -> Seq<char>
    decreases n,
{
    if n <= 0 {
        Seq::empty()
    } else {
        rendered(g, hits, n - 1) + (if (n - 1) % 10 == 0 {
            "\n"@
        } else {
            Seq::empty()
        }) + shown(g, hits, n - 1)
    }
}

impl Battlefield {
    /// The cell values of the board: 1 for a cell with a ship, else 0.
    pub open spec fn values(&self) -> Seq<u8> {
        self@.values
    }

    /// The cells fired at so far, oldest first.
    pub open spec fn hits(&self) -> Seq<XY> {
        self@.hits
    }

    /// A game on an empty board, with no shot fired.
    pub fn new() -> (game: Battlefield)
        ensures
            game.values() == Seq::new(100, |i: int| 0u8),
            game.hits() == Seq::<XY>::empty(),
    {
        let game = Battlefield { field: Grid::empty(), hits: Vec::new() };
        assert(game.values() =~= Seq::new(100, |i: int| 0u8));
        game
    }

    /// The board.
    pub fn field(&self) -> (field: Grid)
        ensures
            field.values() == self.values(),
    {
        self.field
    }

    /// The cell at `xy`.
    pub fn index(&self, xy: XY) -> (cell: CellType)
        requires
            xy.0 + xy.1 * 10 < 100,
        ensures
            (cell == CellType::OCCUPIED) == (self.values()[flat_index(xy.0 as int, xy.1 as int)]
                == 1),
    {
        self.field.get(xy)
    }

    /// Records a shot at `value`.
    pub fn fire(&mut self, value: XY)
        ensures
            final(self).hits() == old(self).hits().push(value),
            final(self).values() == old(self).values(),
    {
        self.hits.push(value)
    }

    /// Tells whether `xy` was fired at.
    pub fn is_hit(&self, xy: XY) -> (hit: bool)
        ensures
            hit == self.hits().contains(xy),
    {
        let mut i: usize = 0;
        while i < self.hits.len()
            invariant
                i <= self.hits@.len(),
                forall|j: int| 0 <= j < i ==> self.hits@[j] != xy,
            decreases self.hits@.len() - i,
        {
            if self.hits[i].0 == xy.0 && self.hits[i].1 == xy.1 {
                return true;
            }
            i += 1;
        }
        false
    }

    /// Tells whether the cell `(x, y)` and the cells around it hold no ship.
    fn is_cell_free(&self, x: usize, y: usize) -> (free: bool)
        ensures
            free == is_free(self.values(), x as int, y as int),
    {
        if x >= 10 || y >= 10 {
            return false;
        }
        let mut dx: usize = 0;
        while dx < 3
            invariant
                x < 10,
                y < 10,
                dx <= 3,
                forall|nx: int, ny: int|
                    near(x as int, y as int, nx, ny) && nx < x + dx - 1 ==> !occupied(
                        self.values(),
                        nx,
                        ny,
                    ),
            decreases 3 - dx,
        {
            let mut dy: usize = 0;
            while dy < 3
                invariant
                    x < 10,
                    y < 10,
                    dx < 3,
                    dy <= 3,
                    forall|nx: int, ny: int|
                        near(x as int, y as int, nx, ny) && nx < x + dx - 1 ==> !occupied(
                            self.values(),
                            nx,
                            ny,
                        ),
                    forall|nx: int, ny: int|
                        nx == x + dx - 1 && y - 1 <= ny < y + dy - 1 ==> !occupied(
                            self.values(),
                            nx,
                            ny,
                        ),
                decreases 3 - dy,
            {
                if x + dx >= 1 && y + dy >= 1 && self.field.is_occupied(x + dx - 1, y + dy - 1) {
                    return false;
                }
                dy += 1;
            }
            dx += 1;
        }
        true
    }

    /// Tells whether the ship can be placed: every cell of it lies on the
    /// field, and no cell of it holds or touches a ship already there.
    pub fn can_place_ship(&self, ship: Ship) -> (r: bool)
        requires
            ship.in_range(),
        ensures
            r == can_place(self.values(), ship),
    {
        let cells = ship.cells();
        let mut k: usize = 0;
        while k < cells.len()
            invariant
                k <= cells@.len(),
                ship.in_range(),
                cells@.len() == ship.shape.size,
                forall|j: int| 0 <= j < cells@.len() ==> #[trigger] cells@[j] == ship.rest(j).xy,
                forall|j: int|
                    0 <= j < k ==> is_free(
                        self.values(),
                        (#[trigger] ship.cell(j)).0,
                        ship.cell(j).1,
                    ),
            decreases cells@.len() - k,
        {
            proof {
                ship.lemma_cell_in_range(k as int);
            }
            let xy = cells[k];
            if !self.is_cell_free(xy.0, xy.1) {
                return false;
            }
            k += 1;
        }
        true
    }

    /// The cells at which a ship of the given shape can start, in the order
    /// of `field_coordinates`.
    pub fn get_available_cells(&self, shape: ShipShape) -> (cells: Vec<XY>)
        requires
            shape.in_range(),
        ensures
            cells@ == field_coordinates().filter(can_start_at(self.values(), shape)),
    {
        let pairs = coordinate_pairs(FIELD_SIZE, FIELD_SIZE);
        let ghost coordinates = field_coordinates();
        let ghost fits = can_start_at(self.values(), shape);
        let mut cells: Vec<XY> = Vec::new();
        let mut i: usize = 0;
        assert(coordinates.take(0).filter(fits) =~= Seq::<XY>::empty()) by {
            reveal(Seq::filter);
        }
        while i < 100
            invariant
                i <= 100,
                shape.in_range(),
                pairs@.len() == 100,
                coordinates == field_coordinates(),
                fits == can_start_at(self.values(), shape),
                forall|j: int|
                    0 <= j < 100 ==> #[trigger] pairs@[j] == ((j / 10) as usize, (j % 10) as usize),
                cells@ == coordinates.take(i as int).filter(fits),
            decreases 100 - i,
        {
            let pair = pairs[i];
            let xy = XY(pair.0, pair.1);
            assert(xy == coordinates[i as int]);
            proof {
                let longer = coordinates.take(i as int + 1);
                assert(longer.drop_last() =~= coordinates.take(i as int));
                assert(longer.last() == xy);
                reveal(Seq::filter);
            }
            if self.can_place_ship(Ship { xy, shape }) {
                cells.push(xy);
            }
            i += 1;
        }
        assert(coordinates.take(100) =~= coordinates);
        cells
    }

    /// Marks every cell of the ship as occupied.
    pub fn place_ship(&mut self, ship: Ship)
        requires
            ship.in_range(),
            ship.on_field(),
        ensures
            final(self).values() == with_ship(old(self).values(), ship),
            final(self).hits() == old(self).hits(),
    {
        let ghost before = self.values();
        let cells = ship.cells();
        let mut k: usize = 0;
        assert(self.values() =~= with_cells(before, ship, 0));
        while k < cells.len()
            invariant
                k <= cells@.len(),
                ship.in_range(),
                ship.on_field(),
                cells@.len() == ship.shape.size,
                forall|j: int| 0 <= j < cells@.len() ==> #[trigger] cells@[j] == ship.rest(j).xy,
                before.len() == 100,
                self.values() == with_cells(before, ship, k as int),
                self.hits() == old(self).hits(),
            decreases cells@.len() - k,
        {
            proof {
                ship.lemma_cell_in_range(k as int);
            }
            let ghost current = self.values();
            let xy = cells[k];
            assert(ship.cell(k as int) == (xy.0 as int, xy.1 as int));
            self.field.set(xy, CellType::OCCUPIED);
            assert(self.values() =~= with_cells(before, ship, k as int + 1)) by {
                let spot = flat_index(xy.0 as int, xy.1 as int);
                assert forall|i: int| 0 <= i < 100 implies self.values()[i] == with_cells(
                    before,
                    ship,
                    k as int + 1,
                )[i] by {
                    if i == spot {
                        assert(ship.cell(k as int) == (i % 10, i / 10));
                    } else {
                        assert(self.values()[i] == current[i]);
                        if ship.covers_first(k as int + 1, i % 10, i / 10) {
                            let j = choose|j: int|
                                0 <= j < k + 1 && #[trigger] ship.cell(j) == (i % 10, i / 10);
                            assert(j != k);
                            assert(ship.covers_first(k as int, i % 10, i / 10));
                        }
                        if ship.covers_first(k as int, i % 10, i / 10) {
                            let j = choose|j: int|
                                0 <= j < k && #[trigger] ship.cell(j) == (i % 10, i / 10);
                            assert(0 <= j < k + 1);
                        }
                    }
                }
            }
            k += 1;
        }
    }

    /// Places a ship of the given shape at one of the cells at which it can
    /// start, picked at random. There has to be such a cell.
    pub fn emplace_shape(&mut self, shape: ShipShape, rng: &mut StdRng)
        requires
            shape.in_range(),
            has_room(old(self).values(), shape),
        ensures
            final(self).hits() == old(self).hits(),
            exists|xy: XY| placed_at(old(self).values(), shape, xy, final(self).values()),
    {
        let ghost fits = can_start_at(self.values(), shape);
        let cell_coordinates = self.get_available_cells(shape);
        match choose_cell(&cell_coordinates, rng) {
            Some(xy) => {
                let ship = Ship { xy, shape };
                proof {
                    field_coordinates().lemma_filter_contains_rev(fits, xy);
                    assert(fits(xy));
                    assert(ship.on_field()) by {
                        assert forall|k: int| 0 <= k < ship.shape.size implies 0 <= (
                        #[trigger] ship.cell(k)).0 < 10 && 0 <= ship.cell(k).1 < 10 by {
                            assert(is_free(self.values(), ship.cell(k).0, ship.cell(k).1));
                        }
                    }
                    if shape.size > 0 {
                        assert(is_free(self.values(), ship.cell(0).0, ship.cell(0).1));
                    }
                    assert(ship.in_range());
                }
                self.place_ship(ship);
                assert(placed_at(old(self).values(), shape, xy, self.values()));
            },
            None => {},
        }
    }

    /// Places one ship of `size` cells at random: flips a coin for its
    /// direction, then picks one of the cells at which it can start.
    ///
    /// Returns `false`, and leaves the board as it is, when no ship of the
    /// direction that came up can be placed.
    pub fn emplace_ships(&mut self, size: u8, rng: &mut StdRng) -> (placed: bool)
        ensures
            final(self).hits() == old(self).hits(),
            placed ==> exists|ship: Ship|
                is_placement(old(self).values(), size, ship) && final(self).values() == with_ship(
                    old(self).values(),
                    ship,
                ),
            !placed ==> final(self).values() == old(self).values() && exists|dxy: XY|
                (dxy == XY(1, 0) || dxy == XY(0, 1)) && #[trigger] no_room(
                    old(self).values(),
                    ShipShape { dxy, size },
                ),
    {
        let dxy = if flip_coin(rng) {
            XY(1, 0)
        } else {
            XY(0, 1)
        };
        let shape = ShipShape { dxy, size };
        assert(shape.in_range()) by (nonlinear_arith)
            requires
                shape.size <= 255,
                shape.dxy.0 <= 1,
                shape.dxy.1 <= 1,
                usize::MAX >= 0xffff_ffff,
        ;
        if self.get_available_cells(shape).len() == 0 {
            proof {
                lemma_no_room(self.values(), shape);
            }
            false
        } else {
            self.emplace_shape(shape, rng);
            proof {
                let xy = choose|xy: XY| placed_at(old(self).values(), shape, xy, self.values());
                assert(is_placement(old(self).values(), size, Ship { xy, shape }));
            }
            true
        }
    }

    /// The inventory that a board set up by `generate` is claimed to hold.
    pub fn ships_for_game() -> (ships: Vec<ShipType>)
        ensures
            ships@ == game_inventory(),
    {
        let mut ships: Vec<ShipType> = Vec::new();
        ships.push(ShipType { ship_size: 4, count: 1 });
        ships.push(ShipType { ship_size: 3, count: 2 });
        ships.push(ShipType { ship_size: 2, count: 3 });
        ships.push(ShipType { ship_size: 1, count: 4 });
        assert(ships@ =~= game_inventory());
        ships
    }

    /// Sets up a game: places the ships of `game_sizes`, largest first, at
    /// random on an empty board. The generator is seeded with `seed`.
    ///
    /// No ship touches another one, not even at a corner, so the board holds
    /// the inventory of one game.
    ///
    /// Returns `None` when the ships placed so far leave no room for the
    /// next one in the direction that came up for it.
    pub fn generate(seed: [u8; 32]) -> (r: Option<Battlefield>)
        ensures
            match r {
                Some(game) => {
                    &&& game.hits() == Seq::<XY>::empty()
                    &&& exists|fleet: Seq<Ship>|
                        legal_fleet(fleet, game_sizes()) && game.values() == fleet_grid(fleet)
                    &&& inventory_matches(game.values(), game_inventory())
                },
                None => exists|fleet: Seq<Ship>, dxy: XY|
                    stuck_fleet(fleet, game_sizes(), dxy),
            },
    {
        let mut result = Battlefield::new();
        let mut rng = seeded_rng(seed);
        let sizes: [u8; 10] = [4, 3, 3, 2, 2, 2, 1, 1, 1, 1];
        assert(sizes@ =~= game_sizes());
        let ghost mut fleet: Seq<Ship> = Seq::empty();
        let mut i: usize = 0;
        while i < 10
            invariant
                i <= 10,
                sizes@ == game_sizes(),
                fleet.len() == i,
                result.hits() == Seq::<XY>::empty(),
                result.values() == fleet_grid(fleet),
                forall|n: int|
                    0 <= n < i ==> is_placement(
                        fleet_grid(fleet.take(n)),
                        sizes@[n],
                        #[trigger] fleet[n],
                    ),
            decreases 10 - i,
        {
            let ghost before = result.values();
            if !result.emplace_ships(sizes[i], &mut rng) {
                proof {
                    let dxy = choose|dxy: XY|
                        (dxy == XY(1, 0) || dxy == XY(0, 1)) && #[trigger] no_room(
                            before,
                            ShipShape { dxy, size: sizes@[i as int] },
                        );
                    assert(game_sizes().take(i as int).len() == i);
                    assert(legal_fleet(fleet, game_sizes().take(i as int)));
                    assert(stuck_fleet(fleet, game_sizes(), dxy));
                }
                return None;
            }
            proof {
                let ship = choose|ship: Ship|
                    is_placement(before, sizes@[i as int], ship) && result.values() == with_ship(
                        before,
                        ship,
                    );
                let longer = fleet.push(ship);
                assert(longer.drop_last() =~= fleet);
                assert(longer.take(i as int) =~= fleet);
                assert forall|n: int| 0 <= n < i implies longer.take(n) == fleet.take(n) by {
                    assert(longer.take(n) =~= fleet.take(n));
                }
                fleet = longer;
            }
            i += 1;
        }
        assert(fleet.take(10) =~= fleet);
        assert(legal_fleet(fleet, game_sizes()));
        proof {
            law_game_board_holds_inventory(fleet);
        }
        Some(result)
    }

    /// The text that shows the board: ten lines of ten cells, each line
    /// after a line break. A cell that was fired at shows what it holds,
    /// any other cell a blank square.
    pub fn render(&self) -> (text: String)
        ensures
            text@ == rendered(self.values(), self.hits(), 100),
    {
        let mut text = String::new();
        let mut index: usize = 0;
        while index < 100
            invariant
                index <= 100,
                text@ == rendered(self.values(), self.hits(), index as int),
            decreases 100 - index,
        {
            let xy = XY(index % FIELD_SIZE, index / FIELD_SIZE);
            // Start of line
            if xy.0 == 0 {
                text.append("\n");
            }
            if self.is_hit(xy) {
                text.append(self.field.get(xy).symbol());
            } else {
                text.append("\u{2B1C}\u{FE0F}");
            }
            index += 1;
        }
        text
    }
}

/// Where no ship of the shape can start at a cell of the field, none can be
/// placed at all.
pub proof fn lemma_no_room(g: Seq<u8>, shape: ShipShape)
    requires
        field_coordinates().filter(can_start_at(g, shape)).len() == 0,
    ensures
        no_room(g, shape),
{
    let fits = can_start_at(g, shape);
    assert forall|xy: XY| !#[trigger] can_place(g, Ship { xy, shape }) by {
        let ship = Ship { xy, shape };
        if can_place(g, ship) {
            if shape.size == 0 {
                let origin = XY(0, 0);
                assert(field_coordinates()[0] == origin);
                assert(fits(origin));
                field_coordinates().lemma_filter_contains(fits, 0);
            } else {
                assert(is_free(g, ship.cell(0).0, ship.cell(0).1));
                let i = xy.0 * 10 + xy.1;
                assert(field_coordinates()[i] == xy);
                assert(fits(xy));
                field_coordinates().lemma_filter_contains(fits, i);
            }
        }
    }
}

} // verus!
