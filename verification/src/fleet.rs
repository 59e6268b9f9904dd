//! Why a board that was set up ship by ship holds its inventory: a ship
//! placed clear of all others adds one run of its length and changes no
//! other count.
use vstd::prelude::*;
use crate::battlefield::{
    fleet_grid, game_inventory, game_sizes, is_free, is_placement, legal_fleet, near, with_ship,
};
use crate::counting::{
    count_below, has_neighbor, is_run, is_single, lemma_count_below_agree,
    lemma_count_below_extra, lemma_count_below_none, lemma_sum_below_agree,
    lemma_sum_below_bounds, lemma_sum_below_extra, line_runs, occupied_at, row_singles,
    run_ends_at, runs, ship_count, single_in_row, singles, well_formed, Orientation,
};
use crate::game::field::{flat_index, occupied};
use crate::inventory::{entry_holds, inventory_matches};
use crate::ship::Ship;

verus! {

/// The grid `after` is the grid `before` with one more run: the cells
/// `start .. start + len` of line `line`, none of which, nor any cell that
/// touches one of them, was occupied before.
pub open spec fn adds_run(
    before: Seq<u8>,
    after: Seq<u8>,
    o: Orientation,
    line: int,
    start: int,
    len: int,
) -> bool {
    &&& 0 <= line < 10
    &&& 0 <= start
    &&& 1 <= len
    &&& start + len <= 10
    &&& forall|l: int, p: int| #[trigger]
        occupied_at(after, o, l, p) == (occupied_at(before, o, l, p) || (l == line && start <= p
            < start + len))
    &&& forall|l: int, p: int|
        line - 1 <= l <= line + 1 && start - 1 <= p <= start + len ==> !#[trigger] occupied_at(
            before,
            o,
            l,
            p,
        )
}

/// In the line of the new run, the runs of the grid are those it had before
/// and the new one.
pub proof fn lemma_runs_in_the_line(
    before: Seq<u8>,
    after: Seq<u8>,
    o: Orientation,
    line: int,
    start: int,
    len: int,
    a: int,
    n: int,
)
    requires
        adds_run(before, after, o, line, start, len),
        1 <= n,
    ensures
        is_run(after, o, line, a, n) == (is_run(before, o, line, a, n) || (a == start && n
            == len)),
{
    if is_run(before, o, line, a, n) {
        assert(occupied_at(before, o, line, a));
        assert(occupied_at(before, o, line, a + n - 1));
        assert(!occupied_at(before, o, line, start - 1));
        assert(!occupied_at(before, o, line, start + len));
        if a < start {
            // the run ends before the free cell in front of the new run
            if a + n > start - 1 {
                assert(occupied_at(before, o, line, start - 1));
            }
        } else {
            if a <= start + len {
                assert(!occupied_at(before, o, line, a));
            }
        }
        assert forall|k: int| a <= k < a + n implies occupied_at(after, o, line, k) by {
            assert(occupied_at(before, o, line, k));
        }
        assert(is_run(after, o, line, a, n));
    }
    if a == start && n == len {
        assert(!occupied_at(before, o, line, start - 1));
        assert(!occupied_at(before, o, line, start + len));
        assert(is_run(after, o, line, a, n));
    }
    if is_run(after, o, line, a, n) && !(a == start && n == len) {
        assert(occupied_at(after, o, line, a));
        assert(occupied_at(after, o, line, a + n - 1));
        assert(!occupied_at(before, o, line, start - 1));
        assert(!occupied_at(before, o, line, start + len));
        if a < start + len && start < a + n {
            // the run shares a cell with the new one, so it is the new one
            if a < start {
                assert(occupied_at(after, o, line, start - 1));
            }
            if a > start {
                assert(occupied_at(after, o, line, a - 1));
            }
            if a + n > start + len {
                assert(occupied_at(after, o, line, start + len));
            }
            if a + n < start + len {
                assert(occupied_at(after, o, line, a + n));
            }
            assert(false);
        }
        assert forall|k: int| a <= k < a + n implies occupied_at(before, o, line, k) by {
            assert(occupied_at(after, o, line, k));
        }
        assert(is_run(before, o, line, a, n));
    }
}

/// A line that the new run does not lie in has the runs it had before.
pub proof fn lemma_runs_in_other_lines(
    before: Seq<u8>,
    after: Seq<u8>,
    o: Orientation,
    line: int,
    start: int,
    len: int,
    l: int,
    a: int,
    n: int,
)
    requires
        adds_run(before, after, o, line, start, len),
        l != line,
    ensures
        is_run(after, o, l, a, n) == is_run(before, o, l, a, n),
{
    if is_run(before, o, l, a, n) {
        assert forall|k: int| a <= k < a + n implies occupied_at(after, o, l, k) by {
            assert(occupied_at(before, o, l, k));
        }
    }
    if is_run(after, o, l, a, n) {
        assert forall|k: int| a <= k < a + n implies occupied_at(before, o, l, k) by {
            assert(occupied_at(after, o, l, k));
        }
    }
}

/// Along its own orientation, the new run is one more run of its length and
/// changes the number of runs of no other length.
pub proof fn lemma_run_added_along(
    before: Seq<u8>,
    after: Seq<u8>,
    o: Orientation,
    line: int,
    start: int,
    len: int,
    n: int,
)
    requires
        adds_run(before, after, o, line, start, len),
        1 <= n,
    ensures
        runs(after, o, n) == runs(before, o, n) + if n == len {
            1int
        } else {
            0int
        },
{
    let old_lines = line_runs(before, o, n);
    let new_lines = line_runs(after, o, n);
    let extra = if n == len {
        1int
    } else {
        0int
    };
    assert forall|l: int| 0 <= l < 10 && l != line implies #[trigger] old_lines(l) == new_lines(
        l,
    ) by {
        assert forall|e: int| 0 <= e < 11 implies #[trigger] run_ends_at(before, o, l, n)(e)
            == run_ends_at(after, o, l, n)(e) by {
            lemma_runs_in_other_lines(before, after, o, line, start, len, l, e - n, n);
        }
        lemma_count_below_agree(11, run_ends_at(before, o, l, n), run_ends_at(after, o, l, n));
    }
    assert(new_lines(line) == old_lines(line) + extra) by {
        let p = run_ends_at(before, o, line, n);
        let q = run_ends_at(after, o, line, n);
        assert forall|e: int| 0 <= e < 11 implies #[trigger] q(e) == (p(e) || (e == start + len
            && n == len)) by {
            lemma_runs_in_the_line(before, after, o, line, start, len, e - n, n);
        }
        if n == len {
            assert(!p(start + len)) by {
                if is_run(before, o, line, start, len) {
                    assert(occupied_at(before, o, line, start));
                }
            }
            lemma_count_below_extra(11, p, q, start + len);
        } else {
            lemma_count_below_agree(11, p, q);
        }
    }
    lemma_sum_below_extra(10, old_lines, new_lines, line, extra);
}

/// Seen across its orientation, the new run adds one cell to each line it
/// crosses, so the runs of two or more cells stay what they were.
pub proof fn lemma_runs_across(
    before: Seq<u8>,
    after: Seq<u8>,
    o: Orientation,
    line: int,
    start: int,
    len: int,
    m: int,
    a: int,
    n: int,
)
    requires
        adds_run(before, after, o, line, start, len),
        2 <= n,
    ensures
        is_run(after, o.flipped(), m, a, n) == is_run(before, o.flipped(), m, a, n),
{
    let f = o.flipped();
    assert forall|l: int, p: int| #[trigger]
        occupied_at(after, f, l, p) == occupied_at(after, o, p, l) by {}
    assert forall|l: int, p: int| #[trigger]
        occupied_at(before, f, l, p) == occupied_at(before, o, p, l) by {}
    let crossed = start <= m < start + len;
    if crossed {
        assert(!occupied_at(before, o, line - 1, m));
        assert(!occupied_at(before, o, line, m));
        assert(!occupied_at(before, o, line + 1, m));
        assert(!occupied_at(before, f, m, line - 1));
        assert(!occupied_at(before, f, m, line));
        assert(!occupied_at(before, f, m, line + 1));
    }
    if is_run(before, f, m, a, n) {
        if crossed && a <= line + 1 && line - 1 < a + n {
            // the run would hold one of the three free cells
            if a <= line - 1 {
                assert(occupied_at(before, f, m, line - 1));
            } else if a <= line {
                assert(occupied_at(before, f, m, line));
            } else {
                assert(occupied_at(before, f, m, line + 1));
            }
            assert(false);
        }
        assert forall|k: int| a <= k < a + n implies occupied_at(after, f, m, k) by {
            assert(occupied_at(before, f, m, k));
        }
        assert(!occupied_at(after, f, m, a - 1));
        assert(!occupied_at(after, f, m, a + n));
        assert(is_run(after, f, m, a, n));
    }
    if is_run(after, f, m, a, n) {
        if crossed && a <= line < a + n {
            // the run would hold the new cell and a free cell beside it
            if a < line {
                assert(occupied_at(after, f, m, line - 1));
            } else {
                assert(occupied_at(after, f, m, line + 1));
            }
            assert(false);
        }
        assert forall|k: int| a <= k < a + n implies occupied_at(before, f, m, k) by {
            assert(occupied_at(after, f, m, k));
        }
        assert(!occupied_at(before, f, m, a - 1)) by {
            assert(!occupied_at(after, f, m, a - 1));
        }
        assert(!occupied_at(before, f, m, a + n)) by {
            assert(!occupied_at(after, f, m, a + n));
        }
        assert(is_run(before, f, m, a, n));
    }
}

/// Across its own orientation, the new run changes the number of runs of no
/// length from 2 on.
pub proof fn lemma_run_added_across(
    before: Seq<u8>,
    after: Seq<u8>,
    o: Orientation,
    line: int,
    start: int,
    len: int,
    n: int,
)
    requires
        adds_run(before, after, o, line, start, len),
        2 <= n,
    ensures
        runs(after, o.flipped(), n) == runs(before, o.flipped(), n),
{
    let f = o.flipped();
    assert forall|m: int| 0 <= m < 10 implies #[trigger] line_runs(before, f, n)(m) == line_runs(
        after,
        f,
        n,
    )(m) by {
        assert forall|e: int| 0 <= e < 11 implies #[trigger] run_ends_at(before, f, m, n)(e)
            == run_ends_at(after, f, m, n)(e) by {
            lemma_runs_across(before, after, o, line, start, len, m, e - n, n);
        }
        lemma_count_below_agree(11, run_ends_at(before, f, m, n), run_ends_at(after, f, m, n));
    }
    lemma_sum_below_agree(10, line_runs(before, f, n), line_runs(after, f, n));
}

/// The cell `(x, y)` is one of the cells `start .. start + len` of the
/// line.
pub open spec fn in_run(o: Orientation, line: int, start: int, len: int, x: int, y: int) -> bool {
    match o {
        Orientation::Horizontal => x == line && start <= y < start + len,
        Orientation::Vertical => y == line && start <= x < start + len,
    }
}

/// What the new run does to the cell `(x, y)`: it is occupied afterwards if
/// it was before or lies in the run, and it was empty before if it lies in
/// the run or touches it.
pub proof fn lemma_cell_after(
    before: Seq<u8>,
    after: Seq<u8>,
    o: Orientation,
    line: int,
    start: int,
    len: int,
    x: int,
    y: int,
)
    requires
        adds_run(before, after, o, line, start, len),
    ensures
        occupied(after, x, y) == (occupied(before, x, y) || in_run(o, line, start, len, x, y)),
        forall|sx: int, sy: int|
            in_run(o, line, start, len, sx, sy) && sx - 1 <= x <= sx + 1 && sy - 1 <= y <= sy + 1
                ==> !occupied(before, x, y),
{
    match o {
        Orientation::Horizontal => {
            assert(occupied_at(after, o, x, y) == occupied(after, x, y));
            assert(occupied_at(before, o, x, y) == occupied(before, x, y));
        },
        Orientation::Vertical => {
            assert(occupied_at(after, o, y, x) == occupied(after, x, y));
            assert(occupied_at(before, o, y, x) == occupied(before, x, y));
        },
    }
}

/// The new run is a ship of size 1 if it has one cell, and changes no other
/// cell's being one.
pub proof fn lemma_single_after(
    before: Seq<u8>,
    after: Seq<u8>,
    o: Orientation,
    line: int,
    start: int,
    len: int,
    x: int,
    y: int,
)
    requires
        adds_run(before, after, o, line, start, len),
    ensures
        is_single(after, x, y) == (is_single(before, x, y) || (len == 1 && in_run(
            o,
            line,
            start,
            len,
            x,
            y,
        ))),
{
    lemma_cell_after(before, after, o, line, start, len, x, y);
    lemma_cell_after(before, after, o, line, start, len, x, y + 1);
    lemma_cell_after(before, after, o, line, start, len, x, y - 1);
    lemma_cell_after(before, after, o, line, start, len, x - 1, y);
    lemma_cell_after(before, after, o, line, start, len, x + 1, y);
    if in_run(o, line, start, len, x, y) {
        assert(!occupied(before, x, y));
        assert(!has_neighbor(before, x, y));
        if len >= 2 {
            match o {
                Orientation::Horizontal => {
                    if y + 1 < start + len {
                        assert(in_run(o, line, start, len, x, y + 1));
                    } else {
                        assert(in_run(o, line, start, len, x, y - 1));
                    }
                },
                Orientation::Vertical => {
                    if x + 1 < start + len {
                        assert(in_run(o, line, start, len, x + 1, y));
                    } else {
                        assert(in_run(o, line, start, len, x - 1, y));
                    }
                },
            }
            assert(has_neighbor(after, x, y));
        }
    } else if occupied(before, x, y) {
        // no neighbour of the cell lies in the run: the cell would touch it
        assert(!in_run(o, line, start, len, x, y + 1));
        assert(!in_run(o, line, start, len, x, y - 1));
        assert(!in_run(o, line, start, len, x - 1, y));
        assert(!in_run(o, line, start, len, x + 1, y));
    }
}

/// The new run is one more ship of size 1 if it has one cell, and none
/// otherwise.
pub proof fn lemma_run_added_to_singles(
    before: Seq<u8>,
    after: Seq<u8>,
    o: Orientation,
    line: int,
    start: int,
    len: int,
)
    requires
        adds_run(before, after, o, line, start, len),
    ensures
        singles(after) == singles(before) + if len == 1 {
            1int
        } else {
            0int
        },
{
    let old_rows = row_singles(before);
    let new_rows = row_singles(after);
    let (sx, sy) = match o {
        Orientation::Horizontal => (line, start),
        Orientation::Vertical => (start, line),
    };
    assert forall|x: int| 0 <= x < 10 && !(len == 1 && x == sx) implies #[trigger] old_rows(x)
        == new_rows(x) by {
        assert forall|y: int| 0 <= y < 10 implies #[trigger] single_in_row(before, x)(y)
            == single_in_row(after, x)(y) by {
            lemma_single_after(before, after, o, line, start, len, x, y);
        }
        lemma_count_below_agree(10, single_in_row(before, x), single_in_row(after, x));
    }
    if len == 1 {
        let p = single_in_row(before, sx);
        let q = single_in_row(after, sx);
        assert forall|y: int| 0 <= y < 10 && y != sy implies #[trigger] p(y) == q(y) by {
            lemma_single_after(before, after, o, line, start, len, sx, y);
        }
        lemma_single_after(before, after, o, line, start, len, sx, sy);
        lemma_cell_after(before, after, o, line, start, len, sx, sy);
        assert(in_run(o, line, start, len, sx, sy));
        assert(!p(sy));
        assert(q(sy));
        lemma_count_below_extra(10, p, q, sy);
        lemma_sum_below_extra(10, old_rows, new_rows, sx, 1);
    } else {
        lemma_sum_below_agree(10, old_rows, new_rows);
    }
}

/// The new run is one more ship of its length, and leaves the number of
/// ships of every other size as it was.
pub proof fn lemma_run_added(
    before: Seq<u8>,
    after: Seq<u8>,
    o: Orientation,
    line: int,
    start: int,
    len: int,
    n: int,
)
    requires
        adds_run(before, after, o, line, start, len),
        1 <= n,
    ensures
        ship_count(after, n) == ship_count(before, n) + if n == len {
            1int
        } else {
            0int
        },
{
    if n == 1 {
        lemma_run_added_to_singles(before, after, o, line, start, len);
    } else {
        lemma_run_added_along(before, after, o, line, start, len, n);
        lemma_run_added_across(before, after, o, line, start, len, n);
    }
}

/// The line along which a ship lies, and where on it the ship starts: a
/// ship that steps in `x` lies in the column of its `y`, one that steps in
/// `y` in the row of its `x`.
pub open spec fn run_of(ship: Ship) -> (Orientation, int, int) {
    if ship.shape.dxy.0 == 1 {
        (Orientation::Vertical, ship.xy.1 as int, ship.xy.0 as int)
    } else {
        (Orientation::Horizontal, ship.xy.0 as int, ship.xy.1 as int)
    }
}

/// Placing a ship with at least one cell adds its run to the grid.
pub proof fn lemma_placement_adds_run(g: Seq<u8>, size: u8, ship: Ship)
    requires
        g.len() == 100,
        size >= 1,
        is_placement(g, size, ship),
    ensures
        adds_run(
            g,
            with_ship(g, ship),
            run_of(ship).0,
            run_of(ship).1,
            run_of(ship).2,
            size as int,
        ),
{
    let after = with_ship(g, ship);
    let (o, line, start) = run_of(ship);
    let len = size as int;
    let dx = ship.shape.dxy.0 as int;
    let dy = ship.shape.dxy.1 as int;
    // the cells of the ship, in the terms of its line
    assert forall|k: int| 0 <= k < len implies #[trigger] ship.cell(k) == (if dx == 1 {
        (start + k, line)
    } else {
        (line, start + k)
    }) by {
        assert(k * 1 == k && k * 0 == 0);
        assert(k * dx == if dx == 1 { k } else { 0 }) by (nonlinear_arith)
            requires
                dx == 1 || dx == 0,
        ;
        assert(k * dy == if dy == 1 { k } else { 0 }) by (nonlinear_arith)
            requires
                dy == 1 || dy == 0,
        ;
    }
    assert(is_free(g, ship.cell(0).0, ship.cell(0).1));
    assert(is_free(g, ship.cell(len - 1).0, ship.cell(len - 1).1));
    assert forall|x: int, y: int| ship.covers(x, y) == in_run(o, line, start, len, x, y) by {
        if ship.covers(x, y) {
            let k = choose|k: int| 0 <= k < len && #[trigger] ship.cell(k) == (x, y);
            assert(in_run(o, line, start, len, x, y));
        }
        if in_run(o, line, start, len, x, y) {
            let k = if dx == 1 {
                x - start
            } else {
                y - start
            };
            assert(ship.cell(k) == (x, y));
        }
    }
    assert forall|l: int, p: int| #[trigger]
        occupied_at(after, o, l, p) == (occupied_at(g, o, l, p) || (l == line && start <= p
            < start + len)) by {
        let (x, y) = match o {
            Orientation::Horizontal => (l, p),
            Orientation::Vertical => (p, l),
        };
        assert(in_run(o, line, start, len, x, y) == (l == line && start <= p < start + len));
        if 0 <= x < 10 && 0 <= y < 10 {
            let i = flat_index(x, y);
            assert(i % 10 == x && i / 10 == y);
            assert(after[i] == if ship.covers(x, y) {
                1u8
            } else {
                g[i]
            });
        }
    }
    assert forall|l: int, p: int|
        line - 1 <= l <= line + 1 && start - 1 <= p <= start + len implies !#[trigger] occupied_at(
            g,
            o,
            l,
            p,
        ) by {
        let k = if p < start {
            0
        } else if p >= start + len {
            len - 1
        } else {
            p - start
        };
        let (x, y) = match o {
            Orientation::Horizontal => (l, p),
            Orientation::Vertical => (p, l),
        };
        assert(is_free(g, ship.cell(k).0, ship.cell(k).1));
        assert(near(ship.cell(k).0, ship.cell(k).1, x, y));
    }
}

/// The predicate "the size with index `i` is `n`".
pub open spec fn has_size(sizes: Seq<u8>, n: int) -> spec_fn(int) -> bool {
    |i: int| sizes[i] == n
}

/// The number of ships of `n` cells among the sizes.
pub open spec fn ships_of_size(sizes: Seq<u8>, n: int) -> int {
    count_below(sizes.len() as int, has_size(sizes, n))
}

/// A board on which the ships of a fleet were placed one by one, each clear
/// of those before it, holds for every size exactly the ships of that size
/// in the fleet.
pub proof fn law_fleet_is_counted(fleet: Seq<Ship>, sizes: Seq<u8>, n: int)
    requires
        legal_fleet(fleet, sizes),
        1 <= n <= 10,
    ensures
        well_formed(fleet_grid(fleet)),
        ship_count(fleet_grid(fleet), n) == ships_of_size(sizes, n),
    decreases fleet.len(),
{
    if fleet.len() == 0 {
        lemma_empty_grid(n);
    } else {
        let rest = fleet.drop_last();
        let rest_sizes = sizes.drop_last();
        let last = fleet.len() - 1;
        let ship = fleet.last();
        let size = sizes.last();
        let before = fleet_grid(rest);
        let after = fleet_grid(fleet);
        assert(fleet.take(last) =~= rest);
        assert(legal_fleet(rest, rest_sizes)) by {
            assert forall|m: int| 0 <= m < rest.len() implies is_placement(
                fleet_grid(rest.take(m)),
                rest_sizes[m],
                #[trigger] rest[m],
            ) by {
                assert(rest.take(m) =~= fleet.take(m));
                assert(is_placement(fleet_grid(fleet.take(m)), sizes[m], fleet[m]));
            }
        }
        law_fleet_is_counted(rest, rest_sizes, n);
        assert(is_placement(before, size, ship)) by {
            assert(is_placement(fleet_grid(fleet.take(last)), sizes[last], fleet[last]));
        }
        let p = has_size(sizes, n);
        let q = has_size(rest_sizes, n);
        assert(count_below(last, p) == count_below(last, q)) by {
            assert forall|i: int| 0 <= i < last implies #[trigger] p(i) == q(i) by {}
            lemma_count_below_agree(last, p, q);
        }
        assert(ships_of_size(sizes, n) == ships_of_size(rest_sizes, n) + if size == n {
            1int
        } else {
            0int
        });
        if size == 0 {
            assert(after =~= before) by {
                assert forall|i: int| 0 <= i < 100 implies after[i] == before[i] by {
                    assert(!ship.covers(i % 10, i / 10));
                }
            }
        } else {
            lemma_placement_adds_run(before, size, ship);
            let (o, line, start) = run_of(ship);
            lemma_run_added(before, after, o, line, start, size as int, n);
            assert(well_formed(after)) by {
                assert forall|i: int| 0 <= i < 100 implies #[trigger] after[i] <= 1 by {
                    assert(before[i] <= 1);
                }
            }
        }
    }
}

/// A board on which the fleet of one game was placed holds the inventory
/// of one game: one ship of size 4, two of size 3, three of size 2 and four
/// of size 1.
pub proof fn law_game_board_holds_inventory(fleet: Seq<Ship>)
    requires
        legal_fleet(fleet, game_sizes()),
    ensures
        well_formed(fleet_grid(fleet)),
        inventory_matches(fleet_grid(fleet), game_inventory()),
{
    let g = fleet_grid(fleet);
    let sizes = game_sizes();
    law_fleet_is_counted(fleet, sizes, 1);
    law_fleet_is_counted(fleet, sizes, 2);
    law_fleet_is_counted(fleet, sizes, 3);
    law_fleet_is_counted(fleet, sizes, 4);
    assert(ships_of_size(sizes, 1) == 4 && ships_of_size(sizes, 2) == 3 && ships_of_size(sizes, 3)
        == 2 && ships_of_size(sizes, 4) == 1) by {
        reveal_with_fuel(count_below, 11);
    }
    let ships = game_inventory();
    assert forall|i: int| 0 <= i < ships.len() implies entry_holds(g, #[trigger] ships[i]) by {
        assert(i == 0 || i == 1 || i == 2 || i == 3);
    }
}

/// An empty grid is well formed and holds no ship.
pub proof fn lemma_empty_grid(n: int)
    ensures
        well_formed(Seq::new(100, |i: int| 0u8)),
        ship_count(Seq::new(100, |i: int| 0u8), n) == 0,
{
    let g = Seq::new(100, |i: int| 0u8);
    assert forall|x: int, y: int| !occupied(g, x, y) by {}
    assert forall|x: int| 0 <= x < 10 implies 0 <= #[trigger] row_singles(g)(x) <= 0 by {
        lemma_count_below_none(10, single_in_row(g, x));
    }
    lemma_sum_below_bounds(10, row_singles(g), 0);
    let h = Orientation::Horizontal;
    let v = Orientation::Vertical;
    assert forall|l: int| 0 <= l < 10 implies 0 <= #[trigger] line_runs(g, h, n)(l) <= 0 by {
        assert forall|e: int| 0 <= e < 11 implies !#[trigger] run_ends_at(g, h, l, n)(e) by {
            if is_run(g, h, l, e - n, n) {
                assert(occupied_at(g, h, l, e - n));
            }
        }
        lemma_count_below_none(11, run_ends_at(g, h, l, n));
    }
    lemma_sum_below_bounds(10, line_runs(g, h, n), 0);
    assert forall|l: int| 0 <= l < 10 implies 0 <= #[trigger] line_runs(g, v, n)(l) <= 0 by {
        assert forall|e: int| 0 <= e < 11 implies !#[trigger] run_ends_at(g, v, l, n)(e) by {
            if is_run(g, v, l, e - n, n) {
                assert(occupied_at(g, v, l, e - n));
            }
        }
        lemma_count_below_none(11, run_ends_at(g, v, l, n));
    }
    lemma_sum_below_bounds(10, line_runs(g, v, n), 0);
}

} // verus!
