//! Laws of the counting rules: what the verifier finds on boards of a known
//! shape, and that its verdict depends on the board and the inventory alone.
use vstd::prelude::*;
use crate::counting::{
    count_below, count_result, has_neighbor, is_run, is_single, lemma_count_below_agree,
    lemma_count_below_bounds, lemma_count_below_none, lemma_count_below_one,
    lemma_count_below_some, lemma_ship_count_bounds, lemma_sum_below_agree,
    lemma_sum_below_bounds, lemma_sum_below_one, lemma_sum_below_some, line_runs, occupied_at,
    row_singles, run_ends_at, runs, ship_count, single_in_row, singles, sum_below, valid_size,
    well_formed, Orientation,
};
use crate::error::VerificationError;
use crate::game::field::{flat_index, occupied};
use crate::inventory::{
    entry_holds, inventory_countable, inventory_matches, is_first_violation, is_verdict,
    lemma_verdict_is_decided,
};
use crate::ship::ShipType;

verus! {

/// The predicate "the cell `(x, y)` is occupied", as a function of `y`.
pub open spec fn occupied_in_row(g: Seq<u8>, x: int) -> spec_fn(int) -> bool {
    |y: int| occupied(g, x, y)
}

/// The number of occupied cells in each row.
pub open spec fn row_occupied(g: Seq<u8>) -> spec_fn(int) -> int {
    |x: int| count_below(10, occupied_in_row(g, x))
}

/// The number of occupied cells of the grid.
pub open spec fn occupied_cells(g: Seq<u8>) -> int {
    sum_below(10, row_occupied(g))
}

/// No occupied cell has an occupied orthogonal neighbour.
pub open spec fn all_isolated(g: Seq<u8>) -> bool {
    forall|x: int, y: int| #[trigger] occupied(g, x, y) ==> !has_neighbor(g, x, y)
}

/// The occupied cells of the grid are exactly the cells
/// `start .. start + len` of one line.
pub open spec fn only_run(g: Seq<u8>, o: Orientation, line: int, start: int, len: int) -> bool {
    forall|l: int, p: int| #[trigger]
        occupied_at(g, o, l, p) <==> (l == line && start <= p < start + len)
}

/// The grid with rows and columns exchanged.
pub open spec fn transposed(g: Seq<u8>) -> Seq<u8> {
    Seq::new(100, |i: int| g[flat_index(i / 10, i % 10)])
}

/// The inventory with the single entry "`count` ships of `size` cells".
pub open spec fn single_entry(size: u8, count: u8) -> Seq<ShipType> {
    seq![ShipType { ship_size: size, count }]
}

/// On a board whose occupied cells all lie apart from each other, each of
/// them is a ship of size 1: with the number `k` of its occupied cells, the
/// verifier accepts the inventory "`k` ships of size 1", and rejects the
/// same inventory with any other number, `k + 1` and `k - 1` among them,
/// naming the entry.
pub proof fn law_isolated_cells_are_counted(g: Seq<u8>, k: u8)
    requires
        well_formed(g),
        all_isolated(g),
        occupied_cells(g) == k,
    ensures
        ship_count(g, 1) == k,
        inventory_matches(g, single_entry(1, k)),
        k < 255 ==> !inventory_matches(g, single_entry(1, (k + 1) as u8)),
        k > 0 ==> !inventory_matches(g, single_entry(1, (k - 1) as u8)),
        forall|c: u8| #[trigger] inventory_matches(g, single_entry(1, c)) <==> c == k,
        forall|r: Result<(), VerificationError>| #[trigger]
            is_verdict(g, single_entry(1, k), r) ==> r is Ok,
        forall|c: u8, r: Result<(), VerificationError>|
            c != k && #[trigger] is_verdict(g, single_entry(1, c), r) ==> r == rejected(1, c),
{
    assert forall|c: u8, r: Result<(), VerificationError>| #[trigger]
        is_verdict(g, single_entry(1, c), r) implies decided_by_entry(g, 1, c, r) by {
        lemma_single_entry_verdict(g, 1, c, r);
    }
    assert forall|x: int| 0 <= x < 10 implies #[trigger] row_singles(g)(x) == row_occupied(g)(
        x,
    ) by {
        assert forall|y: int| 0 <= y < 10 implies #[trigger] single_in_row(g, x)(y)
            == occupied_in_row(g, x)(y) by {
            if occupied(g, x, y) {
                assert(!has_neighbor(g, x, y));
            }
        }
        lemma_count_below_agree(10, single_in_row(g, x), occupied_in_row(g, x));
    }
    lemma_sum_below_agree(10, row_singles(g), row_occupied(g));
    assert forall|c: u8| #[trigger] inventory_matches(g, single_entry(1, c)) <==> c == k by {
        lemma_single_entry(g, 1, c);
    }
    lemma_single_entry(g, 1, k);
    if k < 255 {
        lemma_single_entry(g, 1, (k + 1) as u8);
    }
    if k > 0 {
        lemma_single_entry(g, 1, (k - 1) as u8);
    }
}

/// The verdict that names the entry "`count` ships of `size` cells" as
/// violated.
pub open spec fn rejected(size: u8, count: u8) -> Result<(), VerificationError> {
    Err(
        VerificationError::ConstraintViolation {
            ship: Some(ShipType { ship_size: size, count }),
        },
    )
}

/// The result is success if the grid holds the entry "`count` ships of
/// `size` cells", and the violation that names the entry if not.
pub open spec fn decided_by_entry(
    g: Seq<u8>,
    size: u8,
    count: u8,
    r: Result<(), VerificationError>,
) -> bool {
    if entry_holds(g, ShipType { ship_size: size, count }) {
        r is Ok
    } else {
        r == rejected(size, count)
    }
}

/// The verdict on an inventory of one entry with a valid size: success
/// where the grid holds the entry, else the violation that names it.
pub proof fn lemma_single_entry_verdict(
    g: Seq<u8>,
    size: u8,
    count: u8,
    r: Result<(), VerificationError>,
)
    requires
        well_formed(g),
        valid_size(size as int),
        is_verdict(g, single_entry(size, count), r),
    ensures
        decided_by_entry(g, size, count, r),
{
    let ships = single_entry(size, count);
    assert(ships[0] == ShipType { ship_size: size, count });
    assert(inventory_countable(g, ships));
    lemma_single_entry(g, size, count);
    if !entry_holds(g, ships[0]) {
        assert(is_first_violation(g, ships, 0));
    }
}

/// An inventory of one entry is held exactly when the entry is.
pub proof fn lemma_single_entry(g: Seq<u8>, size: u8, count: u8)
    ensures
        inventory_matches(g, single_entry(size, count)) <==> entry_holds(
            g,
            ShipType { ship_size: size, count },
        ),
{
    let ships = single_entry(size, count);
    assert(ships[0] == ShipType { ship_size: size, count });
    if entry_holds(g, ShipType { ship_size: size, count }) {
        assert forall|i: int| 0 <= i < ships.len() implies entry_holds(g, #[trigger] ships[i]) by {
            assert(i == 0);
        }
    }
}

/// A board that holds one straight run of `len` cells, with `len` at least
/// 2, and nothing else holds exactly one ship of size `len`, whether the run
/// lies along a row or along a column and wherever it lies, the edges of
/// the board included: the verifier accepts the inventory "one ship of size
/// `len`" and rejects "no ship of size `len`".
pub proof fn law_lone_run_counts_once(g: Seq<u8>, o: Orientation, line: int, start: int, len: u8)
    requires
        well_formed(g),
        2 <= len <= 10,
        0 <= line < 10,
        0 <= start,
        start + len <= 10,
        only_run(g, o, line, start, len as int),
    ensures
        runs(g, o, len as int) == 1,
        runs(g, o.flipped(), len as int) == 0,
        ship_count(g, len as int) == 1,
        inventory_matches(g, single_entry(len, 1)),
        !inventory_matches(g, single_entry(len, 0)),
        forall|r: Result<(), VerificationError>| #[trigger]
            is_verdict(g, single_entry(len, 1), r) ==> r is Ok,
        forall|r: Result<(), VerificationError>| #[trigger]
            is_verdict(g, single_entry(len, 0), r) ==> r == rejected(len, 0),
{
    assert forall|r: Result<(), VerificationError>| #[trigger]
        is_verdict(g, single_entry(len, 1), r) implies decided_by_entry(g, len, 1, r) by {
        lemma_single_entry_verdict(g, len, 1, r);
    }
    assert forall|r: Result<(), VerificationError>| #[trigger]
        is_verdict(g, single_entry(len, 0), r) implies decided_by_entry(g, len, 0, r) by {
        lemma_single_entry_verdict(g, len, 0, r);
    }
    let n = len as int;
    let along = line_runs(g, o, n);
    assert forall|l: int| 0 <= l < 10 && l != line implies #[trigger] along(l) == 0 by {
        assert forall|e: int| 0 <= e < 11 implies !#[trigger] run_ends_at(g, o, l, n)(e) by {
            if is_run(g, o, l, e - n, n) {
                assert(occupied_at(g, o, l, e - n));
            }
        }
        lemma_count_below_none(11, run_ends_at(g, o, l, n));
    }
    assert(along(line) == 1) by {
        assert forall|e: int| 0 <= e < 11 implies #[trigger] run_ends_at(g, o, line, n)(e) == (e
            == start + n) by {
            if is_run(g, o, line, e - n, n) {
                assert(occupied_at(g, o, line, e - n));
                assert(occupied_at(g, o, line, e - 1));
            }
            if e == start + n {
                assert(!occupied_at(g, o, line, start - 1));
                assert(!occupied_at(g, o, line, start + n));
                assert(is_run(g, o, line, start, n));
            }
        }
        lemma_count_below_one(11, run_ends_at(g, o, line, n), start + n);
    }
    lemma_sum_below_one(10, along, line);
    let f = o.flipped();
    let across = line_runs(g, f, n);
    assert forall|l: int| 0 <= l < 10 implies 0 <= #[trigger] across(l) <= 0 by {
        assert forall|e: int| 0 <= e < 11 implies !#[trigger] run_ends_at(g, f, l, n)(e) by {
            if is_run(g, f, l, e - n, n) {
                assert(occupied_at(g, f, l, e - n));
                assert(occupied_at(g, f, l, e - n + 1));
                assert(occupied_at(g, o, e - n, l));
                assert(occupied_at(g, o, e - n + 1, l));
            }
        }
        lemma_count_below_none(11, run_ends_at(g, f, l, n));
    }
    lemma_sum_below_bounds(10, across, 0);
    lemma_single_entry(g, len, 1);
    lemma_single_entry(g, len, 0);
}

/// Every run of exactly `len` cells is counted, also one that ends at the
/// last cell of its line or lies in the last line; so is every cell without
/// neighbours. The verifier rejects an inventory that declares no ship of
/// the size of such a ship.
pub proof fn law_ships_at_the_edge_are_counted(
    g: Seq<u8>,
    o: Orientation,
    line: int,
    start: int,
    len: int,
)
    requires
        0 <= line < 10,
    ensures
        is_run(g, o, line, start, len) ==> runs(g, o, len) >= 1,
        is_run(g, o, line, start, len) && len >= 2 ==> ship_count(g, len) >= 1,
        0 <= start < 10 && is_single(g, line, start) ==> ship_count(g, 1) >= 1,
        forall|r: Result<(), VerificationError>|
            well_formed(g) && is_run(g, o, line, start, len) && len >= 2 && #[trigger] is_verdict(
                g,
                single_entry(len as u8, 0),
                r,
            ) ==> r == rejected(len as u8, 0),
        forall|r: Result<(), VerificationError>|
            well_formed(g) && 0 <= start < 10 && is_single(g, line, start) && #[trigger] is_verdict(
                g,
                single_entry(1, 0),
                r,
            ) ==> r == rejected(1, 0),
{
    assert forall|r: Result<(), VerificationError>|
        well_formed(g) && is_run(g, o, line, start, len) && len >= 2 && #[trigger] is_verdict(
            g,
            single_entry(len as u8, 0),
            r,
        ) implies decided_by_entry(g, len as u8, 0, r) by {
        lemma_single_entry_verdict(g, len as u8, 0, r);
    }
    assert forall|r: Result<(), VerificationError>|
        well_formed(g) && #[trigger] is_verdict(g, single_entry(1, 0), r) implies decided_by_entry(
        g,
        1,
        0,
        r,
    ) by {
        lemma_single_entry_verdict(g, 1, 0, r);
    }
    lemma_ship_count_bounds(g, len);
    if is_run(g, o, line, start, len) {
        let along = line_runs(g, o, len);
        assert forall|l: int| 0 <= l < 10 implies 0 <= #[trigger] along(l) by {
            lemma_count_below_bounds(11, run_ends_at(g, o, l, len));
        }
        assert(run_ends_at(g, o, line, len)(start + len));
        lemma_count_below_some(11, run_ends_at(g, o, line, len), start + len);
        lemma_sum_below_some(10, along, line);
    }
    if 0 <= start < 10 && is_single(g, line, start) {
        let rows = row_singles(g);
        assert forall|x: int| 0 <= x < 10 implies 0 <= #[trigger] rows(x) by {
            lemma_count_below_bounds(10, single_in_row(g, x));
        }
        assert(single_in_row(g, line)(start));
        lemma_count_below_some(10, single_in_row(g, line), start);
        lemma_sum_below_some(10, rows, line);
    }
}

/// The predicate `p` at a fixed first argument.
pub open spec fn row_of(p: spec_fn(int, int) -> bool, x: int) -> spec_fn(int) -> bool {
    |y: int| p(x, y)
}

/// The predicate `p` at a fixed second argument.
pub open spec fn column_of(p: spec_fn(int, int) -> bool, y: int) -> spec_fn(int) -> bool {
    |x: int| p(x, y)
}

/// For each `x`, the number of `y` below `m` with `p(x, y)`.
pub open spec fn count_in_rows(p: spec_fn(int, int) -> bool, m: int) -> spec_fn(int) -> int {
    |x: int| count_below(m, row_of(p, x))
}

/// For each `y`, the number of `x` below `n` with `p(x, y)`.
pub open spec fn count_in_columns(p: spec_fn(int, int) -> bool, n: int) -> spec_fn(int) -> int {
    |y: int| count_below(n, column_of(p, y))
}

/// Adding to each term of a sum 1 where `q` holds adds to the sum the
/// number of times that `q` holds.
pub proof fn lemma_sum_with_count(
    m: int,
    f: spec_fn(int) -> int,
    q: spec_fn(int) -> bool,
    h: spec_fn(int) -> int,
)
    requires
        forall|i: int|
            0 <= i < m ==> #[trigger] h(i) == f(i) + if q(i) {
                1int
            } else {
                0int
            },
    ensures
        sum_below(m, h) == sum_below(m, f) + count_below(m, q),
    decreases m,
{
    if m > 0 {
        lemma_sum_with_count(m - 1, f, q, h);
    }
}

/// The pairs `(x, y)` with `p(x, y)` are as many counted row by row as
/// counted column by column.
pub proof fn lemma_count_by_rows_or_columns(p: spec_fn(int, int) -> bool, n: int, m: int)
    requires
        0 <= n,
        0 <= m,
    ensures
        sum_below(n, count_in_rows(p, m)) == sum_below(m, count_in_columns(p, n)),
    decreases n,
{
    if n == 0 {
        lemma_sum_below_bounds(m, count_in_columns(p, 0), 0);
    } else {
        lemma_count_by_rows_or_columns(p, n - 1, m);
        assert forall|y: int| 0 <= y < m implies #[trigger] count_in_columns(p, n)(y)
            == count_in_columns(p, n - 1)(y) + if row_of(p, n - 1)(y) {
            1int
        } else {
            0int
        } by {}
        lemma_sum_with_count(
            m,
            count_in_columns(p, n - 1),
            row_of(p, n - 1),
            count_in_columns(p, n),
        );
    }
}

/// The predicate "the cell `(x, y)` is a ship of size 1".
pub open spec fn single_at(g: Seq<u8>) -> spec_fn(int, int) -> bool {
    |x: int, y: int| is_single(g, x, y)
}

/// A cell of the transposed grid is occupied exactly when the mirrored cell
/// of the grid is.
pub proof fn lemma_transposed_occupied(g: Seq<u8>, x: int, y: int)
    requires
        g.len() == 100,
    ensures
        occupied(transposed(g), x, y) == occupied(g, y, x),
{
    if 0 <= x < 10 && 0 <= y < 10 {
        let i = flat_index(x, y);
        assert(i % 10 == x && i / 10 == y);
    }
}

/// Exchanging the rows and the columns of a board changes no count: a
/// vertical run is counted as the horizontal run that it becomes, and a
/// cell without neighbours stays one.
pub proof fn law_count_ignores_orientation(g: Seq<u8>, size: u8)
    requires
        g.len() == 100,
    ensures
        runs(transposed(g), Orientation::Horizontal, size as int) == runs(
            g,
            Orientation::Vertical,
            size as int,
        ),
        runs(transposed(g), Orientation::Vertical, size as int) == runs(
            g,
            Orientation::Horizontal,
            size as int,
        ),
        ship_count(transposed(g), size as int) == ship_count(g, size as int),
        count_result(transposed(g), size) == count_result(g, size),
{
    let t = transposed(g);
    let n = size as int;
    assert forall|x: int, y: int| occupied(t, x, y) == occupied(g, y, x) by {
        lemma_transposed_occupied(g, x, y);
    }
    lemma_transposed_runs(g, Orientation::Horizontal, n);
    lemma_transposed_runs(g, Orientation::Vertical, n);
    // cells without neighbours
    let p = single_at(g);
    assert forall|x: int| 0 <= x < 10 implies #[trigger] row_singles(g)(x) == count_in_rows(
        p,
        10,
    )(x) by {
        assert forall|y: int| 0 <= y < 10 implies #[trigger] single_in_row(g, x)(y) == row_of(
            p,
            x,
        )(y) by {}
        lemma_count_below_agree(10, single_in_row(g, x), row_of(p, x));
    }
    lemma_sum_below_agree(10, row_singles(g), count_in_rows(p, 10));
    assert forall|x: int| 0 <= x < 10 implies #[trigger] row_singles(t)(x) == count_in_columns(
        p,
        10,
    )(x) by {
        assert forall|y: int| 0 <= y < 10 implies #[trigger] single_in_row(t, x)(y) == column_of(
            p,
            x,
        )(y) by {
            assert(is_single(t, x, y) == is_single(g, y, x));
        }
        lemma_count_below_agree(10, single_in_row(t, x), column_of(p, x));
    }
    lemma_sum_below_agree(10, row_singles(t), count_in_columns(p, 10));
    lemma_count_by_rows_or_columns(p, 10, 10);
    assert(singles(t) == singles(g));
    // well-formedness
    assert(well_formed(t) == well_formed(g)) by {
        if well_formed(g) {
            assert forall|i: int| 0 <= i < 100 implies #[trigger] t[i] <= 1 by {
                assert(g[flat_index(i / 10, i % 10)] <= 1);
            }
        }
        if well_formed(t) {
            assert forall|i: int| 0 <= i < 100 implies #[trigger] g[i] <= 1 by {
                let j = flat_index(i / 10, i % 10);
                assert(0 <= j < 100);
                assert(t[j] <= 1);
                assert(flat_index(j / 10, j % 10) == i);
            }
        }
    }
}

/// The runs of one orientation on the transposed grid are the runs of the
/// other orientation on the grid.
pub proof fn lemma_transposed_runs(g: Seq<u8>, o: Orientation, len: int)
    requires
        g.len() == 100,
    ensures
        runs(transposed(g), o, len) == runs(g, o.flipped(), len),
{
    let t = transposed(g);
    let f = o.flipped();
    assert forall|l: int, p: int| occupied_at(t, o, l, p) == occupied_at(g, f, l, p) by {
        lemma_transposed_occupied(g, l, p);
        lemma_transposed_occupied(g, p, l);
    }
    assert forall|l: int| 0 <= l < 10 implies #[trigger] line_runs(t, o, len)(l) == line_runs(
        g,
        f,
        len,
    )(l) by {
        assert forall|e: int| 0 <= e < 11 implies #[trigger] run_ends_at(t, o, l, len)(e)
            == run_ends_at(g, f, l, len)(e) by {
            lemma_transposed_run(g, o, l, e - len, len);
        }
        lemma_count_below_agree(11, run_ends_at(t, o, l, len), run_ends_at(g, f, l, len));
    }
    lemma_sum_below_agree(10, line_runs(t, o, len), line_runs(g, f, len));
}

/// A run of one orientation on the transposed grid is a run of the other
/// orientation on the grid.
pub proof fn lemma_transposed_run(g: Seq<u8>, o: Orientation, line: int, start: int, len: int)
    requires
        g.len() == 100,
    ensures
        is_run(transposed(g), o, line, start, len) == is_run(g, o.flipped(), line, start, len),
{
    let t = transposed(g);
    let f = o.flipped();
    assert forall|l: int, p: int| occupied_at(t, o, l, p) == occupied_at(g, f, l, p) by {
        lemma_transposed_occupied(g, l, p);
        lemma_transposed_occupied(g, p, l);
    }
    if is_run(t, o, line, start, len) {
        assert forall|k: int| start <= k < start + len implies occupied_at(g, f, line, k) by {
            assert(occupied_at(t, o, line, k));
        }
    }
    if is_run(g, f, line, start, len) {
        assert forall|k: int| start <= k < start + len implies occupied_at(t, o, line, k) by {
            assert(occupied_at(g, f, line, k));
        }
    }
}

/// The verdict on a board is the verdict on the board with rows and
/// columns exchanged.
pub proof fn law_verdict_ignores_orientation(
    g: Seq<u8>,
    ships: Seq<ShipType>,
    r: Result<(), VerificationError>,
    mirrored: Result<(), VerificationError>,
)
    requires
        g.len() == 100,
        is_verdict(g, ships, r),
        is_verdict(transposed(g), ships, mirrored),
    ensures
        r == mirrored,
{
    let t = transposed(g);
    assert forall|i: int| 0 <= i < ships.len() implies count_result(
        t,
        (#[trigger] ships[i]).ship_size,
    ) == count_result(g, ships[i].ship_size) by {
        law_count_ignores_orientation(g, ships[i].ship_size);
    }
    assert(inventory_countable(t, ships) == inventory_countable(g, ships));
    assert(inventory_matches(t, ships) == inventory_matches(g, ships)) by {
        if inventory_matches(g, ships) {
            assert forall|i: int| 0 <= i < ships.len() implies entry_holds(
                t,
                #[trigger] ships[i],
            ) by {
                assert(entry_holds(g, ships[i]));
            }
        }
        if inventory_matches(t, ships) {
            assert forall|i: int| 0 <= i < ships.len() implies entry_holds(
                g,
                #[trigger] ships[i],
            ) by {
                assert(entry_holds(t, ships[i]));
            }
        }
    }
    assert forall|i: int| is_first_violation(t, ships, i) == is_first_violation(g, ships, i) by {
        if is_first_violation(g, ships, i) {
            assert forall|j: int| 0 <= j < i implies entry_holds(t, #[trigger] ships[j]) by {
                assert(entry_holds(g, ships[j]));
            }
        }
        if is_first_violation(t, ships, i) {
            assert forall|j: int| 0 <= j < i implies entry_holds(g, #[trigger] ships[j]) by {
                assert(entry_holds(t, ships[j]));
            }
        }
    }
    assert(is_verdict(g, ships, mirrored));
    lemma_verdict_is_decided(g, ships, r, mirrored);
}

/// Verifying a board against an inventory twice comes to the same result
/// both times: the result is decided by the board and the inventory alone.
pub proof fn law_verdict_is_repeatable(
    g: Seq<u8>,
    ships: Seq<ShipType>,
    first: Result<(), VerificationError>,
    second: Result<(), VerificationError>,
)
    requires
        is_verdict(g, ships, first),
        is_verdict(g, ships, second),
    ensures
        first == second,
{
    lemma_verdict_is_decided(g, ships, first, second);
}

} // verus!
