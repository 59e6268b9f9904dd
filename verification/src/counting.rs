//! The ship-counting rules: what counts as a ship of a given size on a grid
//! of cell values, and the scan that counts them.
//!
//! A grid is a sequence of 100 bytes; the cell `(x, y)` is at index
//! `x + 10 * y`. A *row* is the set of cells with one `x`, a *column* the set
//! of cells with one `y`. A cell outside the grid is never occupied.
use vstd::prelude::*;
use crate::error::VerificationError;
use crate::game::field::occupied;

verus! {

/// The direction of a scan: along a row or along a column.
#[derive(Clone, Copy, PartialEq, Eq, Structural, Debug)]
pub enum Orientation {
    Horizontal,
    Vertical,
}

impl Orientation {
    /// The other orientation.
    pub open spec fn flipped(self) -> Orientation {
        match self {
            Orientation::Horizontal => Orientation::Vertical,
            Orientation::Vertical => Orientation::Horizontal,
        }
    }
}

/// How ships of one size are counted: a ship of size 1 is a cell without
/// neighbours, a longer ship is a straight run.
#[derive(Clone, Copy, PartialEq, Eq, Structural, Debug)]
pub enum CountingStrategy {
    IsolatedCells,
    StraightRuns,
}

/// A grid of cell values is well formed when it has 100 cells, each 0 or 1.
pub open spec fn well_formed(g: Seq<u8>) -> bool {
    g.len() == 100 && forall|i: int| 0 <= i < 100 ==> #[trigger] g[i] <= 1
}

/// A ship size is valid when it lies in `1..=10`.
pub open spec fn valid_size(size: int) -> bool {
    1 <= size <= 10
}

/// One of the four orthogonal neighbours of `(x, y)` is occupied.
pub open spec fn has_neighbor(g: Seq<u8>, x: int, y: int) -> bool {
    occupied(g, x, y + 1) || occupied(g, x, y - 1) || occupied(g, x - 1, y) || occupied(
        g,
        x + 1,
        y,
    )
}

/// The cell `(x, y)` is a complete ship of size 1.
pub open spec fn is_single(g: Seq<u8>, x: int, y: int) -> bool {
    occupied(g, x, y) && !has_neighbor(g, x, y)
}

/// The cell at position `pos` of line `line` is occupied, where a line is a
/// row for a horizontal scan and a column for a vertical one.
pub open spec fn occupied_at(g: Seq<u8>, o: Orientation, line: int, pos: int) -> bool {
    match o {
        Orientation::Horizontal => occupied(g, line, pos),
        Orientation::Vertical => occupied(g, pos, line),
    }
}

/// The cells `start .. start + len` of a line are a run: all occupied, with
/// no occupied cell directly before or after them.
pub open spec fn is_run(g: Seq<u8>, o: Orientation, line: int, start: int, len: int) -> bool {
    &&& 0 <= start
    &&& 1 <= len
    &&& start + len <= 10
    &&& forall|k: int| start <= k < start + len ==> occupied_at(g, o, line, k)
    &&& !occupied_at(g, o, line, start - 1)
    &&& !occupied_at(g, o, line, start + len)
}

/// The number of `i` in `0..n` at which `p` holds.
pub open spec fn count_below(n: int, p: spec_fn(int) -> bool) -> int
    decreases n,
{
    if n <= 0 {
        0
    } else {
        count_below(n - 1, p) + if p(n - 1) {
            1int
        } else {
            0int
        }
    }
}

/// The sum of `f(i)` over `i` in `0..n`.
pub open spec fn sum_below(n: int, f: spec_fn(int) -> int) -> int
    decreases n,
{
    if n <= 0 {
        0
    } else {
        sum_below(n - 1, f) + f(n - 1)
    }
}

/// The predicate "the cell `(x, y)` is a ship of size 1", as a function of `y`.
pub open spec fn single_in_row(g: Seq<u8>, x: int) -> spec_fn(int) -> bool {
    |y: int| is_single(g, x, y)
}

/// The number of ships of size 1 in each row.
pub open spec fn row_singles(g: Seq<u8>) -> spec_fn(int) -> int {
    |x: int| count_below(10, single_in_row(g, x))
}

/// The number of ships of size 1 on the grid.
pub open spec fn singles(g: Seq<u8>) -> int {
    sum_below(10, row_singles(g))
}

/// The predicate "a run of exactly `len` cells ends just before position
/// `end` of the line", as a function of `end`.
pub open spec fn run_ends_at(g: Seq<u8>, o: Orientation, line: int, len: int) -> spec_fn(
    int,
) -> bool {
    |end: int| is_run(g, o, line, end - len, len)
}

/// The number of runs of exactly `len` cells in each line.
pub open spec fn line_runs(g: Seq<u8>, o: Orientation, len: int) -> spec_fn(int) -> int {
    |line: int| count_below(11, run_ends_at(g, o, line, len))
}

/// The number of runs of exactly `len` cells over all lines of one
/// orientation.
pub open spec fn runs(g: Seq<u8>, o: Orientation, len: int) -> int {
    sum_below(10, line_runs(g, o, len))
}

/// The number of ships of the given size on a well-formed grid: cells
/// without neighbours for size 1, else the horizontal plus the vertical runs
/// of exactly that length.
pub open spec fn ship_count(g: Seq<u8>, size: int) -> int {
    if size == 1 {
        singles(g)
    } else {
        runs(g, Orientation::Horizontal, size) + runs(g, Orientation::Vertical, size)
    }
}

/// What counting the ships of one size yields: the count on a well-formed
/// grid and a valid size, an error otherwise.
pub open spec fn count_result(g: Seq<u8>, size: u8) -> Result<u8, VerificationError> {
    if well_formed(g) && valid_size(size as int) {
        Ok(ship_count(g, size as int) as u8)
    } else {
        Err(VerificationError::AssignmentMissing)
    }
}

/// `count_below` lies between 0 and the number of candidates.
pub proof fn lemma_count_below_bounds(n: int, p: spec_fn(int) -> bool)
    requires
        0 <= n,
    ensures
        0 <= count_below(n, p) <= n,
    decreases n,
{
    if n > 0 {
        lemma_count_below_bounds(n - 1, p);
    }
}

/// A sum of terms between 0 and `bound` lies between 0 and `n * bound`.
pub proof fn lemma_sum_below_bounds(n: int, f: spec_fn(int) -> int, bound: int)
    requires
        0 <= n,
        forall|i: int| 0 <= i < n ==> 0 <= #[trigger] f(i) <= bound,
    ensures
        0 <= sum_below(n, f) <= n * bound,
    decreases n,
{
    if n > 0 {
        lemma_sum_below_bounds(n - 1, f, bound);
        assert(0 <= f(n - 1) <= bound);
        assert(n * bound == (n - 1) * bound + bound) by (nonlinear_arith);
    } else {
        assert(n * bound == 0) by (nonlinear_arith)
            requires
                n == 0,
        ;
    }
}

/// Predicates that agree below `n` hold equally often below `n`.
pub proof fn lemma_count_below_agree(n: int, p: spec_fn(int) -> bool, q: spec_fn(int) -> bool)
    requires
        forall|i: int| 0 <= i < n ==> #[trigger] p(i) == q(i),
    ensures
        count_below(n, p) == count_below(n, q),
    decreases n,
{
    if n > 0 {
        lemma_count_below_agree(n - 1, p, q);
    }
}

/// A predicate that holds nowhere below `n` is counted 0 times.
pub proof fn lemma_count_below_none(n: int, p: spec_fn(int) -> bool)
    requires
        forall|i: int| 0 <= i < n ==> !#[trigger] p(i),
    ensures
        count_below(n, p) == 0,
    decreases n,
{
    if n > 0 {
        lemma_count_below_none(n - 1, p);
    }
}

/// A predicate that holds below `n` at `at` and nowhere else is counted
/// once.
pub proof fn lemma_count_below_one(n: int, p: spec_fn(int) -> bool, at: int)
    requires
        0 <= at < n,
        forall|i: int| 0 <= i < n ==> #[trigger] p(i) == (i == at),
    ensures
        count_below(n, p) == 1,
    decreases n,
{
    if n - 1 == at {
        lemma_count_below_none(n - 1, p);
    } else {
        lemma_count_below_one(n - 1, p, at);
    }
}

/// A predicate that holds somewhere below `n` is counted at least once.
pub proof fn lemma_count_below_some(n: int, p: spec_fn(int) -> bool, at: int)
    requires
        0 <= at < n,
        p(at),
    ensures
        count_below(n, p) >= 1,
    decreases n,
{
    if n - 1 == at {
        lemma_count_below_bounds(n - 1, p);
    } else {
        lemma_count_below_some(n - 1, p, at);
    }
}

/// A predicate that holds at `at` and otherwise where `p` holds, which does
/// not hold at `at`, is counted once more than `p`.
pub proof fn lemma_count_below_extra(
    n: int,
    p: spec_fn(int) -> bool,
    q: spec_fn(int) -> bool,
    at: int,
)
    requires
        0 <= at < n,
        !p(at),
        q(at),
        forall|i: int| 0 <= i < n && i != at ==> #[trigger] p(i) == q(i),
    ensures
        count_below(n, q) == count_below(n, p) + 1,
    decreases n,
{
    if n - 1 == at {
        lemma_count_below_agree(n - 1, p, q);
    } else {
        lemma_count_below_extra(n - 1, p, q, at);
    }
}

/// A sum whose term at `at` is larger by `extra`, and whose other terms are
/// the same, is larger by `extra`.
pub proof fn lemma_sum_below_extra(
    n: int,
    f: spec_fn(int) -> int,
    h: spec_fn(int) -> int,
    at: int,
    extra: int,
)
    requires
        0 <= at < n,
        h(at) == f(at) + extra,
        forall|i: int| 0 <= i < n && i != at ==> #[trigger] f(i) == h(i),
    ensures
        sum_below(n, h) == sum_below(n, f) + extra,
    decreases n,
{
    if n - 1 == at {
        lemma_sum_below_agree(n - 1, f, h);
    } else {
        lemma_sum_below_extra(n - 1, f, h, at, extra);
    }
}

/// Functions that agree below `n` have the same sum below `n`.
pub proof fn lemma_sum_below_agree(n: int, f: spec_fn(int) -> int, h: spec_fn(int) -> int)
    requires
        forall|i: int| 0 <= i < n ==> #[trigger] f(i) == h(i),
    ensures
        sum_below(n, f) == sum_below(n, h),
    decreases n,
{
    if n > 0 {
        lemma_sum_below_agree(n - 1, f, h);
    }
}

/// A sum of terms that are 0 everywhere but at `at` is the term at `at`.
pub proof fn lemma_sum_below_one(n: int, f: spec_fn(int) -> int, at: int)
    requires
        0 <= at < n,
        forall|i: int| 0 <= i < n && i != at ==> #[trigger] f(i) == 0,
    ensures
        sum_below(n, f) == f(at),
    decreases n,
{
    if n - 1 == at {
        lemma_sum_below_bounds(n - 1, f, 0);
    } else {
        lemma_sum_below_one(n - 1, f, at);
    }
}

/// A sum of terms that are not negative is at least each of its terms.
pub proof fn lemma_sum_below_some(n: int, f: spec_fn(int) -> int, at: int)
    requires
        0 <= at < n,
        forall|i: int| 0 <= i < n ==> 0 <= #[trigger] f(i),
    ensures
        sum_below(n, f) >= f(at),
    decreases n,
{
    if n - 1 == at {
        lemma_sum_below_nonnegative(n - 1, f);
    } else {
        lemma_sum_below_some(n - 1, f, at);
    }
}

/// A sum of terms that are not negative is not negative.
pub proof fn lemma_sum_below_nonnegative(n: int, f: spec_fn(int) -> int)
    requires
        forall|i: int| 0 <= i < n ==> 0 <= #[trigger] f(i),
    ensures
        0 <= sum_below(n, f),
    decreases n,
{
    if n > 0 {
        lemma_sum_below_nonnegative(n - 1, f);
    }
}

/// No size has more than 200 ships on a grid.
pub proof fn lemma_ship_count_bounds(g: Seq<u8>, size: int)
    ensures
        0 <= singles(g) <= 100,
        0 <= runs(g, Orientation::Horizontal, size) <= 110,
        0 <= runs(g, Orientation::Vertical, size) <= 110,
        0 <= ship_count(g, size) <= 220,
{
    assert forall|x: int| 0 <= x < 10 implies 0 <= #[trigger] row_singles(g)(x) <= 10 by {
        lemma_count_below_bounds(10, single_in_row(g, x));
    }
    lemma_sum_below_bounds(10, row_singles(g), 10);
    let h = Orientation::Horizontal;
    let v = Orientation::Vertical;
    assert forall|x: int| 0 <= x < 10 implies 0 <= #[trigger] line_runs(g, h, size)(x) <= 11 by {
        lemma_count_below_bounds(11, run_ends_at(g, h, x, size));
    }
    lemma_sum_below_bounds(10, line_runs(g, h, size), 11);
    assert forall|x: int| 0 <= x < 10 implies 0 <= #[trigger] line_runs(g, v, size)(x) <= 11 by {
        lemma_count_below_bounds(11, run_ends_at(g, v, x, size));
    }
    lemma_sum_below_bounds(10, line_runs(g, v, size), 11);
}

impl CountingStrategy {
    /// The strategy by which ships of `size` cells are counted.
    pub fn for_size(size: u8) -> (strategy: CountingStrategy)
        ensures
            strategy == (if size == 1 {
                CountingStrategy::IsolatedCells
            } else {
                CountingStrategy::StraightRuns
            }),
    {
        if size == 1 {
            CountingStrategy::IsolatedCells
        } else {
            CountingStrategy::StraightRuns
        }
    }
}

/// Tells whether every cell value of the grid is 0 or 1.
pub fn is_well_formed(cells: &[u8; 100]) -> (ok: bool)
    ensures
        ok == well_formed(cells@),
{
    let mut i: usize = 0;
    while i < 100
        invariant
            i <= 100,
            forall|j: int| 0 <= j < i ==> #[trigger] cells@[j] <= 1,
        decreases 100 - i,
    {
        if cells[i] > 1 {
            return false;
        }
        i += 1;
    }
    true
}

/// Tells whether the cell `(x, y)` is occupied; a cell outside the grid is
/// not.
fn is_occupied(cells: &[u8; 100], x: usize, y: usize) -> (r: bool)
    ensures
        r == occupied(cells@, x as int, y as int),
{
    x < 10 && y < 10 && cells[x + 10 * y] == 1
}

/// Tells whether one of the four orthogonal neighbours of `(x, y)` holds a
/// ship. Neighbours outside the grid count as empty.
pub fn has_neighbors(cells: &[u8; 100], x: usize, y: usize) -> (r: bool)
    ensures
        r == has_neighbor(cells@, x as int, y as int),
{
    if y < 10 && is_occupied(cells, x, y + 1) {
        return true;
    }
    if y > 0 && is_occupied(cells, x, y - 1) {
        return true;
    }
    if x > 0 && is_occupied(cells, x - 1, y) {
        return true;
    }
    x < 10 && is_occupied(cells, x + 1, y)
}

/// Counts the ships of size 1: occupied cells none of whose neighbours is
/// occupied.
fn count_singles(cells: &[u8; 100]) -> (found: u8)
    ensures
        found == singles(cells@),
{
    let ghost g = cells@;
    let mut found: u8 = 0;
    let mut x: usize = 0;
    while x < 10
        invariant
            x <= 10,
            g == cells@,
            found == sum_below(x as int, row_singles(g)),
            found <= 10 * x,
        decreases 10 - x,
    {
        let ghost base = found as int;
        let mut y: usize = 0;
        while y < 10
            invariant
                x < 10,
                y <= 10,
                g == cells@,
                found == base + count_below(y as int, single_in_row(g, x as int)),
                base <= 10 * x,
                found <= base + y,
            decreases 10 - y,
        {
            if cells[x + 10 * y] == 1 {
                if !has_neighbors(cells, x, y) {
                    found += 1;
                }
            }
            y += 1;
        }
        x += 1;
    }
    found
}

/// Counts, over all lines of one orientation, the runs of exactly `size`
/// occupied cells. A run is credited when the empty cell after it is seen,
/// or at the end of its line.
fn count_runs(cells: &[u8; 100], size: u8, o: Orientation) -> (found: u8)
    requires
        valid_size(size as int),
    ensures
        found == runs(cells@, o, size as int),
{
    let ghost g = cells@;
    let ghost len = size as int;
    let mut found: u8 = 0;
    let mut line: usize = 0;
    while line < 10
        invariant
            line <= 10,
            g == cells@,
            len == size as int,
            valid_size(len),
            found == sum_below(line as int, line_runs(g, o, len)),
            found <= 11 * line,
        decreases 10 - line,
    {
        let ghost base = found as int;
        let mut current: u8 = 0;
        let mut pos: usize = 0;
        while pos < 10
            invariant
                line < 10,
                pos <= 10,
                g == cells@,
                len == size as int,
                valid_size(len),
                current <= pos,
                forall|k: int| pos - current <= k < pos ==> occupied_at(g, o, line as int, k),
                !occupied_at(g, o, line as int, pos - current - 1),
                found == base + count_below(pos as int, run_ends_at(g, o, line as int, len)),
                base <= 11 * line,
                found <= base + pos,
            decreases 10 - pos,
        {
            let index: usize = match o {
                Orientation::Horizontal => line + 10 * pos,
                Orientation::Vertical => pos + 10 * line,
            };
            if cells[index] == 1 {
                current += 1;
            } else {
                if current == size {
                    found += 1;
                }
                current = 0;
            }
            pos += 1;
        }
        if current == size {
            found += 1;
        }
        line += 1;
    }
    found
}

/// Counts the ships of `size` cells on a grid of cell values.
///
/// A ship of size 1 is an occupied cell without an occupied orthogonal
/// neighbour. A longer ship is a horizontal or vertical run of exactly
/// `size` occupied cells; a longer or shorter run is not counted. A cell
/// value other than 0 or 1, or a size outside `1..=10`, is an error.
pub fn count_ships(cells: &[u8; 100], size: u8) -> (r: Result<u8, VerificationError>)
    ensures
        r == count_result(cells@, size),
{
    if size < 1 || size > 10 || !is_well_formed(cells) {
        return Err(VerificationError::AssignmentMissing);
    }
    proof {
        lemma_ship_count_bounds(cells@, size as int);
    }
    match CountingStrategy::for_size(size) {
        CountingStrategy::IsolatedCells => Ok(count_singles(cells)),
        CountingStrategy::StraightRuns => {
            let horizontal: u8 = count_runs(cells, size, Orientation::Horizontal);
            let vertical: u8 = count_runs(cells, size, Orientation::Vertical);
            Ok(horizontal + vertical)
        },
    }
}

} // verus!
