//! Grid geometry: cells, grid sizes, bounds, checkerboard parity and
//! boundary classification.

use vstd::prelude::*;

verus! {

/// A grid cell, identified by its row and column.
#[derive(Debug, Clone, Copy, PartialEq, Eq, Hash, Structural)]
pub struct Point {
    pub row: i32,
    pub col: i32,
}

/// The dimensions of a rectangular grid.
#[derive(Debug, Clone, Copy)]
pub struct GridSize {
    pub rows: i32,
    pub cols: i32,
}

/// The largest number of cells a grid may have: one bit per cell in the
/// seven 64-bit words of the visited set.
pub const MAX_CELLS: usize = 448;

impl View for Point {
    type V = (int, int);

    /// A cell as a pair of mathematical integers `(row, col)`.
    open spec fn view(&self) -> (int, int) {
        (self.row as int, self.col as int)
    }
}

impl GridSize {
    /// A grid the search can work on: both dimensions positive and no more
    /// cells than the visited set has bits.
    pub open spec fn wf(self) -> bool {
        &&& 0 < self.rows
        &&& 0 < self.cols
        &&& self.rows * self.cols <= MAX_CELLS
    }

    /// Number of cells of the grid.
    pub open spec fn area(self) -> int {
        self.rows * self.cols
    }

    /// Whether `cell` lies on the grid.
    pub open spec fn contains(self, cell: (int, int)) -> bool {
        0 <= cell.0 < self.rows && 0 <= cell.1 < self.cols
    }

    /// The set of all cells of the grid.
    pub open spec fn cells(self) -> Set<(int, int)> {
        Set::new(|c: (int, int)| self.contains(c))
    }
}

/// The checkerboard colour of a cell: `(row + col) mod 2`, always 0 or 1.
pub open spec fn spec_parity(row: int, col: int) -> int {
    (row + col) % 2
}

/// Two cells are 4-adjacent: they differ by one step along exactly one axis.
pub open spec fn adjacent(a: (int, int), b: (int, int)) -> bool {
    ||| (a.0 == b.0 && (a.1 == b.1 + 1 || b.1 == a.1 + 1))
    ||| (a.1 == b.1 && (a.0 == b.0 + 1 || b.0 == a.0 + 1))
}

/// Absolute value of a mathematical integer.
pub open spec fn spec_abs(x: int) -> int {
    if x < 0 { -x } else { x }
}

/// Manhattan distance between two cells.
pub open spec fn spec_manhattan(a: (int, int), b: (int, int)) -> int {
    spec_abs(a.0 - b.0) + spec_abs(a.1 - b.1)
}

/// A cell in both a boundary row and a boundary column.
pub open spec fn spec_is_corner(cell: (int, int), grid: GridSize) -> bool {
    (cell.0 == 0 || cell.0 == grid.rows - 1) && (cell.1 == 0 || cell.1 == grid.cols - 1)
}

/// A cell in a boundary row or a boundary column.
pub open spec fn spec_is_edge(cell: (int, int), grid: GridSize) -> bool {
    cell.0 == 0 || cell.0 == grid.rows - 1 || cell.1 == 0 || cell.1 == grid.cols - 1
}

/// The neighbour of `cell` in direction `dir`: 0 is up, 1 down, 2 left, 3 right.
pub open spec fn step(cell: (int, int), dir: int) -> (int, int) {
    if dir == 0 {
        (cell.0 - 1, cell.1)
    } else if dir == 1 {
        (cell.0 + 1, cell.1)
    } else if dir == 2 {
        (cell.0, cell.1 - 1)
    } else {
        (cell.0, cell.1 + 1)
    }
}

/// The name of the direction in which `other` lies as seen from `cell`:
/// rows are compared first, then columns; a cell has no direction to itself.
pub open spec fn spec_connection(cell: (int, int), other: (int, int)) -> Option<Seq<char>> {
    if other.0 < cell.0 {
        Some("up"@)
    } else if other.0 > cell.0 {
        Some("down"@)
    } else if other.1 < cell.1 {
        Some("left"@)
    } else if other.1 > cell.1 {
        Some("right"@)
    } else {
        None
    }
}

/// The row-major number of a grid cell is below the number of cells.
pub proof fn lemma_cell_number_bound(grid: GridSize, cell: (int, int))
    requires
        grid.contains(cell),
    ensures
        0 <= cell.0 * grid.cols + cell.1 < grid.rows * grid.cols,
{
    assert(0 <= cell.0 * grid.cols + cell.1 < grid.rows * grid.cols) by (nonlinear_arith)
        requires
            0 <= cell.0 < grid.rows,
            0 <= cell.1 < grid.cols,
    {
        assert((cell.0 + 1) * grid.cols <= grid.rows * grid.cols);
    }
}

/// Neither dimension of a well-formed grid exceeds the capacity.
pub proof fn lemma_grid_dims(grid: GridSize)
    requires
        grid.wf(),
    ensures
        grid.rows <= MAX_CELLS,
        grid.cols <= MAX_CELLS,
        1 <= grid.area() <= MAX_CELLS,
{
    assert(grid.rows <= grid.rows * grid.cols && grid.cols <= grid.rows * grid.cols)
        by (nonlinear_arith)
        requires
            0 < grid.rows,
            0 < grid.cols,
    ;
}

spec fn row_cells(row: int, cols: int) -> Set<(int, int)> {
    Set::new(|c: (int, int)| c.0 == row && 0 <= c.1 < cols)
}

spec fn rectangle(rows: int, cols: int) -> Set<(int, int)> {
    Set::new(|c: (int, int)| 0 <= c.0 < rows && 0 <= c.1 < cols)
}

proof fn lemma_row_count(row: int, cols: int)
    requires
        cols >= 0,
    ensures
        row_cells(row, cols).finite(),
        row_cells(row, cols).len() == cols,
    decreases cols,
{
    if cols == 0 {
        assert(row_cells(row, cols) =~= Set::<(int, int)>::empty());
    } else {
        lemma_row_count(row, cols - 1);
        assert(row_cells(row, cols) =~= row_cells(row, cols - 1).insert((row, cols - 1)));
    }
}

proof fn lemma_rectangle_count(rows: int, cols: int)
    requires
        rows >= 0,
        cols >= 0,
    ensures
        rectangle(rows, cols).finite(),
        rectangle(rows, cols).len() == rows * cols,
    decreases rows,
{
    if rows == 0 {
        assert(rectangle(rows, cols) =~= Set::<(int, int)>::empty());
        assert(rows * cols == 0) by (nonlinear_arith)
            requires
                rows == 0,
        ;
    } else {
        lemma_rectangle_count(rows - 1, cols);
        lemma_row_count(rows - 1, cols);
        let below = rectangle(rows - 1, cols);
        let last = row_cells(rows - 1, cols);
        assert(rectangle(rows, cols) =~= below.union(last));
        assert(below.disjoint(last));
        vstd::set_lib::lemma_set_disjoint_lens(below, last);
        assert((rows - 1) * cols + cols == rows * cols) by (nonlinear_arith);
    }
}

/// A grid with positive dimensions has finitely many cells, `rows * cols`
/// of them.
pub proof fn lemma_grid_cells_finite(grid: GridSize)
    requires
        0 < grid.rows,
        0 < grid.cols,
    ensures
        grid.cells().finite(),
        grid.cells().len() == grid.area(),
{
    lemma_rectangle_count(grid.rows as int, grid.cols as int);
    assert(grid.cells() =~= rectangle(grid.rows as int, grid.cols as int));
}

/// Adjacent cells are exactly the four steps from a cell.
pub proof fn lemma_adjacent_is_step(a: (int, int), b: (int, int))
    ensures
        adjacent(a, b) <==> exists|d: int| 0 <= d < 4 && b == #[trigger] step(a, d),
        adjacent(a, b) == adjacent(b, a),
{
    if adjacent(a, b) {
        if b.0 == a.0 - 1 {
            assert(b == step(a, 0));
        } else if b.0 == a.0 + 1 {
            assert(b == step(a, 1));
        } else if b.1 == a.1 - 1 {
            assert(b == step(a, 2));
        } else {
            assert(b == step(a, 3));
        }
    }
}

/// True iff `0 <= row < rows` and `0 <= col < cols`.
pub fn is_in_bounds(row: i32, col: i32, grid_size: &GridSize) -> (inside: bool)
    ensures
        inside == grid_size.contains((row as int, col as int)),
{
    row >= 0 && row < grid_size.rows && col >= 0 && col < grid_size.cols
}

/// Checkerboard parity of a cell, for any coordinates.
pub fn get_cell_parity(row: i32, col: i32) -> (parity: i32)
    ensures
        parity == spec_parity(row as int, col as int),
        parity == 0 || parity == 1,
{
    let shifted: i64 = row as i64 + col as i64 + 4294967296i64;
    (shifted % 2) as i32
}

/// Checkerboard parity of a cell, for callers that validate endpoints
/// before starting a search.
pub fn cell_parity(row: i32, col: i32) -> (parity: i32)
    ensures
        parity == spec_parity(row as int, col as int),
        parity == 0 || parity == 1,
{
    get_cell_parity(row, col)
}

/// Whether two cells have different checkerboard colours.
pub fn has_different_parity(r1: i32, c1: i32, r2: i32, c2: i32) -> (different: bool)
    ensures
        different == (spec_parity(r1 as int, c1 as int) != spec_parity(r2 as int, c2 as int)),
{
    get_cell_parity(r1, c1) != get_cell_parity(r2, c2)
}

/// Manhattan distance between two cells, where it fits the result type.
pub fn manhattan_distance(r1: i32, c1: i32, r2: i32, c2: i32) -> (distance: i32)
    requires
        spec_manhattan((r1 as int, c1 as int), (r2 as int, c2 as int)) <= i32::MAX,
    ensures
        distance == spec_manhattan((r1 as int, c1 as int), (r2 as int, c2 as int)),
{
    let dr: i64 = if r1 < r2 { r2 as i64 - r1 as i64 } else { r1 as i64 - r2 as i64 };
    let dc: i64 = if c1 < c2 { c2 as i64 - c1 as i64 } else { c1 as i64 - c2 as i64 };
    (dr + dc) as i32
}

/// Whether a cell is one of the four corners of the grid.
pub fn is_corner(row: i32, col: i32, grid_size: &GridSize) -> (corner: bool)
    ensures
        corner == spec_is_corner((row as int, col as int), *grid_size),
{
    let last_row: i64 = grid_size.rows as i64 - 1;
    let last_col: i64 = grid_size.cols as i64 - 1;
    (row == 0 || row as i64 == last_row) && (col == 0 || col as i64 == last_col)
}

/// Whether a cell lies on the boundary of the grid.
pub fn is_edge(row: i32, col: i32, grid_size: &GridSize) -> (edge: bool)
    ensures
        edge == spec_is_edge((row as int, col as int), *grid_size),
{
    let last_row: i64 = grid_size.rows as i64 - 1;
    let last_col: i64 = grid_size.cols as i64 - 1;
    row == 0 || row as i64 == last_row || col == 0 || col as i64 == last_col
}

} // verus!
