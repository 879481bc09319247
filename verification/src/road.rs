//! The path postprocessor: per-cell connection data for rendering a path.

use vstd::prelude::*;
use crate::geometry::{adjacent, spec_connection, GridSize, Point};
use crate::model::{is_partial_path, path_cells};

verus! {

/// What a cell on the path knows about its place in it: the directions
/// towards its neighbours on the path and its 0-based index.
#[derive(Debug, Clone)]
pub struct CellData {
    pub connections: Vec<String>,
    pub path_index: usize,
}

/// The direction names that a list of strings holds.
pub open spec fn connection_names(connections: Seq<String>) -> Seq<Seq<char>> {
    connections.map_values(|s: String| s@)
}

/// The direction from `cell` towards `other` as a list of at most one name.
pub open spec fn connection_towards(cell: (int, int), other: (int, int)) -> Seq<Seq<char>> {
    match spec_connection(cell, other) {
        Some(name) => seq![name],
        None => Seq::empty(),
    }
}

/// The connections of position `i` of a path: first the direction towards
/// the position before it, if there is one, then the direction towards the
/// position after it, if there is one.
pub open spec fn spec_connections(cells: Seq<(int, int)>, i: int) -> Seq<Seq<char>> {
    let back = if i > 0 {
        connection_towards(cells[i], cells[i - 1])
    } else {
        Seq::empty()
    };
    let ahead = if i < cells.len() - 1 {
        connection_towards(cells[i], cells[i + 1])
    } else {
        Seq::empty()
    };
    back + ahead
}

/// What the connection grid holds for `cell` once the first `upto`
/// positions of the path are entered: nothing if the cell is at none of
/// them, else the data of the last of them that it is at.
pub open spec fn cell_entry_matches(
    cells: Seq<(int, int)>,
    upto: int,
    cell: (int, int),
    entry: Option<CellData>,
) -> bool {
    match entry {
        None => forall|j: int| 0 <= j < upto ==> #[trigger] cells[j] != cell,
        Some(data) => {
            &&& 0 <= data.path_index < upto
            &&& cells[data.path_index as int] == cell
            &&& forall|j: int| data.path_index < j < upto ==> #[trigger] cells[j] != cell
            &&& connection_names(data.connections@) == spec_connections(
                cells,
                data.path_index as int,
            )
        },
    }
}

/// The grid has `rows` rows of `cols` entries each.
pub open spec fn has_shape(grid: Seq<Vec<Option<CellData>>>, rows: int, cols: int) -> bool {
    &&& grid.len() == rows
    &&& forall|r: int| 0 <= r < rows ==> (#[trigger] grid[r]).len() == cols
}

/// On a path of at least two cells, every cell between the endpoints has
/// exactly two connections and each endpoint has exactly one.
pub proof fn lemma_connection_counts(grid: GridSize, cells: Seq<(int, int)>, i: int)
    requires
        is_partial_path(grid, cells),
        cells.len() >= 2,
        0 <= i < cells.len(),
    ensures
        0 < i < cells.len() - 1 ==> spec_connections(cells, i).len() == 2,
        i == 0 || i == cells.len() - 1 ==> spec_connections(cells, i).len() == 1,
{
    if i > 0 {
        assert(adjacent(cells[i - 1], cells[i - 1 + 1]));
    }
    if i < cells.len() - 1 {
        assert(adjacent(cells[i], cells[i + 1]));
    }
}

/// For a path of at least two cells entered in full, the entry of a cell
/// off the path is empty, and the entry of a cell on the path holds its
/// index with two connections between the endpoints and one at each
/// endpoint.
pub proof fn lemma_entry_of_valid_path(
    grid: GridSize,
    cells: Seq<(int, int)>,
    cell: (int, int),
    entry: Option<CellData>,
)
    requires
        is_partial_path(grid, cells),
        cells.len() >= 2,
        cell_entry_matches(cells, cells.len() as int, cell, entry),
    ensures
        entry is None <==> !cells.contains(cell),
        entry matches Some(data) ==> {
            &&& 0 <= data.path_index < cells.len()
            &&& cells[data.path_index as int] == cell
            &&& forall|j: int| 0 <= j < cells.len() && cells[j] == cell ==> j == data.path_index
            &&& data.connections@.len() == if 0 < data.path_index < cells.len() - 1 {
                2int
            } else {
                1int
            }
        },
{
    match entry {
        None => {},
        Some(data) => {
            let i = data.path_index as int;
            assert(cells.contains(cells[i]));
            lemma_connection_counts(grid, cells, i);
            assert(connection_names(data.connections@).len() == data.connections@.len());
        },
    }
}

/// Converts a path into a grid of connection data: the entry of a cell on
/// the path holds its index and the directions towards the cells before
/// and after it; every other entry is empty.
pub fn path_to_road_grid_internal(path: &[Point], grid_size: &GridSize) -> (grid: Vec<
    Vec<Option<CellData>>,
>)
    requires
        0 <= grid_size.rows,
        0 <= grid_size.cols,
        forall|i: int| 0 <= i < path@.len() ==> grid_size.contains((#[trigger] path@[i])@),
    ensures
        has_shape(grid@, grid_size.rows as int, grid_size.cols as int),
        forall|r: int, c: int|
            0 <= r < grid_size.rows && 0 <= c < grid_size.cols ==> cell_entry_matches(
                path_cells(path@),
                path@.len() as int,
                (r, c),
                #[trigger] grid@[r]@[c],
            ),
{
    let rows = grid_size.rows as usize;
    let cols = grid_size.cols as usize;
    let ghost cells = path_cells(path@);
    let mut grid: Vec<Vec<Option<CellData>>> = Vec::new();
    let mut r: usize = 0;
    while r < rows
        invariant
            r <= rows,
            has_shape(grid@, r as int, cols as int),
            forall|a: int, b: int|
                0 <= a < r && 0 <= b < cols ==> (#[trigger] grid@[a]@[b]) is None,
        decreases rows - r,
    {
        let mut row: Vec<Option<CellData>> = Vec::new();
        let mut c: usize = 0;
        while c < cols
            invariant
                c <= cols,
                row.len() == c,
                forall|b: int| 0 <= b < c ==> (#[trigger] row@[b]) is None,
            decreases cols - c,
        {
            row.push(None);
            c += 1;
        }
        grid.push(row);
        r += 1;
    }

    if path.len() == 0 {
        return grid;
    }
    let mut i: usize = 0;
    while i < path.len()
        invariant
            i <= path.len(),
            rows == grid_size.rows,
            cols == grid_size.cols,
            cells == path_cells(path@),
            forall|k: int| 0 <= k < path@.len() ==> grid_size.contains((#[trigger] path@[k])@),
            has_shape(grid@, rows as int, cols as int),
            forall|a: int, b: int|
                0 <= a < rows && 0 <= b < cols ==> cell_entry_matches(
                    cells,
                    i as int,
                    (a, b),
                    #[trigger] grid@[a]@[b],
                ),
        decreases path.len() - i,
    {
        let current = path[i];
        let mut connections: Vec<String> = Vec::new();
        assert(cells[i as int] == current@);

        if i > 0 {
            let prev = path[i - 1];
            assert(cells[i - 1] == prev@);
            if prev.row < current.row {
                connections.push("up".to_string());
            } else if prev.row > current.row {
                connections.push("down".to_string());
            } else if prev.col < current.col {
                connections.push("left".to_string());
            } else if prev.col > current.col {
                connections.push("right".to_string());
            }
        }
        let ghost back = connection_names(connections@);
        assert(back =~= if i > 0 {
            connection_towards(cells[i as int], cells[i - 1])
        } else {
            Seq::empty()
        });

        if i < path.len() - 1 {
            let next = path[i + 1];
            assert(cells[i + 1] == next@);
            if next.row < current.row {
                connections.push("up".to_string());
            } else if next.row > current.row {
                connections.push("down".to_string());
            } else if next.col < current.col {
                connections.push("left".to_string());
            } else if next.col > current.col {
                connections.push("right".to_string());
            }
        }
        assert(connection_names(connections@) =~= spec_connections(cells, i as int));

        assert(grid_size.contains(path@[i as int]@));
        let ghost before = grid@;
        let ri = current.row as usize;
        let ci = current.col as usize;
        let data = CellData { connections, path_index: i };
        grid[ri][ci] = Some(data);
        proof {
            assert forall|a: int, b: int| 0 <= a < rows && 0 <= b < cols implies cell_entry_matches(
                cells,
                i + 1,
                (a, b),
                #[trigger] grid@[a]@[b],
            ) by {
                if a == ri && b == ci {
                } else {
                    assert(grid@[a]@[b] == before[a]@[b]);
                    assert(cell_entry_matches(cells, i as int, (a, b), before[a]@[b]));
                }
            }
        }
        i += 1;
    }
    grid
}

/// Converts a path into a grid of connection data, for a grid given by
/// its dimensions.
pub fn path_to_road_grid(path: &[Point], grid_rows: i32, grid_cols: i32) -> (grid: Vec<
    Vec<Option<CellData>>,
>)
    requires
        0 <= grid_rows,
        0 <= grid_cols,
        forall|i: int|
            0 <= i < path@.len() ==> (GridSize { rows: grid_rows, cols: grid_cols }).contains(
                (#[trigger] path@[i])@,
            ),
    ensures
        has_shape(grid@, grid_rows as int, grid_cols as int),
        forall|r: int, c: int|
            0 <= r < grid_rows && 0 <= c < grid_cols ==> cell_entry_matches(
                path_cells(path@),
                path@.len() as int,
                (r, c),
                #[trigger] grid@[r]@[c],
            ),
{
    let grid_size = GridSize { rows: grid_rows, cols: grid_cols };
    path_to_road_grid_internal(path, &grid_size)
}

} // verus!
