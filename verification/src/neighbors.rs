//! The unvisited neighbours of a cell, in a fixed order of directions.

use vstd::prelude::*;
use crate::bitset::VisitedBitset;
use crate::geometry::{
    adjacent, is_in_bounds, lemma_adjacent_is_step, lemma_cell_number_bound, spec_connection,
    step, GridSize,
};

verus! {

/// A cell of the grid that is not yet visited.
pub open spec fn is_free(grid: GridSize, visited: Set<(int, int)>, cell: (int, int)) -> bool {
    grid.contains(cell) && !visited.contains(cell)
}

/// The free neighbours of `cell` in the first `dirs` directions, in the
/// order up, down, left, right.
pub open spec fn free_neighbors_upto(
    cell: (int, int),
    grid: GridSize,
    visited: Set<(int, int)>,
    dirs: int,
) -> Seq<(int, int)>
    decreases dirs,
{
    if dirs <= 0 {
        Seq::empty()
    } else {
        let before = free_neighbors_upto(cell, grid, visited, dirs - 1);
        if is_free(grid, visited, step(cell, dirs - 1)) {
            before.push(step(cell, dirs - 1))
        } else {
            before
        }
    }
}

/// The free neighbours of `cell`, in the order up, down, left, right.
pub open spec fn free_neighbors(cell: (int, int), grid: GridSize, visited: Set<(int, int)>) -> Seq<
    (int, int),
> {
    free_neighbors_upto(cell, grid, visited, 4)
}

/// The cell that a neighbour entry names.
pub open spec fn entry_cell(entry: (i32, i32, &'static str)) -> (int, int) {
    (entry.0 as int, entry.1 as int)
}

/// The cells that a list of neighbour entries names, in order.
pub open spec fn entry_cells(entries: Seq<(i32, i32, &'static str)>) -> Seq<(int, int)> {
    entries.map_values(|e: (i32, i32, &'static str)| entry_cell(e))
}

/// The free neighbours of a cell are free, adjacent to it, pairwise
/// distinct, and every free adjacent cell is among them.
pub proof fn lemma_free_neighbors(cell: (int, int), grid: GridSize, visited: Set<(int, int)>)
    ensures
        free_neighbors(cell, grid, visited).len() <= 4,
        forall|i: int|
            0 <= i < free_neighbors(cell, grid, visited).len() ==> {
                let n = #[trigger] free_neighbors(cell, grid, visited)[i];
                is_free(grid, visited, n) && adjacent(cell, n)
            },
        forall|i: int, j: int|
            0 <= i < j < free_neighbors(cell, grid, visited).len() ==> free_neighbors(
                cell,
                grid,
                visited,
            )[i] != free_neighbors(cell, grid, visited)[j],
        forall|n: (int, int)|
            is_free(grid, visited, n) && adjacent(cell, n)
                ==> free_neighbors(cell, grid, visited).contains(n),
{
    reveal_with_fuel(free_neighbors_upto, 5);
    let s0 = free_neighbors_upto(cell, grid, visited, 0);
    let s1 = free_neighbors_upto(cell, grid, visited, 1);
    let s2 = free_neighbors_upto(cell, grid, visited, 2);
    let s3 = free_neighbors_upto(cell, grid, visited, 3);
    let s4 = free_neighbors_upto(cell, grid, visited, 4);
    assert(s0.len() == 0);
    assert forall|k: int| 0 <= k <= 4 implies {
        let s = #[trigger] free_neighbors_upto(cell, grid, visited, k);
        &&& s.len() <= k
        &&& forall|i: int|
            0 <= i < s.len() ==> exists|d: int| 0 <= d < k && #[trigger] s[i] == step(cell, d)
        &&& forall|i: int| 0 <= i < s.len() ==> is_free(grid, visited, #[trigger] s[i])
        &&& forall|i: int, j: int| 0 <= i < j < s.len() ==> s[i] != s[j]
        &&& forall|d: int|
            0 <= d < k && is_free(grid, visited, step(cell, d)) ==> s.contains(
                #[trigger] step(cell, d),
            )
    } by {
        lemma_free_neighbors_upto(cell, grid, visited, k);
    }
    assert forall|n: (int, int)|
        is_free(grid, visited, n) && adjacent(cell, n) implies s4.contains(
        n,
    ) by {
        lemma_adjacent_is_step(cell, n);
        let d = choose|d: int| 0 <= d < 4 && n == #[trigger] step(cell, d);
        assert(s4.contains(step(cell, d)));
    }
    assert forall|i: int| 0 <= i < s4.len() implies {
        let n = #[trigger] s4[i];
        is_free(grid, visited, n) && adjacent(cell, n)
    } by {
        let d = choose|d: int| 0 <= d < 4 && s4[i] == step(cell, d);
        lemma_adjacent_is_step(cell, s4[i]);
        assert(s4[i] == step(cell, d));
    }
}

proof fn lemma_free_neighbors_upto(
    cell: (int, int),
    grid: GridSize,
    visited: Set<(int, int)>,
    k: int,
)
    requires
        0 <= k <= 4,
    ensures
        ({
            let s = free_neighbors_upto(cell, grid, visited, k);
            &&& s.len() <= k
            &&& forall|i: int|
                0 <= i < s.len() ==> exists|d: int| 0 <= d < k && #[trigger] s[i] == step(cell, d)
            &&& forall|i: int| 0 <= i < s.len() ==> is_free(grid, visited, #[trigger] s[i])
            &&& forall|i: int, j: int| 0 <= i < j < s.len() ==> s[i] != s[j]
            &&& forall|d: int|
                0 <= d < k && is_free(grid, visited, step(cell, d)) ==> s.contains(
                    #[trigger] step(cell, d),
                )
        }),
    decreases k,
{
    if k > 0 {
        lemma_free_neighbors_upto(cell, grid, visited, k - 1);
        let before = free_neighbors_upto(cell, grid, visited, k - 1);
        let s = free_neighbors_upto(cell, grid, visited, k);
        let n = step(cell, k - 1);
        if is_free(grid, visited, n) {
            assert(s == before.push(n));
            assert forall|i: int| 0 <= i < s.len() implies exists|d: int|
                0 <= d < k && #[trigger] s[i] == step(cell, d) by {
                if i < before.len() {
                    let d = choose|d: int| 0 <= d < k - 1 && before[i] == step(cell, d);
                    assert(s[i] == step(cell, d));
                } else {
                    assert(s[i] == step(cell, k - 1));
                }
            }
            assert forall|i: int, j: int| 0 <= i < j < s.len() implies s[i] != s[j] by {
                if j == before.len() {
                    let d = choose|d: int| 0 <= d < k - 1 && before[i] == step(cell, d);
                    assert(step(cell, d) != step(cell, k - 1));
                }
            }
            assert forall|d: int|
                0 <= d < k && is_free(grid, visited, step(cell, d)) implies s.contains(
                #[trigger] step(cell, d),
            ) by {
                if d < k - 1 {
                    assert(before.contains(step(cell, d)));
                    let i = choose|i: int| 0 <= i < before.len() && before[i] == step(cell, d);
                    assert(s[i] == step(cell, d));
                } else {
                    assert(s[before.len() as int] == n);
                }
            }
        } else {
            assert(s == before);
            assert forall|i: int| 0 <= i < s.len() implies exists|d: int|
                0 <= d < k && #[trigger] s[i] == step(cell, d) by {
                let d = choose|d: int| 0 <= d < k - 1 && before[i] == step(cell, d);
                assert(s[i] == step(cell, d));
            }
        }
    }
}

/// The step and the name of the direction with the given number.
pub fn direction(index: usize) -> (d: (i32, i32, &'static str))
    requires
        index < 4,
    ensures
        (d.0 as int, d.1 as int) == step((0, 0), index as int),
        forall|cell: (int, int)|
            spec_connection(cell, #[trigger] step(cell, index as int)) == Some(d.2@),
{
    if index == 0 {
        (-1, 0, "up")
    } else if index == 1 {
        (1, 0, "down")
    } else if index == 2 {
        (0, -1, "left")
    } else {
        (0, 1, "right")
    }
}

/// The unvisited neighbours of a cell in the order up, down, left, right,
/// each with the name of the direction it lies in.
pub fn get_unvisited_neighbors(
    row: i32,
    col: i32,
    grid_size: &GridSize,
    visited: &VisitedBitset,
) -> (neighbors: Vec<(i32, i32, &'static str)>)
    requires
        grid_size.wf(),
        grid_size.contains((row as int, col as int)),
        visited.width() == grid_size.cols,
    ensures
        entry_cells(neighbors@) == free_neighbors((row as int, col as int), *grid_size, visited@),
        forall|i: int|
            0 <= i < neighbors.len() ==> spec_connection(
                (row as int, col as int),
                entry_cell(#[trigger] neighbors[i]),
            ) == Some(neighbors[i].2@),
{
    let mut neighbors: Vec<(i32, i32, &'static str)> = Vec::with_capacity(4);
    let ghost cell = (row as int, col as int);
    let mut k: usize = 0;
    while k < 4
        invariant
            k <= 4,
            grid_size.wf(),
            grid_size.contains(cell),
            cell == (row as int, col as int),
            visited.width() == grid_size.cols,
            entry_cells(neighbors@) == free_neighbors_upto(cell, *grid_size, visited@, k as int),
            forall|i: int|
                0 <= i < neighbors.len() ==> spec_connection(
                    cell,
                    entry_cell(#[trigger] neighbors[i]),
                ) == Some(neighbors[i].2@),
        decreases 4 - k,
    {
        let (dr, dc, dir) = direction(k);
        let nr = row + dr;
        let nc = col + dc;
        assert(step(cell, k as int) == (nr as int, nc as int));
        let mut free = false;
        if is_in_bounds(nr, nc, grid_size) {
            proof {
                lemma_cell_number_bound(*grid_size, (nr as int, nc as int));
            }
            free = !visited.get(nr, nc);
        }
        proof {
            visited.lemma_members_addressable();
        }
        if free {
            let ghost before = neighbors@;
            neighbors.push((nr, nc, dir));
            assert(entry_cells(neighbors@) =~= entry_cells(before).push((nr as int, nc as int)));
        }
        k += 1;
    }
    neighbors
}

/// The number of unvisited neighbours of a cell.
pub fn count_unvisited_neighbors(
    row: i32,
    col: i32,
    grid_size: &GridSize,
    visited: &VisitedBitset,
) -> (count: u8)
    requires
        grid_size.wf(),
        grid_size.contains((row as int, col as int)),
        visited.width() == grid_size.cols,
    ensures
        count == free_neighbors((row as int, col as int), *grid_size, visited@).len(),
        count <= 4,
{
    let mut count: u8 = 0;
    let ghost cell = (row as int, col as int);
    let mut k: usize = 0;
    while k < 4
        invariant
            k <= 4,
            grid_size.wf(),
            grid_size.contains(cell),
            cell == (row as int, col as int),
            visited.width() == grid_size.cols,
            count == free_neighbors_upto(cell, *grid_size, visited@, k as int).len(),
            count <= k,
        decreases 4 - k,
    {
        let (dr, dc, _) = direction(k);
        let nr = row + dr;
        let nc = col + dc;
        assert(step(cell, k as int) == (nr as int, nc as int));
        let mut free = false;
        if is_in_bounds(nr, nc, grid_size) {
            proof {
                lemma_cell_number_bound(*grid_size, (nr as int, nc as int));
            }
            free = !visited.get(nr, nc);
        }
        if free {
            count += 1;
        }
        k += 1;
    }
    count
}

} // verus!
