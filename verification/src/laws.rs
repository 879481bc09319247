//! Laws of the search: what holds of its result for every request.

use vstd::prelude::*;
use crate::completeness::{lemma_hamiltonian_path_needs_parity, lemma_search_from_complete};
use crate::geometry::{lemma_grid_dims, spec_parity, GridSize};
use crate::model::{
    budget_cap, completes, is_hamiltonian_path, lemma_even_area, lemma_search_from_sound,
    lemma_search_visits_each_cell, lemma_search_visits_node, search_state, spec_find_path,
};

verus! {

/// On a grid with an even number of cells, a request whose endpoints have
/// the same colour fails without a single iteration.
pub proof fn lemma_even_grid_same_parity_fails(
    start: (int, int),
    end: (int, int),
    grid: GridSize,
    max_iterations: u32,
)
    requires
        grid.area() % 2 == 0,
        spec_parity(start.0, start.1) == spec_parity(end.0, end.1),
    ensures
        !spec_find_path(start, end, grid, max_iterations).found,
        spec_find_path(start, end, grid, max_iterations).iterations == 0,
        spec_find_path(start, end, grid, max_iterations).path.len() == 0,
{
    lemma_even_area(grid);
}

/// On a grid with an odd number of cells, a request whose endpoints have
/// different colours fails without a single iteration.
pub proof fn lemma_odd_grid_different_parity_fails(
    start: (int, int),
    end: (int, int),
    grid: GridSize,
    max_iterations: u32,
)
    requires
        grid.area() % 2 != 0,
        spec_parity(start.0, start.1) != spec_parity(end.0, end.1),
    ensures
        !spec_find_path(start, end, grid, max_iterations).found,
        spec_find_path(start, end, grid, max_iterations).iterations == 0,
        spec_find_path(start, end, grid, max_iterations).path.len() == 0,
{
    lemma_even_area(grid);
}

/// A request with equal endpoints fails without a single iteration,
/// whatever the budget.
pub proof fn lemma_equal_endpoints_fail(cell: (int, int), grid: GridSize, max_iterations: u32)
    ensures
        !spec_find_path(cell, cell, grid, max_iterations).found,
        spec_find_path(cell, cell, grid, max_iterations).iterations == 0,
{
}

/// Whenever a path is found, it has exactly as many cells as the grid,
/// starts at `start`, ends at `end`, holds no cell twice, and each of its
/// cells is adjacent to the next.
pub proof fn lemma_found_path_is_hamiltonian(
    start: (int, int),
    end: (int, int),
    grid: GridSize,
    max_iterations: u32,
)
    requires
        grid.wf(),
        grid.contains(start),
        grid.contains(end),
    ensures
        spec_find_path(start, end, grid, max_iterations).found ==> is_hamiltonian_path(
            grid,
            start,
            end,
            spec_find_path(start, end, grid, max_iterations).path,
        ),
{
    if spec_find_path(start, end, grid, max_iterations).found {
        let cells = seq![start];
        let visited = Set::<(int, int)>::empty().insert(start);
        let unvisited = (grid.area() - 1) as nat;
        lemma_grid_dims(grid);
        assert(search_state(grid, end, visited, cells, unvisited as int)) by {
            reveal(search_state);
            assert forall|c: (int, int)| visited.contains(c) <==> cells.contains(c) by {
                if c == start {
                    assert(cells[0] == c);
                }
            }
        }
        lemma_search_from_sound(grid, end, visited, cells, unvisited);
        reveal(completes);
    }
}

/// The number of iterations never decreases when the budget is raised,
/// and a request that succeeds under one budget succeeds under every
/// larger one, with the same path and the same number of iterations.
pub proof fn lemma_iterations_monotonic(
    start: (int, int),
    end: (int, int),
    grid: GridSize,
    smaller: u32,
    larger: u32,
)
    requires
        smaller <= larger,
    ensures
        spec_find_path(start, end, grid, smaller).iterations <= spec_find_path(
            start,
            end,
            grid,
            larger,
        ).iterations,
        spec_find_path(start, end, grid, smaller).found ==> spec_find_path(
            start,
            end,
            grid,
            larger,
        ) == spec_find_path(start, end, grid, smaller),
{
}

/// The number of iterations never exceeds the budget by more than one.
pub proof fn lemma_iterations_within_budget(
    start: (int, int),
    end: (int, int),
    grid: GridSize,
    max_iterations: u32,
)
    ensures
        0 <= spec_find_path(start, end, grid, max_iterations).iterations <= budget_cap(
            max_iterations,
        ),
        budget_cap(max_iterations) <= max_iterations + 1,
{
}

/// A path is only ever found within the budget.
pub proof fn lemma_found_within_budget(
    start: (int, int),
    end: (int, int),
    grid: GridSize,
    max_iterations: u32,
)
    ensures
        spec_find_path(start, end, grid, max_iterations).found ==> 1 <= spec_find_path(
            start,
            end,
            grid,
            max_iterations,
        ).iterations <= max_iterations,
{
    if spec_find_path(start, end, grid, max_iterations).found {
        lemma_search_visits_node(
            grid,
            end,
            Set::<(int, int)>::empty().insert(start),
            start,
            (grid.area() - 1) as nat,
        );
    }
}

/// A search that finds a path has visited at least one node for each cell
/// of the path.
pub proof fn lemma_found_visits_every_cell(
    start: (int, int),
    end: (int, int),
    grid: GridSize,
    max_iterations: u32,
)
    ensures
        spec_find_path(start, end, grid, max_iterations).found ==> spec_find_path(
            start,
            end,
            grid,
            max_iterations,
        ).iterations >= spec_find_path(start, end, grid, max_iterations).path.len(),
{
    lemma_search_visits_each_cell(
        grid,
        end,
        Set::<(int, int)>::empty().insert(start),
        start,
        (grid.area() - 1) as nat,
    );
}

/// A search between different endpoints that fails before its counter
/// reaches the cap has tried everything: no Hamiltonian path exists.
pub proof fn lemma_failure_before_cap_means_no_path(
    start: (int, int),
    end: (int, int),
    grid: GridSize,
    max_iterations: u32,
    path: Seq<(int, int)>,
)
    requires
        grid.wf(),
        grid.contains(start),
        grid.contains(end),
        start != end,
        !spec_find_path(start, end, grid, max_iterations).found,
        spec_find_path(start, end, grid, max_iterations).iterations < budget_cap(max_iterations),
    ensures
        !is_hamiltonian_path(grid, start, end, path),
{
    if is_hamiltonian_path(grid, start, end, path) {
        lemma_hamiltonian_path_needs_parity(grid, start, end, path);
        let cells = seq![start];
        let visited = Set::<(int, int)>::empty().insert(start);
        let unvisited = (grid.area() - 1) as nat;
        lemma_grid_dims(grid);
        assert(search_state(grid, end, visited, cells, unvisited as int)) by {
            reveal(search_state);
            assert forall|c: (int, int)| visited.contains(c) <==> cells.contains(c) by {
                if c == start {
                    assert(cells[0] == c);
                }
            }
        }
        assert(completes(grid, cells, end, path.skip(1))) by {
            reveal(completes);
            assert(cells + path.skip(1) =~= path);
        }
        lemma_search_from_complete(grid, end, visited, cells, unvisited, path.skip(1));
    }
}

} // verus!
