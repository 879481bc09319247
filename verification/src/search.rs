//! The search engine: a depth-first backtracking search for a Hamiltonian
//! path between two cells, bounded by an iteration budget.

use vstd::prelude::*;
use crate::bitset::VisitedBitset;
use crate::connectivity::{is_likely_articulation_point, is_remaining_connected};
use crate::geometry::{
    get_cell_parity, is_in_bounds, lemma_cell_number_bound, lemma_grid_dims, GridSize, Point,
    MAX_CELLS,
};
use crate::model::{
    budget_cap, completes, is_hamiltonian_path, lemma_even_area, lemma_search_from_sound,
    lemma_search_visits_each_cell, lemma_search_visits_node, lemma_state_extends,
    parity_feasible, path_cells, search_from, search_state, spec_find_path, spec_pruned,
    try_candidates, Outcome,
};
use crate::neighbors::{entry_cell, entry_cells, get_unvisited_neighbors, lemma_free_neighbors};
use crate::ranking::{lemma_ranking_of_cells, ranked_neighbors, sort_by_warnsdorff};

verus! {

/// What a search reports: whether a path was found, the path (empty if
/// none was found), and the number of search nodes visited.
#[derive(Debug, Clone)]
pub struct PathResult {
    pub found: bool,
    pub path: Vec<Point>,
    pub iterations: u32,
}

/// How far the loop over a node's candidates has come. `whole` is what
/// the search without budget does over all candidates and `suffix` what it
/// does over those still to try; `before` is the counter when the node was
/// entered and `now` its present value. Either the counter has followed
/// the search without budget exactly and no path was found so far, or the
/// counter stands at its cap and that search needs more visits than the
/// budget allows.
#[verifier::opaque]
pub open spec fn candidates_progress(
    whole: Outcome,
    suffix: Outcome,
    before: int,
    now: int,
    max_iterations: u32,
) -> bool {
    ||| {
        &&& whole.found == suffix.found
        &&& whole.tail == suffix.tail
        &&& now + suffix.visits == before + 1 + whole.visits
        &&& now <= budget_cap(max_iterations)
    }
    ||| {
        &&& now == budget_cap(max_iterations)
        &&& before + 1 + whole.visits > max_iterations
    }
}

proof fn lemma_progress_pruned(
    grid: GridSize,
    target: (int, int),
    visited: Set<(int, int)>,
    candidates: Seq<(int, int)>,
    unvisited: nat,
    index: int,
    whole: Outcome,
    before: int,
    now: int,
    max_iterations: u32,
)
    requires
        unvisited > 0,
        0 <= index < candidates.len(),
        spec_pruned(
            candidates[index],
            target,
            grid,
            visited.insert(candidates[index]),
            unvisited - 1,
        ),
        candidates_progress(
            whole,
            try_candidates(grid, target, visited, candidates, unvisited, index),
            before,
            now,
            max_iterations,
        ),
    ensures
        candidates_progress(
            whole,
            try_candidates(grid, target, visited, candidates, unvisited, index + 1),
            before,
            now,
            max_iterations,
        ),
{
    reveal(candidates_progress);
}

proof fn lemma_progress_tried(
    grid: GridSize,
    target: (int, int),
    visited: Set<(int, int)>,
    candidates: Seq<(int, int)>,
    unvisited: nat,
    index: int,
    whole: Outcome,
    before: int,
    at_call: int,
    after: int,
    child_found: bool,
    max_iterations: u32,
)
    requires
        unvisited > 0,
        0 <= index < candidates.len(),
        !spec_pruned(
            candidates[index],
            target,
            grid,
            visited.insert(candidates[index]),
            unvisited - 1,
        ),
        candidates_progress(
            whole,
            try_candidates(grid, target, visited, candidates, unvisited, index),
            before,
            at_call,
            max_iterations,
        ),
        ({
            let below = search_from(
                grid,
                target,
                visited.insert(candidates[index]),
                candidates[index],
                (unvisited - 1) as nat,
            );
            let cap = budget_cap(max_iterations);
            &&& below.visits >= 1
            &&& after == if at_call + below.visits <= cap { at_call + below.visits } else { cap }
            &&& child_found == (below.found && at_call + below.visits <= max_iterations)
        }),
    ensures
        ({
            let below = search_from(
                grid,
                target,
                visited.insert(candidates[index]),
                candidates[index],
                (unvisited - 1) as nat,
            );
            &&& child_found ==> whole.found && whole.tail == seq![candidates[index]] + below.tail
                && after == before + 1 + whole.visits && after <= max_iterations
            &&& !child_found ==> candidates_progress(
                whole,
                try_candidates(grid, target, visited, candidates, unvisited, index + 1),
                before,
                after,
                max_iterations,
            )
        }),
{
    reveal(candidates_progress);
}

proof fn lemma_progress_start(
    grid: GridSize,
    target: (int, int),
    visited: Set<(int, int)>,
    candidates: Seq<(int, int)>,
    unvisited: nat,
    before: int,
    max_iterations: u32,
)
    requires
        before + 1 <= budget_cap(max_iterations),
    ensures
        candidates_progress(
            try_candidates(grid, target, visited, candidates, unvisited, 0),
            try_candidates(grid, target, visited, candidates, unvisited, 0),
            before,
            before + 1,
            max_iterations,
        ),
{
    reveal(candidates_progress);
}

proof fn lemma_progress_end(
    grid: GridSize,
    target: (int, int),
    visited: Set<(int, int)>,
    candidates: Seq<(int, int)>,
    unvisited: nat,
    whole: Outcome,
    before: int,
    now: int,
    max_iterations: u32,
)
    requires
        candidates_progress(
            whole,
            try_candidates(grid, target, visited, candidates, unvisited, candidates.len() as int),
            before,
            now,
            max_iterations,
        ),
    ensures
        now == if before + 1 + whole.visits <= budget_cap(max_iterations) {
            before + 1 + whole.visits
        } else {
            budget_cap(max_iterations)
        },
        !(whole.found && before + 1 + whole.visits <= max_iterations),
{
    reveal(candidates_progress);
}

/// One node of the search: counts the visit, tests for success and for
/// reaching the target too early, and otherwise tries the unvisited
/// neighbours of the path's last cell in ranked order, undoing each move
/// that does not lead to a path.
///
/// A visit is counted before anything else; a visit whose count exceeds
/// the budget does nothing more, so success is only ever recorded on a
/// visit within the budget. The counter stops at its cap, the first count
/// beyond the budget: a node entered with the counter at the cap changes
/// nothing. On success the path and the visited set are left
/// as the search reached them and the path is copied to `result_path`;
/// otherwise path, visited set and `result_path` are as they were.
pub fn backtrack(
    path: &mut Vec<Point>,
    end: &Point,
    grid_size: &GridSize,
    visited: &mut VisitedBitset,
    unvisited_count: usize,
    max_iterations: u32,
    iterations: &mut u32,
    found: &mut bool,
    result_path: &mut Vec<Point>,
)
    requires
        search_state(
            *grid_size,
            end@,
            old(visited)@,
            path_cells(old(path)@),
            unvisited_count as int,
        ),
        old(path).len() > 0,
        old(visited).width() == grid_size.cols,
        !*old(found),
        *old(iterations) <= budget_cap(max_iterations),
    ensures
        ({
            let run = search_from(
                *grid_size,
                end@,
                old(visited)@,
                old(path)@.last()@,
                unvisited_count as nat,
            );
            let total = *old(iterations) + run.visits;
            let cap = budget_cap(max_iterations);
            &&& *final(iterations) == if total <= cap { total } else { cap }
            &&& *final(found) == (run.found && total <= max_iterations)
            &&& *final(found) ==> path_cells(final(path)@) == path_cells(old(path)@) + run.tail
                && final(result_path)@ == final(path)@ && search_state(
                *grid_size,
                end@,
                final(visited)@,
                path_cells(final(path)@),
                0,
            )
            &&& !*final(found) ==> final(path)@ == old(path)@ && final(visited)@ == old(visited)@
                && final(result_path)@ == old(result_path)@
        }),
        final(visited).width() == old(visited).width(),
    decreases unvisited_count,
{
    if *found || *iterations > max_iterations || *iterations == u32::MAX {
        proof {
            lemma_search_visits_node(
                *grid_size,
                end@,
                visited@,
                path@.last()@,
                unvisited_count as nat,
            );
        }
        return ;
    }
    *iterations += 1;
    if *iterations > max_iterations {
        proof {
            lemma_search_visits_node(
                *grid_size,
                end@,
                visited@,
                path@.last()@,
                unvisited_count as nat,
            );
        }
        return ;
    }

    let current = path[path.len() - 1];
    let ghost grid = *grid_size;
    let ghost target = end@;
    let ghost entry_cells_of_path = path_cells(path@);
    let ghost entry_path = path@;
    let ghost entry_visited = visited@;
    let ghost entry_result = result_path@;
    let ghost before = *old(iterations) as int;
    let ghost cap = budget_cap(max_iterations);
    let ghost remaining_cells = unvisited_count as nat;
    assert(entry_cells_of_path.last() == current@);

    if unvisited_count == 0 {
        if current == *end {
            *found = true;
            *result_path = path.clone();
            assert(result_path@ =~= path@);
            assert(path_cells(path@) + Seq::<(int, int)>::empty() =~= path_cells(path@));
        }
        return ;
    }
    if current == *end {
        return ;
    }
    proof {
        reveal(search_state);
        assert(grid.contains(entry_cells_of_path[entry_cells_of_path.len() - 1]));
    }

    let mut neighbors = get_unvisited_neighbors(current.row, current.col, grid_size, visited);
    proof {
        lemma_free_neighbors(current@, grid, entry_visited);
        assert forall|i: int| 0 <= i < neighbors.len() implies grid.contains(
            entry_cell(#[trigger] neighbors[i]),
        ) by {
            assert(entry_cells(neighbors@)[i] == entry_cell(neighbors[i]));
        }
        lemma_ranking_of_cells(neighbors@, target, grid, entry_visited, unvisited_count as int);
        reveal(ranked_neighbors);
    }
    sort_by_warnsdorff(&mut neighbors, end, grid_size, visited, unvisited_count);
    let ghost candidates = ranked_neighbors(
        current@,
        target,
        grid,
        entry_visited,
        unvisited_count as int,
    );
    let ghost whole = try_candidates(grid, target, entry_visited, candidates, remaining_cells, 0);
    assert(entry_cells(neighbors@) == candidates);
    proof {
        lemma_progress_start(
            grid,
            target,
            entry_visited,
            candidates,
            remaining_cells,
            before,
            max_iterations,
        );
    }

    let mut idx: usize = 0;
    while idx < neighbors.len()
        invariant
            idx <= neighbors.len(),
            grid == *grid_size,
            grid.wf(),
            grid.contains(target),
            target == end@,
            cap == budget_cap(max_iterations),
            unvisited_count > 0,
            remaining_cells == unvisited_count,
            entry_cells_of_path == path_cells(entry_path),
            entry_cells_of_path.last() == current@,
            search_state(grid, target, entry_visited, entry_cells_of_path, unvisited_count as int),
            candidates == ranked_neighbors(
                current@,
                target,
                grid,
                entry_visited,
                unvisited_count as int,
            ),
            entry_cells(neighbors@) == candidates,
            whole == try_candidates(grid, target, entry_visited, candidates, remaining_cells, 0),
            path@ == entry_path,
            path.len() > 0,
            visited@ == entry_visited,
            visited.width() == grid.cols,
            result_path@ == entry_result,
            old(path)@ == entry_path,
            old(visited)@ == entry_visited,
            old(visited).width() == grid.cols,
            old(result_path)@ == entry_result,
            *old(iterations) == before,
            entry_path.len() > 0,
            entry_path.last() == current,
            current@ != target,
            !*found,
            *iterations <= cap,
            candidates_progress(
                whole,
                try_candidates(
                    grid,
                    target,
                    entry_visited,
                    candidates,
                    remaining_cells,
                    idx as int,
                ),
                before,
                *iterations as int,
                max_iterations,
            ),
        decreases neighbors.len() - idx,
    {
        let (nr, nc, _) = neighbors[idx];
        let ghost candidate = (nr as int, nc as int);
        let ghost marked = entry_visited.insert(candidate);
        let ghost longer = entry_cells_of_path.push(candidate);
        let ghost at_call = *iterations as int;
        proof {
            assert(candidates[idx as int] == entry_cell(neighbors[idx as int]));
            lemma_state_extends(
                grid,
                target,
                entry_visited,
                entry_cells_of_path,
                unvisited_count as int,
                idx as int,
            );
            lemma_cell_number_bound(grid, candidate);
        }
        let is_endpoint = nr == end.row && nc == end.col;

        visited.set(nr, nc);
        let new_unvisited = unvisited_count - 1;

        let should_check_connectivity = !is_endpoint && new_unvisited > 2
            && is_likely_articulation_point(nr, nc, grid_size, visited);
        let cut_off = should_check_connectivity && !is_remaining_connected(
            grid_size,
            visited,
            new_unvisited,
        );
        assert(cut_off == spec_pruned(candidate, target, grid, marked, new_unvisited as int)) by {
            reveal(spec_pruned);
        }

        if cut_off {
            visited.clear(nr, nc);
            assert(visited@ =~= entry_visited);
            proof {
                lemma_progress_pruned(
                    grid,
                    target,
                    entry_visited,
                    candidates,
                    remaining_cells,
                    idx as int,
                    whole,
                    before,
                    at_call,
                    max_iterations,
                );
            }
        } else {
            path.push(Point { row: nr, col: nc });
            assert(path_cells(path@) =~= longer);
            let ghost below = search_from(grid, target, marked, candidate, new_unvisited as nat);
            proof {
                lemma_search_visits_node(grid, target, marked, candidate, new_unvisited as nat);
            }

            backtrack(
                path,
                end,
                grid_size,
                visited,
                new_unvisited,
                max_iterations,
                iterations,
                found,
                result_path,
            );
            proof {
                lemma_progress_tried(
                    grid,
                    target,
                    entry_visited,
                    candidates,
                    remaining_cells,
                    idx as int,
                    whole,
                    before,
                    at_call,
                    *iterations as int,
                    *found,
                    max_iterations,
                );
            }

            if *found {
                proof {
                    assert(longer + below.tail =~= entry_cells_of_path + (seq![candidate]
                        + below.tail));
                }
                return ;
            }
            path.pop();
            visited.clear(nr, nc);
            assert(visited@ =~= entry_visited);
            assert(path@ =~= entry_path);
        }
        idx += 1;
    }
    proof {
        assert(entry_cells(neighbors@).len() == neighbors.len());
        lemma_progress_end(
            grid,
            target,
            entry_visited,
            candidates,
            remaining_cells,
            whole,
            before,
            *iterations as int,
            max_iterations,
        );
    }
}

/// Searches for a Hamiltonian path from `start` to `end` on the grid,
/// visiting at most as many search nodes as the budget allows.
///
/// Requests with equal endpoints or with endpoint colours that rule a path
/// out fail at once, with zero iterations. A search that would need more
/// visits than the budget fails with one visit more than the budget
/// counted. A returned path visits every cell exactly once, starts at
/// `start`, ends at `end` and moves only between adjacent cells.
pub fn find_hamiltonian_path_internal(
    start: Point,
    end: Point,
    grid_size: GridSize,
    max_iterations: u32,
) -> (result: PathResult)
    requires
        grid_size.wf(),
        grid_size.contains(start@),
        grid_size.contains(end@),
    ensures
        result.found == spec_find_path(start@, end@, grid_size, max_iterations).found,
        path_cells(result.path@) == spec_find_path(start@, end@, grid_size, max_iterations).path,
        result.iterations == spec_find_path(start@, end@, grid_size, max_iterations).iterations,
        result.found ==> is_hamiltonian_path(grid_size, start@, end@, path_cells(result.path@)),
        result.found ==> grid_size.area() <= result.iterations <= max_iterations,
        result.iterations <= max_iterations + 1,
        !result.found ==> result.path@.len() == 0,
        start@ == end@ || !parity_feasible(start@, end@, grid_size) ==> !result.found
            && result.iterations == 0,
{
    if start == end {
        return PathResult { found: false, path: Vec::new(), iterations: 0 };
    }
    proof {
        lemma_grid_dims(grid_size);
        lemma_even_area(grid_size);
    }
    let total_cells = (grid_size.rows * grid_size.cols) as usize;

    let start_parity = get_cell_parity(start.row, start.col);
    let end_parity = get_cell_parity(end.row, end.col);
    let is_even_grid = total_cells % 2 == 0;

    if is_even_grid && start_parity == end_parity {
        return PathResult { found: false, path: Vec::new(), iterations: 0 };
    }
    if !is_even_grid && start_parity != end_parity {
        return PathResult { found: false, path: Vec::new(), iterations: 0 };
    }
    let mut visited = VisitedBitset::new(grid_size.cols as usize);
    let mut result_path: Vec<Point> = Vec::new();
    let mut found = false;
    let mut iterations: u32 = 0;

    proof {
        lemma_cell_number_bound(grid_size, start@);
    }
    visited.set(start.row, start.col);
    let mut path: Vec<Point> = Vec::new();
    path.push(start);
    let initial_unvisited = total_cells - 1;

    let ghost cells = path_cells(path@);
    proof {
        assert(cells =~= seq![start@]);
        assert(search_state(grid_size, end@, visited@, cells, initial_unvisited as int)) by {
            reveal(search_state);
            assert forall|c: (int, int)| visited@.contains(c) <==> cells.contains(c) by {
                if c == start@ {
                    assert(cells[0] == c);
                }
            }
        }
        lemma_search_from_sound(grid_size, end@, visited@, cells, initial_unvisited as nat);
        lemma_search_visits_each_cell(
            grid_size,
            end@,
            visited@,
            start@,
            initial_unvisited as nat,
        );
        reveal(completes);
        assert(visited@ =~= Set::<(int, int)>::empty().insert(start@));
    }

    backtrack(
        &mut path,
        &end,
        &grid_size,
        &mut visited,
        initial_unvisited,
        max_iterations,
        &mut iterations,
        &mut found,
        &mut result_path,
    );
    proof {
        if found {
            assert(path_cells(result_path@) =~= seq![start@] + search_from(
                grid_size,
                end@,
                Set::<(int, int)>::empty().insert(start@),
                start@,
                (grid_size.area() - 1) as nat,
            ).tail);
        }
    }

    PathResult { found, path: result_path, iterations }
}

/// Whether a request is well formed: positive dimensions, no more cells
/// than the visited set has bits, and both endpoints on the grid.
pub open spec fn valid_request(start: (int, int), end: (int, int), grid: GridSize) -> bool {
    grid.wf() && grid.contains(start) && grid.contains(end)
}

/// Searches for a Hamiltonian path on a request given by its coordinates.
///
/// A request that is not well formed (a dimension that is not positive, a
/// grid with more cells than [`MAX_CELLS`](crate::geometry::MAX_CELLS), an
/// endpoint off the grid) is rejected: no path, zero iterations.
pub fn find_hamiltonian_path(
    start_row: i32,
    start_col: i32,
    end_row: i32,
    end_col: i32,
    grid_rows: i32,
    grid_cols: i32,
    max_iterations: u32,
) -> (result: PathResult)
    ensures
        ({
            let grid = GridSize { rows: grid_rows, cols: grid_cols };
            let start = (start_row as int, start_col as int);
            let end = (end_row as int, end_col as int);
            let verdict = spec_find_path(start, end, grid, max_iterations);
            &&& !valid_request(start, end, grid) ==> !result.found && result.path@.len() == 0
                && result.iterations == 0
            &&& start == end || !parity_feasible(start, end, grid) ==> !result.found
                && result.path@.len() == 0 && result.iterations == 0
            &&& valid_request(start, end, grid) ==> result.found == verdict.found && path_cells(
                result.path@,
            ) == verdict.path && result.iterations == verdict.iterations
            &&& result.found ==> is_hamiltonian_path(grid, start, end, path_cells(result.path@))
            &&& result.found ==> grid.area() <= result.iterations <= max_iterations
            &&& result.iterations <= max_iterations + 1
        }),
{
    let start = Point { row: start_row, col: start_col };
    let end = Point { row: end_row, col: end_col };
    let grid_size = GridSize { rows: grid_rows, cols: grid_cols };
    if !is_valid_request(&start, &end, &grid_size) {
        return PathResult { found: false, path: Vec::new(), iterations: 0 };
    }
    find_hamiltonian_path_internal(start, end, grid_size, max_iterations)
}

/// Tests whether a request is well formed.
pub fn is_valid_request(start: &Point, end: &Point, grid_size: &GridSize) -> (valid: bool)
    ensures
        valid == valid_request(start@, end@, *grid_size),
{
    if grid_size.rows <= 0 || grid_size.cols <= 0 {
        return false;
    }
    let limit: i32 = MAX_CELLS as i32;
    if grid_size.rows > limit || grid_size.cols > limit {
        proof {
            if grid_size.wf() {
                lemma_grid_dims(*grid_size);
            }
        }
        return false;
    }
    assert(grid_size.rows * grid_size.cols <= 448 * 448) by (nonlinear_arith)
        requires
            0 < grid_size.rows <= 448,
            0 < grid_size.cols <= 448,
    ;
    if grid_size.rows * grid_size.cols > limit {
        return false;
    }
    is_in_bounds(start.row, start.col, grid_size) && is_in_bounds(end.row, end.col, grid_size)
}

} // verus!
