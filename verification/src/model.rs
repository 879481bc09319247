//! The mathematical model of the search: what a Hamiltonian path is, what
//! the search without budget does from a given state, and what a search
//! under a budget returns.

use vstd::prelude::*;
use crate::connectivity::{spec_likely_articulation, spec_remaining_connected};
use crate::geometry::{adjacent, lemma_grid_cells_finite, spec_parity, GridSize, Point};
use crate::neighbors::{free_neighbors, is_free, lemma_free_neighbors};
use crate::ranking::{cell_key, ranked_neighbors};
use crate::stable_sort::lemma_stable_sort_by;

verus! {

/// The cells that a sequence of points names.
pub open spec fn path_cells(path: Seq<Point>) -> Seq<(int, int)> {
    path.map_values(|p: Point| p@)
}

/// A non-empty sequence of distinct grid cells, each adjacent to the next.
pub open spec fn is_partial_path(grid: GridSize, cells: Seq<(int, int)>) -> bool {
    &&& cells.len() > 0
    &&& forall|i: int| 0 <= i < cells.len() ==> grid.contains(#[trigger] cells[i])
    &&& forall|i: int, j: int| 0 <= i < j < cells.len() ==> cells[i] != cells[j]
    &&& forall|i: int| 0 <= i < cells.len() - 1 ==> adjacent(#[trigger] cells[i], cells[i + 1])
}

/// A path from `start` to `end` that visits every cell of the grid exactly
/// once and moves only between adjacent cells.
pub open spec fn is_hamiltonian_path(
    grid: GridSize,
    start: (int, int),
    end: (int, int),
    cells: Seq<(int, int)>,
) -> bool {
    &&& is_partial_path(grid, cells)
    &&& cells.len() == grid.area()
    &&& cells[0] == start
    &&& cells.last() == end
}

/// Whether the grid has an even number of cells: a product is even
/// exactly when one of its factors is.
pub open spec fn has_even_area(grid: GridSize) -> bool {
    grid.rows % 2 == 0 || grid.cols % 2 == 0
}

/// A grid has an even number of cells exactly when one of its dimensions
/// is even.
pub proof fn lemma_even_area(grid: GridSize)
    ensures
        has_even_area(grid) <==> grid.area() % 2 == 0,
{
    vstd::arithmetic::div_mod::lemma_mul_mod_noop_general(grid.rows as int, grid.cols as int, 2);
    let r = grid.rows as int % 2;
    let c = grid.cols as int % 2;
    assert(r * c == 0 || r * c == 1) by (nonlinear_arith)
        requires
            0 <= r < 2,
            0 <= c < 2,
    ;
    assert(r * c == 0 <==> r == 0 || c == 0) by (nonlinear_arith)
        requires
            0 <= r < 2,
            0 <= c < 2,
    ;
}

/// Whether the checkerboard colours of the endpoints allow a Hamiltonian
/// path at all: different colours on a grid with an even number of cells,
/// the same colour on one with an odd number.
pub open spec fn parity_feasible(start: (int, int), end: (int, int), grid: GridSize) -> bool {
    if has_even_area(grid) {
        spec_parity(start.0, start.1) != spec_parity(end.0, end.1)
    } else {
        spec_parity(start.0, start.1) == spec_parity(end.0, end.1)
    }
}

/// The highest value the iteration counter can take under a budget: the
/// first count beyond the budget, at which a visit is counted and does
/// nothing more, but never beyond what the counter can hold.
pub open spec fn budget_cap(max_iterations: u32) -> int {
    if max_iterations < u32::MAX {
        max_iterations + 1
    } else {
        u32::MAX as int
    }
}

/// What a search without budget does from a given state: whether it
/// finds a path, how many nodes it visits, and the cells it appends to the
/// path when it succeeds.
pub struct Outcome {
    pub found: bool,
    pub visits: nat,
    pub tail: Seq<(int, int)>,
}

/// Whether the move to `candidate` is abandoned because it would leave
/// the unvisited cells in more than one region. `marked` is the visited
/// set with the candidate in it and `remaining` the number of cells still
/// unvisited after the move.
#[verifier::opaque]
pub open spec fn spec_pruned(
    candidate: (int, int),
    target: (int, int),
    grid: GridSize,
    marked: Set<(int, int)>,
    remaining: int,
) -> bool {
    &&& candidate != target
    &&& remaining > 2
    &&& spec_likely_articulation(candidate, grid, marked)
    &&& !spec_remaining_connected(grid, marked, remaining)
}

/// The search without budget, from the node where the path ends in
/// `current` and `unvisited` cells remain.
pub open spec fn search_from(
    grid: GridSize,
    target: (int, int),
    visited: Set<(int, int)>,
    current: (int, int),
    unvisited: nat,
) -> Outcome
    decreases unvisited, 1int, 0int,
{
    if unvisited == 0 {
        Outcome { found: current == target, visits: 1, tail: Seq::empty() }
    } else if current == target {
        Outcome { found: false, visits: 1, tail: Seq::empty() }
    } else {
        let below = try_candidates(
            grid,
            target,
            visited,
            ranked_neighbors(current, target, grid, visited, unvisited as int),
            unvisited,
            0,
        );
        Outcome { found: below.found, visits: 1 + below.visits, tail: below.tail }
    }
}

/// The search without budget over the candidates from index `from` on,
/// at a node where `unvisited` cells remain.
pub open spec fn try_candidates(
    grid: GridSize,
    target: (int, int),
    visited: Set<(int, int)>,
    candidates: Seq<(int, int)>,
    unvisited: nat,
    from: int,
) -> Outcome
    decreases unvisited, 0int, candidates.len() - from,
{
    if unvisited == 0 || from < 0 || from >= candidates.len() {
        Outcome { found: false, visits: 0, tail: Seq::empty() }
    } else {
        let candidate = candidates[from];
        let marked = visited.insert(candidate);
        let remaining = (unvisited - 1) as nat;
        if spec_pruned(candidate, target, grid, marked, remaining as int) {
            try_candidates(grid, target, visited, candidates, unvisited, from + 1)
        } else {
            let below = search_from(grid, target, marked, candidate, remaining);
            if below.found {
                Outcome { found: true, visits: below.visits, tail: seq![candidate] + below.tail }
            } else {
                let rest = try_candidates(grid, target, visited, candidates, unvisited, from + 1);
                Outcome {
                    found: rest.found,
                    visits: below.visits + rest.visits,
                    tail: rest.tail,
                }
            }
        }
    }
}

/// The result of a search under a budget, as a model.
pub struct Verdict {
    pub found: bool,
    pub path: Seq<(int, int)>,
    pub iterations: int,
}

/// What `find_hamiltonian_path_internal` returns on a well-formed request.
///
/// A request with equal endpoints, or with endpoints whose colours rule a
/// path out, fails with zero iterations. Otherwise the search visits nodes
/// as the search without budget does, for as many visits as the budget
/// allows: it succeeds if the search without budget succeeds within
/// `max_iterations` visits. A search that needs more counts one visit
/// beyond the budget and fails.
pub open spec fn spec_find_path(
    start: (int, int),
    end: (int, int),
    grid: GridSize,
    max_iterations: u32,
) -> Verdict {
    if start == end || !parity_feasible(start, end, grid) {
        Verdict { found: false, path: Seq::empty(), iterations: 0 }
    } else {
        let free_run = search_from(
            grid,
            end,
            Set::<(int, int)>::empty().insert(start),
            start,
            (grid.area() - 1) as nat,
        );
        let cap = budget_cap(max_iterations);
        if free_run.found && free_run.visits <= max_iterations {
            Verdict {
                found: true,
                path: seq![start] + free_run.tail,
                iterations: free_run.visits as int,
            }
        } else {
            Verdict {
                found: false,
                path: Seq::empty(),
                iterations: if free_run.visits <= cap { free_run.visits as int } else { cap },
            }
        }
    }
}

/// The state of the search at a node: the path so far is a partial path,
/// the visited set holds exactly its cells, and the path and the
/// unvisited cells together make up the grid.
#[verifier::opaque]
pub open spec fn search_state(
    grid: GridSize,
    target: (int, int),
    visited: Set<(int, int)>,
    cells: Seq<(int, int)>,
    unvisited: int,
) -> bool {
    &&& grid.wf()
    &&& grid.contains(target)
    &&& is_partial_path(grid, cells)
    &&& forall|c: (int, int)| visited.contains(c) <==> cells.contains(c)
    &&& unvisited >= 0
    &&& cells.len() + unvisited == grid.area()
}

/// A ranked neighbour of the path's last cell extends the search state.
pub proof fn lemma_state_extends(
    grid: GridSize,
    target: (int, int),
    visited: Set<(int, int)>,
    cells: Seq<(int, int)>,
    unvisited: int,
    index: int,
)
    requires
        search_state(grid, target, visited, cells, unvisited),
        0 <= index < ranked_neighbors(cells.last(), target, grid, visited, unvisited).len(),
    ensures
        ({
            let candidate = ranked_neighbors(cells.last(), target, grid, visited, unvisited)[index];
            &&& unvisited > 0
            &&& cells.len() > 0
            &&& is_free(grid, visited, candidate)
            &&& adjacent(cells.last(), candidate)
            &&& search_state(
                grid,
                target,
                visited.insert(candidate),
                cells.push(candidate),
                unvisited - 1,
            )
        }),
{
    broadcast use vstd::seq_lib::group_to_multiset_ensures;

    reveal(search_state);
    let current = cells.last();
    reveal(ranked_neighbors);
    let plain = free_neighbors(current, grid, visited);
    let key = cell_key(target, grid, visited, unvisited);
    let ranked = ranked_neighbors(current, target, grid, visited, unvisited);
    let candidate = ranked[index];
    lemma_stable_sort_by(plain, key);
    lemma_free_neighbors(current, grid, visited);
    assert(ranked.contains(candidate));
    assert(ranked.to_multiset().count(candidate) > 0);
    assert(plain.contains(candidate));
    let at = choose|at: int| 0 <= at < plain.len() && plain[at] == candidate;
    assert(is_free(grid, visited, plain[at]) && adjacent(current, plain[at]));
    let longer = cells.push(candidate);
    let marked = visited.insert(candidate);
    assert forall|i: int, j: int| 0 <= i < j < longer.len() implies longer[i] != longer[j] by {
        if j == cells.len() {
            assert(cells.contains(cells[i]));
        }
    }
    assert forall|c: (int, int)| marked.contains(c) <==> longer.contains(c) by {
        if marked.contains(c) {
            if c == candidate {
                assert(longer[cells.len() as int] == c);
            } else {
                let i = choose|i: int| 0 <= i < cells.len() && cells[i] == c;
                assert(longer[i] == c);
            }
        }
        if longer.contains(c) {
            let i = choose|i: int| 0 <= i < longer.len() && longer[i] == c;
            if i < cells.len() {
                assert(cells.contains(cells[i]));
            }
        }
    }
    assert(unvisited > 0) by {
        lemma_path_within_grid(grid, longer);
    }
}

/// A partial path has at most as many cells as the grid.
pub proof fn lemma_path_within_grid(grid: GridSize, cells: Seq<(int, int)>)
    requires
        is_partial_path(grid, cells),
    ensures
        cells.len() <= grid.area(),
{
    assert(grid.contains(cells[0]));
    lemma_grid_cells_finite(grid);
    assert(cells.no_duplicates());
    cells.unique_seq_to_set();
    assert(cells.to_set().subset_of(grid.cells())) by {
        assert forall|c: (int, int)| cells.to_set().contains(c) implies grid.cells().contains(
            c,
        ) by {
            let i = choose|i: int| 0 <= i < cells.len() && cells[i] == c;
        }
    }
    vstd::set_lib::lemma_len_subset(cells.to_set(), grid.cells());
}

/// The path `cells` followed by `tail` is a Hamiltonian path from the
/// first of `cells` to `target`.
#[verifier::opaque]
pub open spec fn completes(
    grid: GridSize,
    cells: Seq<(int, int)>,
    target: (int, int),
    tail: Seq<(int, int)>,
) -> bool {
    is_hamiltonian_path(grid, cells[0], target, cells + tail)
}

proof fn lemma_completes_at_once(
    grid: GridSize,
    target: (int, int),
    visited: Set<(int, int)>,
    cells: Seq<(int, int)>,
)
    requires
        search_state(grid, target, visited, cells, 0),
        cells.last() == target,
    ensures
        completes(grid, cells, target, Seq::empty()),
{
    reveal(search_state);
    reveal(completes);
    assert(cells + Seq::<(int, int)>::empty() =~= cells);
}

proof fn lemma_completes_through(
    grid: GridSize,
    cells: Seq<(int, int)>,
    candidate: (int, int),
    target: (int, int),
    tail: Seq<(int, int)>,
)
    requires
        cells.len() > 0,
        completes(grid, cells.push(candidate), target, tail),
    ensures
        completes(grid, cells, target, seq![candidate] + tail),
{
    reveal(completes);
    assert(cells.push(candidate) + tail =~= cells + (seq![candidate] + tail));
    assert(cells.push(candidate)[0] == cells[0]);
}

/// Every search visits at least its own node.
pub proof fn lemma_search_visits_node(
    grid: GridSize,
    target: (int, int),
    visited: Set<(int, int)>,
    current: (int, int),
    unvisited: nat,
)
    ensures
        search_from(grid, target, visited, current, unvisited).visits >= 1,
{
}

/// A search that finds a path visits at least one node for each cell it
/// appends, besides its own node.
pub proof fn lemma_search_visits_each_cell(
    grid: GridSize,
    target: (int, int),
    visited: Set<(int, int)>,
    current: (int, int),
    unvisited: nat,
)
    ensures
        ({
            let run = search_from(grid, target, visited, current, unvisited);
            run.found ==> run.visits >= 1 + run.tail.len()
        }),
    decreases unvisited, 1int, 0int,
{
    if unvisited > 0 && current != target {
        lemma_candidates_visit_each_cell(
            grid,
            target,
            visited,
            ranked_neighbors(current, target, grid, visited, unvisited as int),
            unvisited,
            0,
        );
    }
}

/// The same for the candidates of a node from index `from` on.
pub proof fn lemma_candidates_visit_each_cell(
    grid: GridSize,
    target: (int, int),
    visited: Set<(int, int)>,
    candidates: Seq<(int, int)>,
    unvisited: nat,
    from: int,
)
    ensures
        ({
            let run = try_candidates(grid, target, visited, candidates, unvisited, from);
            run.found ==> run.visits >= run.tail.len()
        }),
    decreases unvisited, 0int, candidates.len() - from,
{
    if unvisited > 0 && 0 <= from < candidates.len() {
        let candidate = candidates[from];
        let marked = visited.insert(candidate);
        let remaining = (unvisited - 1) as nat;
        lemma_candidates_visit_each_cell(grid, target, visited, candidates, unvisited, from + 1);
        if !spec_pruned(candidate, target, grid, marked, remaining as int) {
            lemma_search_visits_each_cell(grid, target, marked, candidate, remaining);
        }
    }
}

/// A successful search without budget completes the path it starts from
/// to a Hamiltonian path ending in the target.
pub proof fn lemma_search_from_sound(
    grid: GridSize,
    target: (int, int),
    visited: Set<(int, int)>,
    cells: Seq<(int, int)>,
    unvisited: nat,
)
    requires
        search_state(grid, target, visited, cells, unvisited as int),
    ensures
        ({
            let run = search_from(grid, target, visited, cells.last(), unvisited);
            run.found ==> completes(grid, cells, target, run.tail)
        }),
    decreases unvisited, 1int, 0int,
{
    if unvisited == 0 {
        if cells.last() == target {
            lemma_completes_at_once(grid, target, visited, cells);
        }
    } else if cells.last() == target {
    } else {
        lemma_try_candidates_sound(grid, target, visited, cells, unvisited, 0);
    }
}

/// The same for the candidates of a node from index `from` on.
pub proof fn lemma_try_candidates_sound(
    grid: GridSize,
    target: (int, int),
    visited: Set<(int, int)>,
    cells: Seq<(int, int)>,
    unvisited: nat,
    from: int,
)
    requires
        search_state(grid, target, visited, cells, unvisited as int),
        0 <= from,
    ensures
        ({
            let run = try_candidates(
                grid,
                target,
                visited,
                ranked_neighbors(cells.last(), target, grid, visited, unvisited as int),
                unvisited,
                from,
            );
            run.found ==> completes(grid, cells, target, run.tail)
        }),
    decreases unvisited, 0int,
        ranked_neighbors(cells.last(), target, grid, visited, unvisited as int).len() - from,
{
    let candidates = ranked_neighbors(cells.last(), target, grid, visited, unvisited as int);
    if unvisited > 0 && from < candidates.len() {
        let candidate = candidates[from];
        let marked = visited.insert(candidate);
        let remaining = (unvisited - 1) as nat;
        lemma_state_extends(grid, target, visited, cells, unvisited as int, from);
        lemma_try_candidates_sound(grid, target, visited, cells, unvisited, from + 1);
        if !spec_pruned(candidate, target, grid, marked, remaining as int) {
            let longer = cells.push(candidate);
            assert(longer.last() == candidate);
            lemma_search_from_sound(grid, target, marked, longer, remaining);
            let below = search_from(grid, target, marked, candidate, remaining);
            if below.found {
                lemma_completes_through(grid, cells, candidate, target, below.tail);
            }
        }
    }
}

} // verus!
