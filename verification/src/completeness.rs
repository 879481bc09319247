//! The search loses no solution: where a Hamiltonian path exists, the
//! search without budget finds one.

use vstd::prelude::*;
use crate::connectivity::{
    free_cells, is_connected, is_free_walk, lemma_check_decides_connectivity,
    lemma_reachable_symmetric, reachable, spec_remaining_connected,
};
use crate::geometry::{adjacent, lemma_grid_cells_finite, spec_parity, GridSize};
use crate::model::{
    completes, is_hamiltonian_path, is_partial_path, lemma_even_area,
    lemma_state_extends, parity_feasible, search_from, search_state, spec_pruned,
    try_candidates,
};
use crate::neighbors::{free_neighbors, is_free, lemma_free_neighbors};
use crate::ranking::{cell_key, ranked_neighbors};
use crate::stable_sort::lemma_stable_sort_by;

verus! {

proof fn lemma_step_flips_colour(a: (int, int), b: (int, int))
    requires
        adjacent(a, b),
    ensures
        spec_parity(b.0, b.1) == (spec_parity(a.0, a.1) + 1) % 2,
{
}

proof fn lemma_colour_after(first: int, before: int, here: int, index: int)
    requires
        index > 0,
        before == (first + index - 1) % 2,
        here == (before + 1) % 2,
    ensures
        here == (first + index) % 2,
{
}

proof fn lemma_colours_allow(first: int, last: int, count: int)
    requires
        0 <= first < 2,
        last == (first + count - 1) % 2,
    ensures
        count % 2 == 0 ==> first != last,
        count % 2 != 0 ==> first == last,
{
}

/// Along a path the checkerboard colour alternates.
pub proof fn lemma_path_alternates(grid: GridSize, cells: Seq<(int, int)>, index: int)
    requires
        is_partial_path(grid, cells),
        0 <= index < cells.len(),
    ensures
        spec_parity(cells[index].0, cells[index].1) == (spec_parity(cells[0].0, cells[0].1)
            + index) % 2,
    decreases index,
{
    let first = spec_parity(cells[0].0, cells[0].1);
    if index > 0 {
        lemma_path_alternates(grid, cells, index - 1);
        assert(adjacent(cells[index - 1], cells[index - 1 + 1]));
        lemma_step_flips_colour(cells[index - 1], cells[index]);
        lemma_colour_after(
            first,
            spec_parity(cells[index - 1].0, cells[index - 1].1),
            spec_parity(cells[index].0, cells[index].1),
            index,
        );
    } else {
        assert(first == (first + 0) % 2);
    }
}

/// A Hamiltonian path exists only between endpoints whose colours allow
/// one.
pub proof fn lemma_hamiltonian_path_needs_parity(
    grid: GridSize,
    start: (int, int),
    end: (int, int),
    cells: Seq<(int, int)>,
)
    requires
        is_hamiltonian_path(grid, start, end, cells),
    ensures
        parity_feasible(start, end, grid),
{
    let last = cells.len() - 1;
    assert(cells[0] == start && cells[last] == end);
    lemma_path_alternates(grid, cells, last);
    lemma_even_area(grid);
    lemma_colours_allow(
        spec_parity(start.0, start.1),
        spec_parity(end.0, end.1),
        cells.len() as int,
    );
}

/// A path that covers the grid holds every cell of it.
proof fn lemma_full_path_holds_every_cell(grid: GridSize, cells: Seq<(int, int)>, cell: (int, int))
    requires
        is_partial_path(grid, cells),
        cells.len() == grid.area(),
        grid.contains(cell),
    ensures
        cells.contains(cell),
{
    assert(grid.contains(cells[0]));
    lemma_grid_cells_finite(grid);
    assert(cells.no_duplicates());
    cells.unique_seq_to_set();
    assert(cells.to_set().subset_of(grid.cells())) by {
        assert forall|c: (int, int)| cells.to_set().contains(c) implies grid.cells().contains(
            c,
        ) by {
            let i = choose|i: int| 0 <= i < cells.len() && cells[i] == c;
        }
    }
    vstd::set_lib::lemma_subset_equality(cells.to_set(), grid.cells());
    assert(grid.cells().contains(cell));
    assert(cells.to_set().contains(cell));
}

/// What is left to visit of a path that can be completed is exactly the
/// rest of that path, and it hangs together.
proof fn lemma_rest_is_connected(
    grid: GridSize,
    target: (int, int),
    visited: Set<(int, int)>,
    cells: Seq<(int, int)>,
    tail: Seq<(int, int)>,
)
    requires
        search_state(grid, target, visited, cells, tail.len() as int),
        completes(grid, cells, target, tail),
    ensures
        spec_remaining_connected(grid, visited, tail.len() as int),
{
    reveal(search_state);
    reveal(completes);
    let full = cells + tail;
    let free = free_cells(grid, visited);
    assert forall|k: int| 0 <= k < tail.len() implies is_free(
        grid,
        visited,
        #[trigger] tail[k],
    ) by {
        assert(full[cells.len() + k] == tail[k]);
        assert(grid.contains(full[cells.len() + k]));
        if visited.contains(tail[k]) {
            let i = choose|i: int| 0 <= i < cells.len() && cells[i] == tail[k];
            assert(full[i] == cells[i]);
        }
    }
    assert forall|c: (int, int)| free.contains(c) implies tail.contains(c) by {
        lemma_full_path_holds_every_cell(grid, full, c);
        let i = choose|i: int| 0 <= i < full.len() && full[i] == c;
        if i < cells.len() {
            assert(full[i] == cells[i]);
            assert(cells.contains(cells[i]));
        } else {
            assert(full[i] == tail[i - cells.len()]);
        }
    }
    assert(tail.no_duplicates()) by {
        assert forall|i: int, j: int|
            0 <= i < tail.len() && 0 <= j < tail.len() && i != j implies tail[i] != tail[j] by {
            assert(full[cells.len() + i] == tail[i]);
            assert(full[cells.len() + j] == tail[j]);
        }
    }
    tail.unique_seq_to_set();
    assert(free =~= tail.to_set());
    lemma_check_decides_connectivity(grid, visited, tail.len() as int);
    assert forall|a: (int, int), b: (int, int)|
        is_free(grid, visited, a) && is_free(grid, visited, b) implies reachable(
        grid,
        visited,
        a,
        b,
    ) by {
        assert(tail.contains(a) && tail.contains(b));
        let i = choose|i: int| 0 <= i < tail.len() && tail[i] == a;
        let j = choose|j: int| 0 <= j < tail.len() && tail[j] == b;
        if i <= j {
            lemma_stretch_is_walk(grid, visited, cells, tail, i, j);
        } else {
            lemma_stretch_is_walk(grid, visited, cells, tail, j, i);
            lemma_reachable_symmetric(grid, visited, b, a);
        }
    }
    assert(is_connected(grid, visited));
}

proof fn lemma_stretch_is_walk(
    grid: GridSize,
    visited: Set<(int, int)>,
    cells: Seq<(int, int)>,
    tail: Seq<(int, int)>,
    i: int,
    j: int,
)
    requires
        is_partial_path(grid, cells + tail),
        0 <= i <= j < tail.len(),
        forall|k: int| 0 <= k < tail.len() ==> is_free(grid, visited, #[trigger] tail[k]),
    ensures
        reachable(grid, visited, tail[i], tail[j]),
{
    let full = cells + tail;
    let walk = tail.subrange(i, j + 1);
    assert forall|k: int| 0 <= k < walk.len() implies is_free(
        grid,
        visited,
        #[trigger] walk[k],
    ) by {
        assert(walk[k] == tail[i + k]);
    }
    assert forall|k: int| 0 <= k < walk.len() - 1 implies adjacent(
        #[trigger] walk[k],
        walk[k + 1],
    ) by {
        let at = cells.len() + i + k;
        assert(full[at] == tail[i + k]);
        assert(full[at + 1] == tail[i + k + 1]);
        assert(adjacent(full[at], full[at + 1]));
    }
    assert(is_free_walk(grid, visited, walk));
    assert(walk[0] == tail[i] && walk.last() == tail[j]);
}

/// The first cell of a completion is a candidate of the node, and the rest
/// of the completion completes the path extended by it.
proof fn lemma_completion_starts_with_candidate(
    grid: GridSize,
    target: (int, int),
    visited: Set<(int, int)>,
    cells: Seq<(int, int)>,
    unvisited: nat,
    tail: Seq<(int, int)>,
) -> (index: int)
    requires
        search_state(grid, target, visited, cells, unvisited as int),
        completes(grid, cells, target, tail),
        unvisited > 0,
    ensures
        tail.len() == unvisited,
        0 <= index < ranked_neighbors(cells.last(), target, grid, visited, unvisited as int).len(),
        ranked_neighbors(cells.last(), target, grid, visited, unvisited as int)[index] == tail[0],
        completes(grid, cells.push(tail[0]), target, tail.skip(1)),
{
    broadcast use vstd::seq_lib::group_to_multiset_ensures;

    reveal(search_state);
    reveal(completes);
    reveal(ranked_neighbors);
    let full = cells + tail;
    let current = cells.last();
    let first = tail[0];
    assert(full[cells.len() - 1] == current);
    assert(full[cells.len() as int] == first);
    assert(adjacent(full[cells.len() - 1], full[cells.len() - 1 + 1]));
    assert(grid.contains(full[cells.len() as int]));
    if visited.contains(first) {
        let i = choose|i: int| 0 <= i < cells.len() && cells[i] == first;
        assert(full[i] == cells[i]);
    }
    let plain = free_neighbors(current, grid, visited);
    let key = cell_key(target, grid, visited, unvisited as int);
    let ranked = ranked_neighbors(current, target, grid, visited, unvisited as int);
    lemma_free_neighbors(current, grid, visited);
    lemma_stable_sort_by(plain, key);
    assert(plain.contains(first));
    assert(plain.to_multiset().count(first) > 0);
    assert(ranked.contains(first));
    let index = choose|index: int| 0 <= index < ranked.len() && ranked[index] == first;
    assert(cells.push(first) + tail.skip(1) =~= full);
    assert(cells.push(first)[0] == cells[0]);
    index
}

/// Where the path so far can be completed to a Hamiltonian path ending in
/// the target, the search without budget finds a path.
pub proof fn lemma_search_from_complete(
    grid: GridSize,
    target: (int, int),
    visited: Set<(int, int)>,
    cells: Seq<(int, int)>,
    unvisited: nat,
    tail: Seq<(int, int)>,
)
    requires
        search_state(grid, target, visited, cells, unvisited as int),
        completes(grid, cells, target, tail),
    ensures
        search_from(grid, target, visited, cells.last(), unvisited).found,
    decreases unvisited, 1int, 0int,
{
    if unvisited == 0 {
        reveal(search_state);
        reveal(completes);
        assert(tail.len() == 0);
        assert(cells + tail =~= cells);
    } else if cells.last() == target {
        reveal(search_state);
        reveal(completes);
        let full = cells + tail;
        assert(full[cells.len() - 1] == cells[cells.len() - 1]);
        assert(full[full.len() - 1] == target);
        assert(full[cells.len() - 1] != full[full.len() - 1]);
    } else {
        let index = lemma_completion_starts_with_candidate(
            grid,
            target,
            visited,
            cells,
            unvisited,
            tail,
        );
        lemma_try_candidates_complete(grid, target, visited, cells, unvisited, tail, index, 0);
    }
}

/// The same for the candidates of a node from index `from` on, where the
/// completion goes on with the candidate at `index`.
pub proof fn lemma_try_candidates_complete(
    grid: GridSize,
    target: (int, int),
    visited: Set<(int, int)>,
    cells: Seq<(int, int)>,
    unvisited: nat,
    tail: Seq<(int, int)>,
    index: int,
    from: int,
)
    requires
        search_state(grid, target, visited, cells, unvisited as int),
        unvisited > 0,
        tail.len() == unvisited,
        0 <= from <= index < ranked_neighbors(
            cells.last(),
            target,
            grid,
            visited,
            unvisited as int,
        ).len(),
        ranked_neighbors(cells.last(), target, grid, visited, unvisited as int)[index] == tail[0],
        completes(grid, cells.push(tail[0]), target, tail.skip(1)),
    ensures
        try_candidates(
            grid,
            target,
            visited,
            ranked_neighbors(cells.last(), target, grid, visited, unvisited as int),
            unvisited,
            from,
        ).found,
    decreases unvisited, 0int, index - from,
{
    let candidates = ranked_neighbors(cells.last(), target, grid, visited, unvisited as int);
    let candidate = candidates[from];
    let marked = visited.insert(candidate);
    let remaining = (unvisited - 1) as nat;
    if from < index {
        lemma_try_candidates_complete(
            grid,
            target,
            visited,
            cells,
            unvisited,
            tail,
            index,
            from + 1,
        );
    } else {
        lemma_state_extends(grid, target, visited, cells, unvisited as int, index);
        let longer = cells.push(candidate);
        let rest = tail.skip(1);
        assert(longer.last() == candidate);
        assert(rest.len() == remaining);
        assert(!spec_pruned(candidate, target, grid, marked, remaining as int)) by {
            reveal(spec_pruned);
            lemma_rest_is_connected(grid, target, marked, longer, rest);
        }
        lemma_search_from_complete(grid, target, marked, longer, remaining, rest);
    }
}

} // verus!
