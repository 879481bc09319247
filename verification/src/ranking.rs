//! The neighbour heuristic: the priority score of a candidate cell and
//! the ranking of a cell's unvisited neighbours by it.

use vstd::prelude::*;
use crate::bitset::VisitedBitset;
use crate::geometry::{
    is_corner, is_edge, lemma_grid_dims, manhattan_distance, spec_is_corner, spec_is_edge,
    spec_manhattan, GridSize, Point,
};
use crate::neighbors::{
    count_unvisited_neighbors, entry_cell, entry_cells, free_neighbors, is_free,
    lemma_free_neighbors,
};
use crate::stable_sort::{
    insertion_point, lemma_insertion_point_range, lemma_stable_sort_by, stable_sort_by,
};

verus! {

/// The priority score of a candidate cell; lower scores are tried first.
///
/// The target always scores `u32::MAX`. Every other cell scores the sum of
/// a hundred times its number of free neighbours, a positional term (0 for
/// a corner, 10 for another boundary cell, 20 for an interior cell), a
/// distance term (with more than half the grid unvisited, five times the
/// amount by which the Manhattan distance to the target falls short of 10;
/// with at most three cells unvisited, three times that distance; zero in
/// between), and 50 unless it has exactly one free neighbour.
pub open spec fn spec_priority(
    cell: (int, int),
    target: (int, int),
    grid: GridSize,
    visited: Set<(int, int)>,
    unvisited_count: int,
) -> int {
    if cell == target {
        u32::MAX as int
    } else {
        let options = free_neighbors(cell, grid, visited).len() as int;
        let position: int = if spec_is_corner(cell, grid) {
            0
        } else if spec_is_edge(cell, grid) {
            10
        } else {
            20
        };
        let distance = spec_manhattan(cell, target);
        let shaping = if unvisited_count > grid.area() / 2 {
            (10 - if distance < 10 { distance } else { 10 }) * 5
        } else if unvisited_count > 3 {
            0
        } else {
            distance * 3
        };
        let urgency: int = if options == 1 { 0 } else { 50 };
        options * 100 + position + shaping + urgency
    }
}

/// Every cell but the target scores below the target's score.
pub proof fn lemma_priority_bounds(
    cell: (int, int),
    target: (int, int),
    grid: GridSize,
    visited: Set<(int, int)>,
    unvisited_count: int,
)
    requires
        grid.wf(),
        grid.contains(cell),
        grid.contains(target),
    ensures
        0 <= spec_priority(cell, target, grid, visited, unvisited_count) <= u32::MAX,
        cell != target ==> spec_priority(cell, target, grid, visited, unvisited_count) < 4000,
        cell == target ==> spec_priority(cell, target, grid, visited, unvisited_count) == u32::MAX,
{
    lemma_free_neighbors(cell, grid, visited);
    lemma_grid_dims(grid);
}

/// Priority score of a candidate cell (lower is tried first), combining
/// the count of its unvisited neighbours, its position on the grid and its
/// distance to the target.
pub fn calculate_neighbor_priority(
    row: i32,
    col: i32,
    target: &Point,
    grid_size: &GridSize,
    visited: &VisitedBitset,
    unvisited_count: usize,
) -> (priority: u32)
    requires
        grid_size.wf(),
        grid_size.contains((row as int, col as int)),
        grid_size.contains(target@),
        visited.width() == grid_size.cols,
    ensures
        priority == spec_priority(
            (row as int, col as int),
            target@,
            *grid_size,
            visited@,
            unvisited_count as int,
        ),
{
    if row == target.row && col == target.col {
        return u32::MAX;
    }
    proof {
        lemma_grid_dims(*grid_size);
    }
    let neighbor_count = count_unvisited_neighbors(row, col, grid_size, visited) as u32;
    let warnsdorff_score = neighbor_count * 100;
    let corner_bonus: u32 = if is_corner(row, col, grid_size) {
        0
    } else if is_edge(row, col, grid_size) {
        10
    } else {
        20
    };
    let distance_to_target = manhattan_distance(row, col, target.row, target.col) as u32;
    let total_cells = (grid_size.rows * grid_size.cols) as usize;
    let distance_factor: u32 = if unvisited_count > total_cells / 2 {
        let capped: u32 = if distance_to_target < 10 { distance_to_target } else { 10 };
        (10 - capped) * 5
    } else if unvisited_count > 3 {
        0
    } else {
        distance_to_target * 3
    };
    let urgency_bonus: u32 = if neighbor_count == 1 { 0 } else { 50 };
    warnsdorff_score + corner_bonus + distance_factor + urgency_bonus
}

/// The score of a candidate cell for the given search state.
pub open spec fn cell_key(
    target: (int, int),
    grid: GridSize,
    visited: Set<(int, int)>,
    unvisited_count: int,
) -> spec_fn((int, int)) -> int {
    |cell: (int, int)| spec_priority(cell, target, grid, visited, unvisited_count)
}

/// The score of the cell that a neighbour entry names.
pub open spec fn entry_key(
    target: (int, int),
    grid: GridSize,
    visited: Set<(int, int)>,
    unvisited_count: int,
) -> spec_fn((i32, i32, &'static str)) -> int {
    |e: (i32, i32, &'static str)|
        spec_priority(entry_cell(e), target, grid, visited, unvisited_count)
}

/// The free neighbours of `cell` in the order the search tries them.
#[verifier::opaque]
pub open spec fn ranked_neighbors(
    cell: (int, int),
    target: (int, int),
    grid: GridSize,
    visited: Set<(int, int)>,
    unvisited_count: int,
) -> Seq<(int, int)> {
    stable_sort_by(
        free_neighbors(cell, grid, visited),
        cell_key(target, grid, visited, unvisited_count),
    )
}

/// The target, where it is among the candidates, is tried last.
pub proof fn lemma_target_ranked_last(
    cell: (int, int),
    target: (int, int),
    grid: GridSize,
    visited: Set<(int, int)>,
    unvisited_count: int,
    index: int,
)
    requires
        grid.wf(),
        grid.contains(target),
        0 <= index < ranked_neighbors(cell, target, grid, visited, unvisited_count).len(),
        ranked_neighbors(cell, target, grid, visited, unvisited_count)[index] == target,
    ensures
        index == ranked_neighbors(cell, target, grid, visited, unvisited_count).len() - 1,
{
    broadcast use vstd::seq_lib::group_to_multiset_ensures;

    reveal(ranked_neighbors);
    let plain = free_neighbors(cell, grid, visited);
    let key = cell_key(target, grid, visited, unvisited_count);
    let ranked = ranked_neighbors(cell, target, grid, visited, unvisited_count);
    lemma_stable_sort_by(plain, key);
    lemma_free_neighbors(cell, grid, visited);
    if index < ranked.len() - 1 {
        let other = ranked[index + 1];
        assert(key(ranked[index]) <= key(ranked[index + 1]));
        assert(ranked.contains(other));
        assert(ranked.to_multiset().count(other) > 0);
        assert(plain.contains(other));
        let at = choose|at: int| 0 <= at < plain.len() && plain[at] == other;
        assert(is_free(grid, visited, plain[at]));
        lemma_priority_bounds(other, target, grid, visited, unvisited_count);
        assert(other == target);
        // The target would then occur twice among distinct neighbours.
        assert(plain.no_duplicates());
        plain.lemma_multiset_has_no_duplicates();
        ranked.lemma_multiset_has_no_duplicates_conv();
        assert(ranked[index] != ranked[index + 1]);
    }
}

proof fn lemma_insertion_point_of_cells(
    entries: Seq<(i32, i32, &'static str)>,
    score: int,
    target: (int, int),
    grid: GridSize,
    visited: Set<(int, int)>,
    unvisited_count: int,
)
    ensures
        insertion_point(entries, score, entry_key(target, grid, visited, unvisited_count))
            == insertion_point(
            entry_cells(entries),
            score,
            cell_key(target, grid, visited, unvisited_count),
        ),
    decreases entries.len(),
{
    let ek = entry_key(target, grid, visited, unvisited_count);
    let ck = cell_key(target, grid, visited, unvisited_count);
    if entries.len() > 0 {
        assert(ek(entries.last()) == ck(entry_cells(entries).last()));
        assert(entry_cells(entries).drop_last() =~= entry_cells(entries.drop_last()));
        lemma_insertion_point_of_cells(
            entries.drop_last(),
            score,
            target,
            grid,
            visited,
            unvisited_count,
        );
    }
}

/// Ranking neighbour entries and then reading off their cells gives the
/// same order as ranking the cells themselves.
pub proof fn lemma_ranking_of_cells(
    entries: Seq<(i32, i32, &'static str)>,
    target: (int, int),
    grid: GridSize,
    visited: Set<(int, int)>,
    unvisited_count: int,
)
    ensures
        entry_cells(
            stable_sort_by(entries, entry_key(target, grid, visited, unvisited_count)),
        ) == stable_sort_by(
            entry_cells(entries),
            cell_key(target, grid, visited, unvisited_count),
        ),
    decreases entries.len(),
{
    let ek = entry_key(target, grid, visited, unvisited_count);
    let ck = cell_key(target, grid, visited, unvisited_count);
    if entries.len() == 0 {
        assert(entry_cells(stable_sort_by(entries, ek)) =~= stable_sort_by(
            entry_cells(entries),
            ck,
        ));
    } else {
        let rest = entries.drop_last();
        let x = entries.last();
        let sorted = stable_sort_by(rest, ek);
        lemma_ranking_of_cells(rest, target, grid, visited, unvisited_count);
        lemma_insertion_point_of_cells(sorted, ek(x), target, grid, visited, unvisited_count);
        lemma_insertion_point_range(sorted, ek(x), ek);
        assert(entry_cells(entries).drop_last() =~= entry_cells(rest));
        assert(ek(x) == ck(entry_cells(entries).last()));
        let at = insertion_point(sorted, ek(x), ek);
        assert(entry_cells(sorted.insert(at, x)) =~= entry_cells(sorted).insert(
            at,
            entry_cell(x),
        ));
    }
}

/// The entries of a list of entries with their scores.
pub open spec fn scored_entries(scored: Seq<((i32, i32, &'static str), u32)>) -> Seq<
    (i32, i32, &'static str),
> {
    scored.map_values(|p: ((i32, i32, &'static str), u32)| p.0)
}

/// Reorders `neighbors` by ascending priority score, entries of equal
/// score keeping the order they came in.
pub fn sort_by_warnsdorff(
    neighbors: &mut Vec<(i32, i32, &'static str)>,
    target: &Point,
    grid_size: &GridSize,
    visited: &VisitedBitset,
    unvisited_count: usize,
)
    requires
        grid_size.wf(),
        grid_size.contains(target@),
        visited.width() == grid_size.cols,
        forall|i: int|
            0 <= i < old(neighbors).len() ==> grid_size.contains(
                entry_cell(#[trigger] old(neighbors)[i]),
            ),
    ensures
        final(neighbors)@ == stable_sort_by(
            old(neighbors)@,
            entry_key(target@, *grid_size, visited@, unvisited_count as int),
        ),
{
    let ghost key = entry_key(target@, *grid_size, visited@, unvisited_count as int);
    let ghost input = neighbors@;
    let mut ranked: Vec<((i32, i32, &'static str), u32)> = Vec::new();
    let mut i: usize = 0;
    while i < neighbors.len()
        invariant
            i <= neighbors.len(),
            neighbors@ == input,
            grid_size.wf(),
            grid_size.contains(target@),
            visited.width() == grid_size.cols,
            forall|k: int|
                0 <= k < input.len() ==> grid_size.contains(entry_cell(#[trigger] input[k])),
            key == entry_key(target@, *grid_size, visited@, unvisited_count as int),
            scored_entries(ranked@) == stable_sort_by(
                input.take(i as int),
                key,
            ),
            forall|k: int| 0 <= k < ranked.len() ==> (#[trigger] ranked[k]).1 == key(ranked[k].0),
        decreases neighbors.len() - i,
    {
        let n = neighbors[i];
        assert(grid_size.contains(entry_cell(input[i as int])));
        let priority = calculate_neighbor_priority(
            n.0,
            n.1,
            target,
            grid_size,
            visited,
            unvisited_count,
        );
        let ghost sorted = scored_entries(ranked@);
        let mut j: usize = ranked.len();
        assert(sorted.take(j as int) =~= sorted);
        while j > 0 && ranked[j - 1].1 > priority
            invariant
                j <= ranked.len(),
                sorted == scored_entries(ranked@),
                forall|k: int|
                    0 <= k < ranked.len() ==> (#[trigger] ranked[k]).1 == key(ranked[k].0),
                insertion_point(sorted, priority as int, key) == insertion_point(
                    sorted.take(j as int),
                    priority as int,
                    key,
                ),
            decreases j,
        {
            assert(sorted.take(j as int).last() == ranked[j - 1].0);
            assert(sorted.take(j as int).drop_last() =~= sorted.take(j - 1));
            j -= 1;
        }
        proof {
            if j > 0 {
                assert(sorted.take(j as int).last() == ranked[j - 1].0);
            }
            assert(insertion_point(sorted, priority as int, key) == j);
            assert(input.take(i + 1).drop_last() =~= input.take(i as int));
            assert(input.take(i + 1).last() == n);
        }
        ranked.insert(j, (n, priority));
        assert(scored_entries(ranked@) =~= sorted.insert(
            j as int,
            n,
        ));
        i += 1;
    }
    assert(input.take(i as int) =~= input);
    let ghost output = scored_entries(ranked@);
    proof {
        lemma_stable_sort_by(input, key);
    }
    let mut k: usize = 0;
    while k < ranked.len()
        invariant
            k <= ranked.len(),
            ranked.len() == neighbors.len(),
            output == scored_entries(ranked@),
            forall|m: int| 0 <= m < k ==> neighbors[m] == output[m],
        decreases ranked.len() - k,
    {
        let entry = ranked[k].0;
        neighbors.set(k, entry);
        k += 1;
    }
    assert(neighbors@ =~= output);
}

} // verus!
