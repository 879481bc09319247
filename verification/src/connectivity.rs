//! The connectivity pruner: whether the cells still unvisited form one
//! region, and the cheap filter that decides when to ask.

use vstd::prelude::*;
use crate::bitset::VisitedBitset;
use crate::geometry::{
    adjacent, is_corner, is_in_bounds, lemma_adjacent_is_step, lemma_cell_number_bound,
    lemma_grid_cells_finite, spec_is_corner, step, GridSize,
};
use crate::neighbors::{count_unvisited_neighbors, direction, free_neighbors, is_free};

verus! {

/// A non-empty sequence of free cells in which each cell is adjacent to
/// the next.
pub open spec fn is_free_walk(
    grid: GridSize,
    visited: Set<(int, int)>,
    walk: Seq<(int, int)>,
) -> bool {
    &&& walk.len() > 0
    &&& forall|i: int| 0 <= i < walk.len() ==> is_free(grid, visited, #[trigger] walk[i])
    &&& forall|i: int| 0 <= i < walk.len() - 1 ==> adjacent(#[trigger] walk[i], walk[i + 1])
}

/// `to` can be reached from `from` by steps over free cells only.
pub open spec fn reachable(
    grid: GridSize,
    visited: Set<(int, int)>,
    from: (int, int),
    to: (int, int),
) -> bool {
    exists|walk: Seq<(int, int)>|
        #[trigger] is_free_walk(grid, visited, walk) && walk[0] == from && walk.last() == to
}

/// The free cells of the grid.
pub open spec fn free_cells(grid: GridSize, visited: Set<(int, int)>) -> Set<(int, int)> {
    Set::new(|cell: (int, int)| is_free(grid, visited, cell))
}

/// The free cells reachable from `from`.
pub open spec fn component(grid: GridSize, visited: Set<(int, int)>, from: (int, int)) -> Set<
    (int, int),
> {
    Set::new(|cell: (int, int)| reachable(grid, visited, from, cell))
}

/// `cell` is the first free cell when the grid is read row by row.
pub open spec fn is_first_free(grid: GridSize, visited: Set<(int, int)>, cell: (int, int)) -> bool {
    &&& is_free(grid, visited, cell)
    &&& forall|other: (int, int)|
        #[trigger] is_free(grid, visited, other) ==> cell.0 < other.0 || (cell.0 == other.0
            && cell.1 <= other.1)
}

/// What the connectivity check answers: yes when at most one cell is said
/// to remain or no cell is free; otherwise whether at least
/// `unvisited_count` cells can be reached from the first free cell.
pub open spec fn spec_remaining_connected(
    grid: GridSize,
    visited: Set<(int, int)>,
    unvisited_count: int,
) -> bool {
    ||| unvisited_count <= 1
    ||| forall|cell: (int, int)| !#[trigger] is_free(grid, visited, cell)
    ||| exists|start: (int, int)|
        #[trigger] is_first_free(grid, visited, start) && component(grid, visited, start).len()
            >= unvisited_count
}

/// What the cut-vertex filter answers: a cell with at least two free
/// neighbours, unless it is a corner with exactly two.
pub open spec fn spec_likely_articulation(
    cell: (int, int),
    grid: GridSize,
    visited: Set<(int, int)>,
) -> bool {
    let options = free_neighbors(cell, grid, visited).len();
    options >= 2 && !(spec_is_corner(cell, grid) && options == 2)
}

/// Every region of free cells is finite and lies on the grid.
pub proof fn lemma_component_finite(grid: GridSize, visited: Set<(int, int)>, from: (int, int))
    ensures
        component(grid, visited, from).finite(),
        component(grid, visited, from).subset_of(free_cells(grid, visited)),
        free_cells(grid, visited).finite(),
{
    let free = free_cells(grid, visited);
    let region = component(grid, visited, from);
    assert forall|c: (int, int)| region.contains(c) implies free.contains(c) by {
        let walk = choose|walk: Seq<(int, int)>|
            #[trigger] is_free_walk(grid, visited, walk) && walk[0] == from && walk.last() == c;
        assert(is_free(grid, visited, walk[walk.len() - 1]));
    }
    if 0 < grid.rows && 0 < grid.cols {
        lemma_grid_cells_finite(grid);
        assert(free.subset_of(grid.cells()));
        vstd::set_lib::lemma_len_subset(free, grid.cells());
        vstd::set_lib::lemma_len_subset(region, free);
    } else {
        assert(free =~= Set::<(int, int)>::empty());
        assert(region =~= Set::<(int, int)>::empty());
    }
}

/// A free cell reaches itself, and reaching extends by one step to a free
/// adjacent cell.
pub proof fn lemma_reachable_step(
    grid: GridSize,
    visited: Set<(int, int)>,
    from: (int, int),
    mid: (int, int),
    to: (int, int),
)
    requires
        is_free(grid, visited, from),
        mid == from || reachable(grid, visited, from, mid),
        to == mid || (adjacent(mid, to) && is_free(grid, visited, to)),
    ensures
        reachable(grid, visited, from, to),
{
    let base = seq![from];
    assert(is_free_walk(grid, visited, base));
    assert(reachable(grid, visited, from, from));
    let walk = choose|walk: Seq<(int, int)>|
        #[trigger] is_free_walk(grid, visited, walk) && walk[0] == from && walk.last() == mid;
    if to != mid {
        let longer = walk.push(to);
        assert forall|i: int| 0 <= i < longer.len() - 1 implies adjacent(
            #[trigger] longer[i],
            longer[i + 1],
        ) by {
            if i < walk.len() - 1 {
                assert(adjacent(walk[i], walk[i + 1]));
            }
        }
        assert forall|i: int| 0 <= i < longer.len() implies is_free(
            grid,
            visited,
            #[trigger] longer[i],
        ) by {
            if i < walk.len() {
                assert(is_free(grid, visited, walk[i]));
            }
        }
        assert(is_free_walk(grid, visited, longer));
        assert(longer[0] == from && longer.last() == to);
    }
}

/// A set that holds `from` and every free cell adjacent to one of its
/// members holds everything reachable from `from`.
pub proof fn lemma_closed_set_holds_component(
    grid: GridSize,
    visited: Set<(int, int)>,
    from: (int, int),
    closed: Set<(int, int)>,
)
    requires
        closed.contains(from),
        forall|p: (int, int), q: (int, int)|
            closed.contains(p) && #[trigger] adjacent(p, q) && is_free(grid, visited, q)
                ==> closed.contains(q),
    ensures
        component(grid, visited, from).subset_of(closed),
{
    assert forall|c: (int, int)| component(grid, visited, from).contains(c) implies closed.contains(
        c,
    ) by {
        let walk = choose|walk: Seq<(int, int)>|
            #[trigger] is_free_walk(grid, visited, walk) && walk[0] == from && walk.last() == c;
        lemma_walk_stays_inside(grid, visited, closed, walk, walk.len() - 1);
    }
}

proof fn lemma_walk_stays_inside(
    grid: GridSize,
    visited: Set<(int, int)>,
    closed: Set<(int, int)>,
    walk: Seq<(int, int)>,
    upto: int,
)
    requires
        is_free_walk(grid, visited, walk),
        closed.contains(walk[0]),
        0 <= upto < walk.len(),
        forall|p: (int, int), q: (int, int)|
            closed.contains(p) && #[trigger] adjacent(p, q) && is_free(grid, visited, q)
                ==> closed.contains(q),
    ensures
        closed.contains(walk[upto]),
    decreases upto,
{
    if upto > 0 {
        lemma_walk_stays_inside(grid, visited, closed, walk, upto - 1);
        assert(adjacent(walk[upto - 1], walk[upto - 1 + 1]));
        assert(is_free(grid, visited, walk[upto]));
    }
}

/// Reaching works both ways.
pub proof fn lemma_reachable_symmetric(
    grid: GridSize,
    visited: Set<(int, int)>,
    from: (int, int),
    to: (int, int),
)
    requires
        reachable(grid, visited, from, to),
    ensures
        reachable(grid, visited, to, from),
{
    let walk = choose|walk: Seq<(int, int)>|
        #[trigger] is_free_walk(grid, visited, walk) && walk[0] == from && walk.last() == to;
    let back = walk.reverse();
    assert forall|i: int| 0 <= i < back.len() implies is_free(
        grid,
        visited,
        #[trigger] back[i],
    ) by {
        assert(back[i] == walk[walk.len() - 1 - i]);
    }
    assert forall|i: int| 0 <= i < back.len() - 1 implies adjacent(
        #[trigger] back[i],
        back[i + 1],
    ) by {
        let j = walk.len() - 2 - i;
        assert(back[i] == walk[j + 1]);
        assert(back[i + 1] == walk[j]);
        assert(adjacent(walk[j], walk[j + 1]));
    }
    assert(is_free_walk(grid, visited, back));
    assert(back[0] == to && back.last() == from);
}

/// Reaching chains.
pub proof fn lemma_reachable_transitive(
    grid: GridSize,
    visited: Set<(int, int)>,
    from: (int, int),
    mid: (int, int),
    to: (int, int),
)
    requires
        reachable(grid, visited, from, mid),
        reachable(grid, visited, mid, to),
    ensures
        reachable(grid, visited, from, to),
{
    let first = choose|walk: Seq<(int, int)>|
        #[trigger] is_free_walk(grid, visited, walk) && walk[0] == from && walk.last() == mid;
    let second = choose|walk: Seq<(int, int)>|
        #[trigger] is_free_walk(grid, visited, walk) && walk[0] == mid && walk.last() == to;
    let joined = first.drop_last() + second;
    assert forall|i: int| 0 <= i < joined.len() implies is_free(
        grid,
        visited,
        #[trigger] joined[i],
    ) by {
        if i < first.len() - 1 {
            assert(joined[i] == first[i]);
        } else {
            assert(joined[i] == second[i - (first.len() - 1)]);
        }
    }
    assert forall|i: int| 0 <= i < joined.len() - 1 implies adjacent(
        #[trigger] joined[i],
        joined[i + 1],
    ) by {
        let k = first.len() - 1;
        if i + 1 < k {
            assert(joined[i] == first[i] && joined[i + 1] == first[i + 1]);
            assert(adjacent(first[i], first[i + 1]));
        } else if i + 1 == k {
            assert(joined[i] == first[i]);
            assert(joined[i + 1] == second[0]);
            assert(adjacent(first[i], first[i + 1]));
        } else {
            assert(joined[i] == second[i - k] && joined[i + 1] == second[i - k + 1]);
            assert(adjacent(second[i - k], second[i - k + 1]));
        }
    }
    assert(is_free_walk(grid, visited, joined));
    assert(joined[0] == from) by {
        if first.len() == 1 {
            assert(joined[0] == second[0]);
        } else {
            assert(joined[0] == first[0]);
        }
    }
    assert(joined.last() == to);
}

proof fn lemma_first_free_from(grid: GridSize, visited: Set<(int, int)>, row: int, col: int)
    requires
        0 <= row,
        0 <= col <= grid.cols,
        exists|cell: (int, int)| is_free(grid, visited, cell),
        forall|cell: (int, int)|
            #[trigger] is_free(grid, visited, cell) ==> cell.0 > row || (cell.0 == row && cell.1
                >= col),
    ensures
        exists|cell: (int, int)| is_first_free(grid, visited, cell),
    decreases grid.rows - row, grid.cols - col,
{
    let some = choose|cell: (int, int)| is_free(grid, visited, cell);
    assert(is_free(grid, visited, some));
    if col >= grid.cols {
        lemma_first_free_from(grid, visited, row + 1, 0);
    } else if is_free(grid, visited, (row, col)) {
        assert(is_first_free(grid, visited, (row, col)));
    } else {
        lemma_first_free_from(grid, visited, row, col + 1);
    }
}

/// Every free cell can be reached from every other.
pub open spec fn is_connected(grid: GridSize, visited: Set<(int, int)>) -> bool {
    forall|a: (int, int), b: (int, int)|
        is_free(grid, visited, a) && is_free(grid, visited, b) ==> #[trigger] reachable(
            grid,
            visited,
            a,
            b,
        )
}

/// Asked with the true number of free cells, the connectivity check tells
/// whether the free cells form a single region.
pub proof fn lemma_check_decides_connectivity(
    grid: GridSize,
    visited: Set<(int, int)>,
    unvisited_count: int,
)
    requires
        unvisited_count == free_cells(grid, visited).len(),
    ensures
        free_cells(grid, visited).finite(),
        spec_remaining_connected(grid, visited, unvisited_count) == is_connected(grid, visited),
{
    let free = free_cells(grid, visited);
    lemma_component_finite(grid, visited, (0, 0));
    if exists|cell: (int, int)| is_free(grid, visited, cell) {
        lemma_first_free_from(grid, visited, 0, 0);
        let start = choose|cell: (int, int)| is_first_free(grid, visited, cell);
        lemma_first_free_unique(grid, visited, start);
        let region = component(grid, visited, start);
        lemma_component_finite(grid, visited, start);
        vstd::set_lib::lemma_len_subset(region, free);
        assert(free.contains(start));
        if is_connected(grid, visited) {
            assert forall|c: (int, int)| free.contains(c) implies region.contains(c) by {
                assert(reachable(grid, visited, start, c));
            }
            assert(region =~= free);
        } else {
            if region.len() >= unvisited_count && unvisited_count > 1 {
                vstd::set_lib::lemma_subset_equality(region, free);
                assert forall|a: (int, int), b: (int, int)|
                    is_free(grid, visited, a) && is_free(grid, visited, b) implies reachable(
                    grid,
                    visited,
                    a,
                    b,
                ) by {
                    assert(region.contains(a) && region.contains(b));
                    lemma_reachable_symmetric(grid, visited, start, a);
                    lemma_reachable_transitive(grid, visited, a, start, b);
                }
            }
            if unvisited_count <= 1 {
                assert forall|a: (int, int), b: (int, int)|
                    is_free(grid, visited, a) && is_free(grid, visited, b) implies reachable(
                    grid,
                    visited,
                    a,
                    b,
                ) by {
                    if a != b {
                        let pair = Set::<(int, int)>::empty().insert(a).insert(b);
                        assert(pair.subset_of(free));
                        vstd::set_lib::lemma_len_subset(pair, free);
                    }
                    lemma_reachable_step(grid, visited, a, a, a);
                }
            }
        }
    } else {
        assert(free =~= Set::<(int, int)>::empty());
    }
}

/// Cheap filter before the connectivity check: whether taking this cell
/// might cut the unvisited region in two.
pub fn is_likely_articulation_point(
    row: i32,
    col: i32,
    grid_size: &GridSize,
    visited: &VisitedBitset,
) -> (likely: bool)
    requires
        grid_size.wf(),
        grid_size.contains((row as int, col as int)),
        visited.width() == grid_size.cols,
    ensures
        likely == spec_likely_articulation((row as int, col as int), *grid_size, visited@),
{
    let neighbor_count = count_unvisited_neighbors(row, col, grid_size, visited);
    if neighbor_count <= 1 {
        return false;
    }
    let is_corner_cell = is_corner(row, col, grid_size);
    if is_corner_cell && neighbor_count == 2 {
        return false;
    }
    neighbor_count >= 2
}

/// The first unvisited cell when the grid is read row by row, if any.
pub fn first_unvisited(grid_size: &GridSize, visited: &VisitedBitset) -> (first: Option<(i32, i32)>)
    requires
        grid_size.wf(),
        visited.width() == grid_size.cols,
    ensures
        match first {
            Some(cell) => is_first_free(*grid_size, visited@, (cell.0 as int, cell.1 as int)),
            None => forall|cell: (int, int)| !#[trigger] is_free(*grid_size, visited@, cell),
        },
{
    let mut r: i32 = 0;
    while r < grid_size.rows
        invariant
            0 <= r <= grid_size.rows,
            grid_size.wf(),
            visited.width() == grid_size.cols,
            forall|cell: (int, int)| #[trigger] is_free(*grid_size, visited@, cell) ==> cell.0 >= r,
        decreases grid_size.rows - r,
    {
        let mut c: i32 = 0;
        while c < grid_size.cols
            invariant
                0 <= r < grid_size.rows,
                0 <= c <= grid_size.cols,
                grid_size.wf(),
                visited.width() == grid_size.cols,
                forall|cell: (int, int)|
                    #[trigger] is_free(*grid_size, visited@, cell) ==> cell.0 > r || (cell.0 == r
                        && cell.1 >= c),
            decreases grid_size.cols - c,
        {
            proof {
                lemma_cell_number_bound(*grid_size, (r as int, c as int));
            }
            if !visited.get(r, c) {
                return Some((r, c));
            }
            c += 1;
        }
        r += 1;
    }
    None
}

/// The cell that a stack entry names.
pub open spec fn stack_cell(entry: (i32, i32)) -> (int, int) {
    (entry.0 as int, entry.1 as int)
}

/// The stack holds, once each, exactly the cells that were seen but are
/// not yet counted.
#[verifier::opaque]
spec fn is_frontier(seen: Set<(int, int)>, done: Set<(int, int)>, stack: Seq<(i32, i32)>) -> bool {
    &&& forall|i: int|
        0 <= i < stack.len() ==> seen.contains(stack_cell(#[trigger] stack[i])) && !done.contains(
            stack_cell(stack[i]),
        )
    &&& forall|i: int, j: int| 0 <= i < j < stack.len() ==> stack[i] != stack[j]
    &&& forall|c: (int, int)|
        seen.contains(c) && !done.contains(c) ==> exists|i: int|
            0 <= i < stack.len() && c == stack_cell(#[trigger] stack[i])
}

/// Every free cell adjacent to a counted cell has been seen.
#[verifier::opaque]
spec fn is_expanded(
    grid: GridSize,
    blocked: Set<(int, int)>,
    done: Set<(int, int)>,
    seen: Set<(int, int)>,
) -> bool {
    forall|p: (int, int), q: (int, int)|
        done.contains(p) && #[trigger] adjacent(p, q) && is_free(grid, blocked, q)
            ==> seen.contains(q)
}

/// Every seen cell is free and reachable from the origin.
#[verifier::opaque]
spec fn is_reached(
    grid: GridSize,
    blocked: Set<(int, int)>,
    origin: (int, int),
    seen: Set<(int, int)>,
) -> bool {
    forall|c: (int, int)|
        seen.contains(c) ==> is_free(grid, blocked, c) && reachable(grid, blocked, origin, c)
}

proof fn lemma_frontier_start(start: (i32, i32))
    ensures
        is_frontier(
            Set::<(int, int)>::empty().insert(stack_cell(start)),
            Set::empty(),
            seq![start],
        ),
{
    reveal(is_frontier);
    let stack = seq![start];
    assert(stack[0] == start);
}

proof fn lemma_frontier_pop(seen: Set<(int, int)>, done: Set<(int, int)>, stack: Seq<(i32, i32)>)
    requires
        is_frontier(seen, done, stack),
        stack.len() > 0,
    ensures
        seen.contains(stack_cell(stack.last())),
        !done.contains(stack_cell(stack.last())),
        is_frontier(seen, done.insert(stack_cell(stack.last())), stack.drop_last()),
{
    reveal(is_frontier);
    let top = stack.last();
    let rest = stack.drop_last();
    let done2 = done.insert(stack_cell(top));
    assert forall|i: int| 0 <= i < rest.len() implies seen.contains(
        stack_cell(#[trigger] rest[i]),
    ) && !done2.contains(stack_cell(rest[i])) by {
        assert(rest[i] == stack[i]);
        assert(stack[i] != stack[stack.len() - 1]);
    }
    assert forall|i: int, j: int| 0 <= i < j < rest.len() implies rest[i] != rest[j] by {
        assert(rest[i] == stack[i] && rest[j] == stack[j]);
    }
    assert forall|c: (int, int)| seen.contains(c) && !done2.contains(c) implies exists|i: int|
        0 <= i < rest.len() && c == stack_cell(#[trigger] rest[i]) by {
        let i = choose|i: int| 0 <= i < stack.len() && c == stack_cell(#[trigger] stack[i]);
        assert(rest[i] == stack[i]);
    }
}

proof fn lemma_frontier_push(
    seen: Set<(int, int)>,
    done: Set<(int, int)>,
    stack: Seq<(i32, i32)>,
    next: (i32, i32),
)
    requires
        is_frontier(seen, done, stack),
        done.subset_of(seen),
        !seen.contains(stack_cell(next)),
    ensures
        is_frontier(seen.insert(stack_cell(next)), done, stack.push(next)),
{
    reveal(is_frontier);
    let seen2 = seen.insert(stack_cell(next));
    let stack2 = stack.push(next);
    assert forall|i: int| 0 <= i < stack2.len() implies seen2.contains(
        stack_cell(#[trigger] stack2[i]),
    ) && !done.contains(stack_cell(stack2[i])) by {
        if i < stack.len() {
            assert(stack2[i] == stack[i]);
        }
    }
    assert forall|i: int, j: int| 0 <= i < j < stack2.len() implies stack2[i] != stack2[j] by {
        if j == stack.len() {
            assert(stack2[i] == stack[i]);
            assert(seen.contains(stack_cell(stack[i])));
        } else {
            assert(stack2[i] == stack[i] && stack2[j] == stack[j]);
        }
    }
    assert forall|c: (int, int)| seen2.contains(c) && !done.contains(c) implies exists|i: int|
        0 <= i < stack2.len() && c == stack_cell(#[trigger] stack2[i]) by {
        if c == stack_cell(next) {
            assert(stack2[stack.len() as int] == next);
        } else {
            let i = choose|i: int| 0 <= i < stack.len() && c == stack_cell(#[trigger] stack[i]);
            assert(stack2[i] == stack[i]);
        }
    }
}

proof fn lemma_frontier_empty(seen: Set<(int, int)>, done: Set<(int, int)>, stack: Seq<(i32, i32)>)
    requires
        is_frontier(seen, done, stack),
        stack.len() == 0,
        done.subset_of(seen),
    ensures
        seen == done,
{
    reveal(is_frontier);
    assert(seen =~= done);
}

proof fn lemma_expanded_grows(
    grid: GridSize,
    blocked: Set<(int, int)>,
    done: Set<(int, int)>,
    seen: Set<(int, int)>,
    next: (int, int),
)
    requires
        is_expanded(grid, blocked, done, seen),
    ensures
        is_expanded(grid, blocked, done, seen.insert(next)),
{
    reveal(is_expanded);
}

proof fn lemma_expanded_cell(
    grid: GridSize,
    blocked: Set<(int, int)>,
    done: Set<(int, int)>,
    seen: Set<(int, int)>,
    here: (int, int),
)
    requires
        is_expanded(grid, blocked, done, seen),
        forall|d: int|
            0 <= d < 4 && is_free(grid, blocked, step(here, d)) ==> seen.contains(
                #[trigger] step(here, d),
            ),
    ensures
        is_expanded(grid, blocked, done.insert(here), seen),
{
    reveal(is_expanded);
    assert forall|p: (int, int), q: (int, int)|
        done.insert(here).contains(p) && #[trigger] adjacent(p, q) && is_free(
            grid,
            blocked,
            q,
        ) implies seen.contains(q) by {
        if p == here && !done.contains(p) {
            lemma_adjacent_is_step(here, q);
            let d = choose|d: int| 0 <= d < 4 && q == #[trigger] step(here, d);
            assert(seen.contains(step(here, d)));
        }
    }
}

proof fn lemma_reached_grows(
    grid: GridSize,
    blocked: Set<(int, int)>,
    origin: (int, int),
    seen: Set<(int, int)>,
    here: (int, int),
    next: (int, int),
)
    requires
        is_reached(grid, blocked, origin, seen),
        is_free(grid, blocked, origin),
        here == next || (seen.contains(here) && adjacent(here, next)),
        is_free(grid, blocked, next),
        here == next ==> next == origin,
    ensures
        is_reached(grid, blocked, origin, seen.insert(next)),
{
    reveal(is_reached);
    if here == next {
        lemma_reachable_step(grid, blocked, origin, origin, origin);
    } else {
        lemma_reachable_step(grid, blocked, origin, here, next);
    }
}

proof fn lemma_counted_within_component(
    grid: GridSize,
    blocked: Set<(int, int)>,
    origin: (int, int),
    seen: Set<(int, int)>,
    done: Set<(int, int)>,
)
    requires
        is_reached(grid, blocked, origin, seen),
        done.subset_of(seen),
    ensures
        done.len() <= component(grid, blocked, origin).len(),
{
    reveal(is_reached);
    lemma_component_finite(grid, blocked, origin);
    assert(done.subset_of(component(grid, blocked, origin)));
    vstd::set_lib::lemma_len_subset(done, component(grid, blocked, origin));
}

proof fn lemma_counted_is_component(
    grid: GridSize,
    blocked: Set<(int, int)>,
    origin: (int, int),
    done: Set<(int, int)>,
)
    requires
        is_reached(grid, blocked, origin, done),
        is_expanded(grid, blocked, done, done),
        done.contains(origin),
    ensures
        component(grid, blocked, origin) == done,
{
    reveal(is_reached);
    reveal(is_expanded);
    lemma_closed_set_holds_component(grid, blocked, origin, done);
    assert(component(grid, blocked, origin) =~= done);
}

/// Whether the unvisited cells still hang together: counts the cells
/// reachable from the first unvisited one and answers as soon as the count
/// reaches `unvisited_count`.
pub fn is_remaining_connected(
    grid_size: &GridSize,
    visited: &VisitedBitset,
    unvisited_count: usize,
) -> (connected: bool)
    requires
        grid_size.wf(),
        visited.width() == grid_size.cols,
    ensures
        connected == spec_remaining_connected(*grid_size, visited@, unvisited_count as int),
{
    if unvisited_count <= 1 {
        return true;
    }
    let start = match first_unvisited(grid_size, visited) {
        Some(s) => s,
        None => {
            return true;
        },
    };
    let ghost origin = stack_cell(start);
    let ghost grid = *grid_size;
    let ghost blocked = visited@;
    proof {
        lemma_cell_number_bound(grid, origin);
        lemma_first_free_unique(grid, blocked, origin);
    }

    let mut dfs_visited = VisitedBitset::new(grid_size.cols as usize);
    let mut stack: Vec<(i32, i32)> = Vec::with_capacity(
        if unvisited_count < 64 { unvisited_count } else { 64 },
    );
    let mut reachable_count: usize = 0;
    let ghost mut done: Set<(int, int)> = Set::empty();

    stack.push(start);
    dfs_visited.set(start.0, start.1);
    proof {
        lemma_frontier_start(start);
        assert(stack@ =~= seq![start]);
        assert(is_reached(grid, blocked, origin, Set::empty())) by {
            reveal(is_reached);
        }
        lemma_reached_grows(grid, blocked, origin, Set::empty(), origin, origin);
        assert(is_expanded(grid, blocked, done, dfs_visited@)) by {
            reveal(is_expanded);
        }
    }

    while stack.len() > 0
        invariant
            grid == *grid_size,
            blocked == visited@,
            grid.wf(),
            visited.width() == grid.cols,
            dfs_visited.width() == grid.cols,
            is_free(grid, blocked, origin),
            is_first_free(grid, blocked, origin),
            unvisited_count > 1,
            reachable_count < unvisited_count,
            done.finite(),
            done.len() == reachable_count,
            done.subset_of(dfs_visited@),
            dfs_visited@.contains(origin),
            is_reached(grid, blocked, origin, dfs_visited@),
            is_frontier(dfs_visited@, done, stack@),
            is_expanded(grid, blocked, done, dfs_visited@),
        decreases unvisited_count - reachable_count,
    {
        let ghost before = stack@;
        let ghost done_before = done;
        let (r, c) = stack.pop().unwrap();
        let ghost here = (r as int, c as int);
        proof {
            lemma_frontier_pop(dfs_visited@, done, before);
            assert(before.last() == (r, c));
            assert(stack@ =~= before.drop_last());
            done = done.insert(here);
            assert(is_free(grid, blocked, here)) by {
                reveal(is_reached);
            }
        }
        reachable_count += 1;
        if reachable_count == unvisited_count {
            proof {
                lemma_counted_within_component(grid, blocked, origin, dfs_visited@, done);
            }
            return true;
        }
        let mut k: usize = 0;
        while k < 4
            invariant
                k <= 4,
                here == (r as int, c as int),
                grid == *grid_size,
                blocked == visited@,
                grid.wf(),
                grid.contains(here),
                visited.width() == grid.cols,
                dfs_visited.width() == grid.cols,
                is_free(grid, blocked, origin),
                done.subset_of(dfs_visited@),
                dfs_visited@.contains(origin),
                dfs_visited@.contains(here),
                is_reached(grid, blocked, origin, dfs_visited@),
                is_frontier(dfs_visited@, done, stack@),
                is_expanded(grid, blocked, done_before, dfs_visited@),
                forall|d: int|
                    0 <= d < k && is_free(grid, blocked, step(here, d)) ==> dfs_visited@.contains(
                        #[trigger] step(here, d),
                    ),
            decreases 4 - k,
        {
            let (dr, dc, _) = direction(k);
            let nr = r + dr;
            let nc = c + dc;
            let ghost next = (nr as int, nc as int);
            assert(step(here, k as int) == next);
            if is_in_bounds(nr, nc, grid_size) {
                proof {
                    lemma_cell_number_bound(grid, next);
                }
                if !visited.get(nr, nc) && !dfs_visited.get(nr, nc) {
                    proof {
                        lemma_adjacent_is_step(here, next);
                        lemma_frontier_push(dfs_visited@, done, stack@, (nr, nc));
                        lemma_reached_grows(grid, blocked, origin, dfs_visited@, here, next);
                        lemma_expanded_grows(grid, blocked, done_before, dfs_visited@, next);
                    }
                    dfs_visited.set(nr, nc);
                    stack.push((nr, nc));
                }
            }
            k += 1;
        }
        proof {
            lemma_expanded_cell(grid, blocked, done_before, dfs_visited@, here);
        }
    }
    proof {
        lemma_frontier_empty(dfs_visited@, done, stack@);
        lemma_counted_is_component(grid, blocked, origin, done);
        lemma_first_free_unique(grid, blocked, origin);
    }
    reachable_count == unvisited_count
}

/// There is at most one first free cell.
pub proof fn lemma_first_free_unique(grid: GridSize, visited: Set<(int, int)>, cell: (int, int))
    requires
        is_first_free(grid, visited, cell),
    ensures
        forall|other: (int, int)| #[trigger] is_first_free(grid, visited, other) ==> other == cell,
{
    assert forall|other: (int, int)| #[trigger] is_first_free(grid, visited, other) implies other
        == cell by {
        assert(is_free(grid, visited, other));
        assert(is_free(grid, visited, cell));
    }
}

} // verus!
