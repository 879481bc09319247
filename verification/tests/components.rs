use hamiltonian_wasm::{
    backtrack, calculate_neighbor_priority, cell_parity, count_unvisited_neighbors, direction,
    first_unvisited,
    get_unvisited_neighbors, has_different_parity, is_corner, is_edge, is_in_bounds,
    is_likely_articulation_point, is_remaining_connected, is_valid_request, manhattan_distance,
    path_to_road_grid, path_to_road_grid_internal, sort_by_warnsdorff, GridSize, Point,
    VisitedBitset,
};

fn pt(row: i32, col: i32) -> Point {
    Point { row, col }
}

fn grid(rows: i32, cols: i32) -> GridSize {
    GridSize { rows, cols }
}

fn visited_with(cols: usize, cells: &[(i32, i32)]) -> VisitedBitset {
    let mut v = VisitedBitset::new(cols);
    for &(r, c) in cells {
        v.set(r, c);
    }
    v
}

#[test]
fn parity_is_zero_or_one_everywhere() {
    assert_eq!(cell_parity(0, 0), 0);
    assert_eq!(cell_parity(0, 1), 1);
    assert_eq!(cell_parity(1, 1), 0);
    assert_eq!(cell_parity(-1, 0), 1);
    assert_eq!(cell_parity(-1, -1), 0);
    assert_eq!(cell_parity(0, -3), 1);
    assert_eq!(cell_parity(i32::MAX, i32::MAX), 0);
    assert_eq!(cell_parity(i32::MAX, 0), 1);
    assert_eq!(cell_parity(i32::MIN, i32::MIN), 0);
    assert_eq!(cell_parity(i32::MIN, -1), 1);
}

#[test]
fn different_parity_compares_colours() {
    assert!(has_different_parity(0, 0, 0, 1));
    assert!(!has_different_parity(0, 0, 1, 1));
    assert!(!has_different_parity(0, 0, 0, 2));
    assert!(!has_different_parity(-1, 0, 0, 1));
    assert!(has_different_parity(-1, 0, 0, 0));
}

#[test]
fn bounds_are_half_open() {
    let g = grid(2, 3);
    assert!(is_in_bounds(0, 0, &g));
    assert!(is_in_bounds(1, 2, &g));
    assert!(!is_in_bounds(2, 0, &g));
    assert!(!is_in_bounds(0, 3, &g));
    assert!(!is_in_bounds(-1, 0, &g));
    assert!(!is_in_bounds(0, -1, &g));
}

#[test]
fn corners_and_edges() {
    let g = grid(3, 4);
    assert!(is_corner(0, 0, &g));
    assert!(is_corner(0, 3, &g));
    assert!(is_corner(2, 0, &g));
    assert!(is_corner(2, 3, &g));
    assert!(!is_corner(0, 1, &g));
    assert!(!is_corner(1, 1, &g));
    assert!(is_edge(0, 1, &g));
    assert!(is_edge(1, 0, &g));
    assert!(is_edge(1, 3, &g));
    assert!(is_edge(2, 2, &g));
    assert!(!is_edge(1, 1, &g));
    assert!(!is_edge(1, 2, &g));
}

#[test]
fn manhattan_distance_adds_both_axes() {
    assert_eq!(manhattan_distance(0, 0, 0, 0), 0);
    assert_eq!(manhattan_distance(0, 0, 2, 3), 5);
    assert_eq!(manhattan_distance(2, 3, 0, 0), 5);
    assert_eq!(manhattan_distance(4, 1, 1, 5), 7);
}

#[test]
fn bitset_marks_and_unmarks() {
    let mut v = VisitedBitset::new(20);
    for r in 0..20 {
        for c in 0..20 {
            assert!(!v.get(r, c));
        }
    }
    v.set(0, 0);
    v.set(3, 4);
    v.set(19, 19);
    assert!(v.get(0, 0));
    assert!(v.get(3, 4));
    assert!(v.get(19, 19));
    assert!(!v.get(3, 3));
    assert!(!v.get(4, 3));
    assert!(!v.get(3, 5));
    v.clear(3, 4);
    assert!(!v.get(3, 4));
    assert!(v.get(0, 0));
    assert!(v.get(19, 19));
    v.set(0, 0);
    assert!(v.get(0, 0));
    v.clear(3, 4);
    assert!(!v.get(3, 4));
}

#[test]
fn bitset_cells_do_not_interfere() {
    let mut v = VisitedBitset::new(7);
    for r in 0..64 {
        for c in 0..7 {
            if (r * 7 + c) % 3 == 0 {
                v.set(r, c);
            }
        }
    }
    for r in 0..64 {
        for c in 0..7 {
            assert_eq!(v.get(r, c), (r * 7 + c) % 3 == 0);
        }
    }
    assert_eq!(v.index(9, 1), (1, 0));
    assert_eq!(v.index(63, 6), (6, 63));
}

#[test]
fn neighbours_come_up_down_left_right() {
    let g = grid(3, 3);
    let v = VisitedBitset::new(3);
    assert_eq!(
        get_unvisited_neighbors(1, 1, &g, &v),
        vec![(0, 1, "up"), (2, 1, "down"), (1, 0, "left"), (1, 2, "right")]
    );
    assert_eq!(get_unvisited_neighbors(0, 0, &g, &v), vec![(1, 0, "down"), (0, 1, "right")]);
    assert_eq!(count_unvisited_neighbors(1, 1, &g, &v), 4);
    assert_eq!(count_unvisited_neighbors(0, 0, &g, &v), 2);
    let v = visited_with(3, &[(0, 1), (1, 2)]);
    assert_eq!(get_unvisited_neighbors(1, 1, &g, &v), vec![(2, 1, "down"), (1, 0, "left")]);
    assert_eq!(count_unvisited_neighbors(1, 1, &g, &v), 2);
    assert_eq!(count_unvisited_neighbors(0, 2, &g, &v), 0);
    assert!(get_unvisited_neighbors(0, 2, &g, &v).is_empty());
}

#[test]
fn priority_scores() {
    let g = grid(3, 3);
    let target = pt(2, 2);
    let v = visited_with(3, &[(0, 0)]);
    // Two free neighbours, boundary cell, distance 3, early game.
    assert_eq!(calculate_neighbor_priority(0, 1, &target, &g, &v, 8), 200 + 10 + 35 + 50);
    assert_eq!(calculate_neighbor_priority(1, 0, &target, &g, &v, 8), 295);
    // Five unvisited cells are still more than half of nine.
    assert_eq!(calculate_neighbor_priority(0, 1, &target, &g, &v, 5), 295);
    // Mid game: no distance term.
    assert_eq!(calculate_neighbor_priority(0, 1, &target, &g, &v, 4), 260);
    // End game: three times the distance.
    assert_eq!(calculate_neighbor_priority(0, 1, &target, &g, &v, 3), 269);
    assert_eq!(calculate_neighbor_priority(0, 1, &target, &g, &v, 0), 269);
    // The target itself.
    assert_eq!(calculate_neighbor_priority(2, 2, &target, &g, &v, 8), u32::MAX);
    // Interior cell with four free neighbours, distance 2.
    assert_eq!(calculate_neighbor_priority(1, 1, &target, &g, &v, 8), 400 + 20 + 40 + 50);
    // Corner with exactly one free neighbour: no urgency term.
    let v = visited_with(3, &[(0, 0), (0, 1)]);
    assert_eq!(calculate_neighbor_priority(0, 2, &target, &g, &v, 7), 100 + 0 + 40 + 0);
    // No free neighbour at all.
    let v = visited_with(3, &[(0, 1), (1, 0)]);
    assert_eq!(calculate_neighbor_priority(0, 0, &target, &g, &v, 4), 0 + 0 + 0 + 50);
    // Far from the target on a long strip the early-game term is zero.
    let g = grid(1, 20);
    let v = VisitedBitset::new(20);
    let target = pt(0, 19);
    assert_eq!(calculate_neighbor_priority(0, 1, &target, &g, &v, 19), 200 + 10 + 0 + 50);
    assert_eq!(calculate_neighbor_priority(0, 1, &target, &g, &v, 2), 200 + 10 + 54 + 50);
}

#[test]
fn ranking_puts_lower_scores_first_and_the_target_last() {
    let g = grid(3, 3);
    let v = visited_with(3, &[(1, 1)]);
    let target = pt(0, 1);
    let mut n = get_unvisited_neighbors(1, 1, &g, &v);
    assert_eq!(n, vec![(0, 1, "up"), (2, 1, "down"), (1, 0, "left"), (1, 2, "right")]);
    sort_by_warnsdorff(&mut n, &target, &g, &v, 8);
    // (2,1) is at distance 2 from the target, (1,0) and (1,2) at distance 2 as well.
    assert_eq!(n, vec![(2, 1, "down"), (1, 0, "left"), (1, 2, "right"), (0, 1, "up")]);
}

#[test]
fn ranking_is_stable_and_reorders() {
    let g = grid(3, 3);
    let v = visited_with(3, &[(0, 0), (1, 0)]);
    let target = pt(0, 2);
    // From (1,1): up (0,1) has one free neighbour, down (2,1) two, right (1,2) two.
    let mut n = get_unvisited_neighbors(1, 1, &g, &v);
    assert_eq!(n, vec![(0, 1, "up"), (2, 1, "down"), (1, 2, "right")]);
    let scores: Vec<u32> =
        n.iter().map(|e| calculate_neighbor_priority(e.0, e.1, &target, &g, &v, 6)).collect();
    sort_by_warnsdorff(&mut n, &target, &g, &v, 6);
    let mut expected = vec![(0, 1, "up"), (2, 1, "down"), (1, 2, "right")];
    let mut keyed: Vec<(u32, usize)> = scores.iter().cloned().zip(0..).collect();
    keyed.sort();
    let order: Vec<(i32, i32, &str)> = keyed.iter().map(|&(_, i)| expected[i]).collect();
    expected = order;
    assert_eq!(n, expected);
    // A list in descending score order is reversed.
    let v = VisitedBitset::new(3);
    let mut n = vec![(1, 1, "x"), (0, 1, "y"), (0, 0, "z")];
    sort_by_warnsdorff(&mut n, &pt(2, 2), &g, &v, 2);
    assert_eq!(n, vec![(0, 0, "z"), (0, 1, "y"), (1, 1, "x")]);
    let mut empty: Vec<(i32, i32, &'static str)> = Vec::new();
    sort_by_warnsdorff(&mut empty, &pt(2, 2), &g, &v, 2);
    assert!(empty.is_empty());
}

#[test]
fn first_unvisited_reads_row_by_row() {
    let g = grid(2, 3);
    assert_eq!(first_unvisited(&g, &VisitedBitset::new(3)), Some((0, 0)));
    let v = visited_with(3, &[(0, 0), (0, 1), (0, 2), (1, 0)]);
    assert_eq!(first_unvisited(&g, &v), Some((1, 1)));
    let v = visited_with(3, &[(0, 0), (0, 1), (0, 2), (1, 0), (1, 1), (1, 2)]);
    assert_eq!(first_unvisited(&g, &v), None);
}

#[test]
fn connectivity_of_the_remainder() {
    let g = grid(3, 3);
    // The middle column cuts the grid in two.
    let v = visited_with(3, &[(0, 1), (1, 1), (2, 1)]);
    assert!(!is_remaining_connected(&g, &v, 6));
    // Three cells can be reached from the first free cell.
    assert!(is_remaining_connected(&g, &v, 3));
    assert!(is_remaining_connected(&g, &v, 2));
    assert!(!is_remaining_connected(&g, &v, 4));
    // At most one cell said to remain: trivially connected.
    assert!(is_remaining_connected(&g, &v, 1));
    assert!(is_remaining_connected(&g, &v, 0));
    // An L-shaped remainder hangs together.
    let v = visited_with(3, &[(0, 0), (0, 1), (1, 0), (1, 1)]);
    assert!(is_remaining_connected(&g, &v, 5));
    assert!(!is_remaining_connected(&g, &v, 6));
    // Nothing free at all.
    let all: Vec<(i32, i32)> = (0..3).flat_map(|r| (0..3).map(move |c| (r, c))).collect();
    let v = visited_with(3, &all);
    assert!(is_remaining_connected(&g, &v, 5));
    // The empty grid is one region.
    assert!(is_remaining_connected(&g, &VisitedBitset::new(3), 9));
    assert!(!is_remaining_connected(&g, &VisitedBitset::new(3), 10));
    // A corner cut off from the rest.
    let v = visited_with(3, &[(0, 1), (1, 0)]);
    assert!(!is_remaining_connected(&g, &v, 7));
}

#[test]
fn cut_vertex_filter() {
    let g = grid(3, 3);
    let v = VisitedBitset::new(3);
    // A corner with exactly two free neighbours is judged safe.
    assert!(!is_likely_articulation_point(0, 0, &g, &v));
    // A boundary cell with three and an interior cell with four are not.
    assert!(is_likely_articulation_point(0, 1, &g, &v));
    assert!(is_likely_articulation_point(1, 1, &g, &v));
    // At most one free neighbour: safe.
    let v = visited_with(3, &[(0, 1)]);
    assert!(!is_likely_articulation_point(0, 0, &g, &v));
    let v = visited_with(3, &[(0, 1), (1, 0)]);
    assert!(!is_likely_articulation_point(0, 0, &g, &v));
    // A boundary cell with exactly two free neighbours is checked.
    let v = visited_with(3, &[(0, 0)]);
    assert!(is_likely_articulation_point(0, 1, &g, &v));
}

#[test]
fn request_validation() {
    assert!(is_valid_request(&pt(0, 0), &pt(1, 1), &grid(2, 2)));
    assert!(is_valid_request(&pt(0, 0), &pt(0, 0), &grid(1, 1)));
    assert!(is_valid_request(&pt(0, 0), &pt(19, 19), &grid(20, 20)));
    assert!(is_valid_request(&pt(0, 0), &pt(63, 6), &grid(64, 7)));
    assert!(!is_valid_request(&pt(0, 0), &pt(0, 0), &grid(449, 1)));
    assert!(!is_valid_request(&pt(0, 0), &pt(0, 0), &grid(1, 449)));
    assert!(!is_valid_request(&pt(0, 0), &pt(0, 0), &grid(21, 22)));
    assert!(!is_valid_request(&pt(0, 0), &pt(0, 0), &grid(0, 1)));
    assert!(!is_valid_request(&pt(0, 0), &pt(0, 0), &grid(1, 0)));
    assert!(!is_valid_request(&pt(0, 0), &pt(0, 0), &grid(-2, -2)));
    assert!(!is_valid_request(&pt(2, 0), &pt(0, 0), &grid(2, 2)));
    assert!(!is_valid_request(&pt(0, 0), &pt(0, -1), &grid(2, 2)));
    assert!(!is_valid_request(&pt(0, 0), &pt(0, 0), &grid(i32::MAX, i32::MAX)));
}

fn names(connections: &[String]) -> Vec<&str> {
    connections.iter().map(|s| s.as_str()).collect()
}

#[test]
fn road_grid_of_a_full_path() {
    let path = vec![pt(0, 0), pt(1, 0), pt(1, 1), pt(0, 1)];
    let g = path_to_road_grid_internal(&path, &grid(2, 2));
    assert_eq!(g.len(), 2);
    assert_eq!(g[0].len(), 2);
    assert_eq!(g[1].len(), 2);
    let at = |r: usize, c: usize| g[r][c].as_ref().unwrap();
    assert_eq!(at(0, 0).path_index, 0);
    assert_eq!(names(&at(0, 0).connections), vec!["down"]);
    assert_eq!(at(1, 0).path_index, 1);
    assert_eq!(names(&at(1, 0).connections), vec!["up", "right"]);
    assert_eq!(at(1, 1).path_index, 2);
    assert_eq!(names(&at(1, 1).connections), vec!["left", "up"]);
    assert_eq!(at(0, 1).path_index, 3);
    assert_eq!(names(&at(0, 1).connections), vec!["down"]);
}

#[test]
fn road_grid_leaves_other_cells_empty() {
    let path = vec![pt(1, 2), pt(1, 1), pt(0, 1)];
    let g = path_to_road_grid(&path, 3, 4);
    assert_eq!(g.len(), 3);
    let mut filled = 0;
    for (r, row) in g.iter().enumerate() {
        assert_eq!(row.len(), 4);
        for (c, cell) in row.iter().enumerate() {
            let on_path = path.iter().position(|p| p.row as usize == r && p.col as usize == c);
            match (cell, on_path) {
                (None, None) => {}
                (Some(data), Some(i)) => {
                    assert_eq!(data.path_index, i);
                    filled += 1;
                }
                _ => panic!("cell ({}, {}) does not match the path", r, c),
            }
        }
    }
    assert_eq!(filled, 3);
    assert_eq!(names(&g[1][2].as_ref().unwrap().connections), vec!["left"]);
    assert_eq!(names(&g[1][1].as_ref().unwrap().connections), vec!["right", "up"]);
    assert_eq!(names(&g[0][1].as_ref().unwrap().connections), vec!["down"]);
}

#[test]
fn road_grid_of_an_empty_path_is_empty() {
    let g = path_to_road_grid_internal(&[], &grid(2, 3));
    assert_eq!(g.len(), 2);
    for row in &g {
        assert_eq!(row.len(), 3);
        assert!(row.iter().all(|c| c.is_none()));
    }
    let g = path_to_road_grid(&[], 0, 0);
    assert!(g.is_empty());
    let g = path_to_road_grid(&[], 2, 0);
    assert_eq!(g.len(), 2);
    assert!(g[0].is_empty());
}

#[test]
fn road_grid_of_a_single_cell_has_no_connections() {
    let g = path_to_road_grid(&[pt(0, 0)], 1, 1);
    let data = g[0][0].as_ref().unwrap();
    assert_eq!(data.path_index, 0);
    assert!(data.connections.is_empty());
}

#[test]
fn road_grid_keeps_the_last_visit_of_a_repeated_cell() {
    let path = vec![pt(0, 0), pt(0, 1), pt(0, 0)];
    let g = path_to_road_grid(&path, 1, 2);
    let first = g[0][0].as_ref().unwrap();
    assert_eq!(first.path_index, 2);
    assert_eq!(names(&first.connections), vec!["right"]);
    let second = g[0][1].as_ref().unwrap();
    assert_eq!(second.path_index, 1);
    assert_eq!(names(&second.connections), vec!["left", "left"]);
}

#[test]
fn road_grid_compares_rows_before_columns() {
    // Cells that are not adjacent still get a direction, rows first.
    let path = vec![pt(0, 0), pt(2, 2), pt(2, 2)];
    let g = path_to_road_grid(&path, 3, 3);
    assert_eq!(names(&g[0][0].as_ref().unwrap().connections), vec!["down"]);
    let last = g[2][2].as_ref().unwrap();
    assert_eq!(last.path_index, 2);
    assert!(last.connections.is_empty());
}

#[test]
fn road_grid_of_a_found_path_has_two_connections_inside_one_at_the_ends() {
    let size = grid(4, 4);
    let result =
        hamiltonian_wasm::find_hamiltonian_path_internal(pt(0, 0), pt(3, 0), size, 100000);
    assert!(result.found);
    let g = path_to_road_grid_internal(&result.path, &size);
    for (i, p) in result.path.iter().enumerate() {
        let data = g[p.row as usize][p.col as usize].as_ref().unwrap();
        assert_eq!(data.path_index, i);
        let expected = if i == 0 || i == result.path.len() - 1 { 1 } else { 2 };
        assert_eq!(data.connections.len(), expected);
    }
    assert!(g.iter().all(|row| row.iter().all(|c| c.is_some())));
}

#[test]
fn directions_are_up_down_left_right() {
    assert_eq!(direction(0), (-1, 0, "up"));
    assert_eq!(direction(1), (1, 0, "down"));
    assert_eq!(direction(2), (0, -1, "left"));
    assert_eq!(direction(3), (0, 1, "right"));
}

#[test]
fn backtrack_extends_a_partial_path() {
    // Continue the 2x3 path (0,0), (1,0) towards (1,2).
    let g = grid(2, 3);
    let end = pt(1, 2);
    let mut path = vec![pt(0, 0), pt(1, 0)];
    let mut visited = visited_with(3, &[(0, 0), (1, 0)]);
    let mut iterations = 10u32;
    let mut found = false;
    let mut result = Vec::new();
    backtrack(&mut path, &end, &g, &mut visited, 4, 1000, &mut iterations, &mut found, &mut result);
    assert!(found);
    assert_eq!(result, path);
    assert_eq!(
        result,
        vec![pt(0, 0), pt(1, 0), pt(1, 1), pt(0, 1), pt(0, 2), pt(1, 2)]
    );
    assert_eq!(iterations, 15);
    // The same continuation under a budget that the fifth visit exceeds.
    let mut path = vec![pt(0, 0), pt(1, 0)];
    let mut visited = visited_with(3, &[(0, 0), (1, 0)]);
    let mut iterations = 10u32;
    let mut found = false;
    let mut result = Vec::new();
    backtrack(&mut path, &end, &g, &mut visited, 4, 14, &mut iterations, &mut found, &mut result);
    assert!(!found);
    assert_eq!(iterations, 15);
    assert_eq!(path, vec![pt(0, 0), pt(1, 0)]);
    assert!(result.is_empty());
    assert!(!visited.get(1, 1));
    for p in &result {
        assert!(visited.get(p.row, p.col));
    }
}

#[test]
fn backtrack_restores_its_state_on_failure() {
    let g = grid(2, 2);
    let end = pt(0, 1);
    let mut path = vec![pt(0, 0)];
    let mut visited = visited_with(2, &[(0, 0)]);
    let mut iterations = 0u32;
    let mut found = false;
    let mut result = vec![pt(1, 1)];
    // Under a budget of two the third visit is counted and does nothing.
    backtrack(&mut path, &end, &g, &mut visited, 3, 2, &mut iterations, &mut found, &mut result);
    assert!(!found);
    assert_eq!(iterations, 3);
    assert_eq!(path, vec![pt(0, 0)]);
    assert_eq!(result, vec![pt(1, 1)]);
    assert!(visited.get(0, 0));
    assert!(!visited.get(1, 0));
    assert!(!visited.get(1, 1));
    assert!(!visited.get(0, 1));
    // Entered with the counter at its cap, a node changes nothing.
    backtrack(&mut path, &end, &g, &mut visited, 3, 2, &mut iterations, &mut found, &mut result);
    assert!(!found);
    assert_eq!(iterations, 3);
    assert_eq!(path, vec![pt(0, 0)]);
}
