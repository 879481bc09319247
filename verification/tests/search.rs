use hamiltonian_wasm::{
    find_hamiltonian_path, find_hamiltonian_path_internal, get_cell_parity, GridSize, PathResult,
    Point,
};

fn pt(row: i32, col: i32) -> Point {
    Point { row, col }
}

fn grid(rows: i32, cols: i32) -> GridSize {
    GridSize { rows, cols }
}

fn assert_hamiltonian(result: &PathResult, start: Point, end: Point, size: GridSize) {
    assert!(result.found);
    assert_eq!(result.path.len(), (size.rows * size.cols) as usize);
    assert_eq!(result.path[0], start);
    assert_eq!(*result.path.last().unwrap(), end);
    for (i, p) in result.path.iter().enumerate() {
        assert!(p.row >= 0 && p.row < size.rows && p.col >= 0 && p.col < size.cols);
        for q in &result.path[i + 1..] {
            assert_ne!(p, q);
        }
    }
    for pair in result.path.windows(2) {
        let step = (pair[0].row - pair[1].row).abs() + (pair[0].col - pair[1].col).abs();
        assert_eq!(step, 1);
    }
}

#[test]
fn test_2x2_grid() {
    let result = find_hamiltonian_path_internal(pt(0, 0), pt(0, 1), grid(2, 2), 100000);
    assert!(result.found);
    assert_eq!(result.path.len(), 4);
}

#[test]
fn test_3x3_grid() {
    let result = find_hamiltonian_path_internal(pt(0, 0), pt(2, 2), grid(3, 3), 100000);
    assert!(result.found);
    assert_eq!(result.path.len(), 9);
}

#[test]
fn test_same_parity_even_grid_fails() {
    let result = find_hamiltonian_path_internal(pt(0, 0), pt(0, 2), grid(2, 4), 100000);
    assert!(!result.found);
}

#[test]
fn test_parity() {
    assert_eq!(get_cell_parity(0, 0), 0);
    assert_eq!(get_cell_parity(0, 1), 1);
    assert_eq!(get_cell_parity(1, 0), 1);
    assert_eq!(get_cell_parity(1, 1), 0);
}

#[test]
fn two_by_two_path_is_exact() {
    let result = find_hamiltonian_path_internal(pt(0, 0), pt(0, 1), grid(2, 2), 100000);
    assert!(result.found);
    assert_eq!(result.path, vec![pt(0, 0), pt(1, 0), pt(1, 1), pt(0, 1)]);
    assert_eq!(result.iterations, 4);
}

#[test]
fn found_paths_are_hamiltonian() {
    let cases = [
        (pt(0, 0), pt(0, 1), grid(2, 2)),
        (pt(0, 0), pt(2, 2), grid(3, 3)),
        (pt(0, 0), pt(1, 0), grid(2, 4)),
        (pt(0, 0), pt(3, 0), grid(4, 4)),
        (pt(1, 1), pt(0, 0), grid(3, 3)),
        (pt(0, 0), pt(4, 4), grid(5, 5)),
        (pt(0, 0), pt(0, 5), grid(1, 6)),
        (pt(0, 0), pt(5, 4), grid(6, 6)),
    ];
    for (start, end, size) in cases {
        let result = find_hamiltonian_path_internal(start, end, size, 100000);
        if result.found {
            assert_hamiltonian(&result, start, end, size);
        } else {
            assert!(result.path.is_empty());
        }
    }
}

#[test]
fn three_by_three_corner_to_corner_is_hamiltonian() {
    let result = find_hamiltonian_path_internal(pt(0, 0), pt(2, 2), grid(3, 3), 100000);
    assert_hamiltonian(&result, pt(0, 0), pt(2, 2), grid(3, 3));
}

#[test]
fn same_parity_on_even_grid_takes_no_iterations() {
    for rows in 1..5 {
        for cols in 1..5 {
            if (rows * cols) % 2 != 0 {
                continue;
            }
            for sr in 0..rows {
                for sc in 0..cols {
                    for er in 0..rows {
                        for ec in 0..cols {
                            if (sr + sc) % 2 != (er + ec) % 2 {
                                continue;
                            }
                            let r = find_hamiltonian_path_internal(
                                pt(sr, sc),
                                pt(er, ec),
                                grid(rows, cols),
                                1000,
                            );
                            assert!(!r.found);
                            assert_eq!(r.iterations, 0);
                            assert!(r.path.is_empty());
                        }
                    }
                }
            }
        }
    }
}

#[test]
fn different_parity_on_odd_grid_takes_no_iterations() {
    for (rows, cols) in [(1, 3), (3, 3), (3, 5), (5, 5)] {
        for sr in 0..rows {
            for sc in 0..cols {
                for er in 0..rows {
                    for ec in 0..cols {
                        if (sr + sc) % 2 == (er + ec) % 2 {
                            continue;
                        }
                        let r = find_hamiltonian_path_internal(
                            pt(sr, sc),
                            pt(er, ec),
                            grid(rows, cols),
                            1000,
                        );
                        assert!(!r.found);
                        assert_eq!(r.iterations, 0);
                    }
                }
            }
        }
    }
}

#[test]
fn equal_endpoints_fail_whatever_the_budget() {
    for budget in [0u32, 1, 100000, u32::MAX] {
        let r = find_hamiltonian_path_internal(pt(1, 1), pt(1, 1), grid(3, 3), budget);
        assert!(!r.found);
        assert_eq!(r.iterations, 0);
        assert!(r.path.is_empty());
    }
    let r = find_hamiltonian_path_internal(pt(0, 0), pt(0, 0), grid(1, 1), 10);
    assert!(!r.found);
    assert_eq!(r.iterations, 0);
}

#[test]
fn iterations_grow_with_the_budget() {
    let problems = [
        (pt(0, 0), pt(0, 1), grid(2, 2)),
        (pt(0, 0), pt(2, 2), grid(3, 3)),
        (pt(0, 0), pt(3, 0), grid(4, 4)),
        (pt(1, 1), pt(0, 1), grid(4, 4)),
        (pt(0, 1), pt(2, 1), grid(3, 3)),
    ];
    for (start, end, size) in problems {
        let mut last = 0u32;
        let mut was_found = false;
        for budget in 0..200u32 {
            let r = find_hamiltonian_path_internal(start, end, size, budget);
            assert!(r.iterations >= last);
            assert!(r.iterations <= budget + 1);
            if r.found {
                assert!(r.iterations <= budget);
            }
            if was_found {
                assert!(r.found);
                assert_eq!(r.iterations, last);
            }
            was_found = r.found;
            last = r.iterations;
        }
    }
}

#[test]
fn budget_exhaustion_stops_one_past_the_budget() {
    // The 2x2 search needs four visits.
    let r = find_hamiltonian_path_internal(pt(0, 0), pt(0, 1), grid(2, 2), 2);
    assert!(!r.found);
    assert!(r.path.is_empty());
    assert_eq!(r.iterations, 3);
    // The fourth visit exceeds a budget of three: it is counted and does nothing.
    let r = find_hamiltonian_path_internal(pt(0, 0), pt(0, 1), grid(2, 2), 3);
    assert!(!r.found);
    assert!(r.path.is_empty());
    assert_eq!(r.iterations, 4);
    let r = find_hamiltonian_path_internal(pt(0, 0), pt(0, 1), grid(2, 2), 4);
    assert!(r.found);
    assert_eq!(r.iterations, 4);
    assert_eq!(r.path, vec![pt(0, 0), pt(1, 0), pt(1, 1), pt(0, 1)]);
}

#[test]
fn zero_budget_counts_one_visit_and_does_nothing() {
    let r = find_hamiltonian_path_internal(pt(0, 0), pt(0, 1), grid(1, 2), 0);
    assert!(!r.found);
    assert!(r.path.is_empty());
    assert_eq!(r.iterations, 1);
    let r = find_hamiltonian_path_internal(pt(0, 0), pt(0, 1), grid(1, 2), 1);
    assert!(!r.found);
    assert!(r.path.is_empty());
    assert_eq!(r.iterations, 2);
    let r = find_hamiltonian_path_internal(pt(0, 0), pt(0, 1), grid(1, 2), 2);
    assert!(r.found);
    assert_eq!(r.iterations, 2);
    assert_eq!(r.path, vec![pt(0, 0), pt(0, 1)]);
}

#[test]
fn success_is_recorded_within_the_budget_only() {
    let problems = [
        (pt(0, 0), pt(0, 1), grid(2, 2)),
        (pt(0, 0), pt(2, 2), grid(3, 3)),
        (pt(0, 0), pt(3, 0), grid(4, 4)),
        (pt(0, 0), pt(0, 5), grid(1, 6)),
    ];
    for (start, end, size) in problems {
        let free = find_hamiltonian_path_internal(start, end, size, 100000);
        assert!(free.found);
        let needed = free.iterations;
        for budget in 0..needed + 3 {
            let r = find_hamiltonian_path_internal(start, end, size, budget);
            assert_eq!(r.found, budget >= needed);
            if r.found {
                assert!(r.iterations <= budget);
                assert_eq!(r.iterations, needed);
                assert_eq!(r.path, free.path);
            } else {
                assert_eq!(r.iterations, budget + 1);
                assert!(r.path.is_empty());
            }
        }
    }
}

#[test]
fn largest_budget_is_accepted() {
    let r = find_hamiltonian_path_internal(pt(0, 0), pt(0, 1), grid(2, 2), u32::MAX);
    assert!(r.found);
    assert_eq!(r.iterations, 4);
}

#[test]
fn exhausted_search_tree_reports_its_size() {
    // A strip walked end to end needs one visit per cell.
    let r = find_hamiltonian_path_internal(pt(0, 0), pt(0, 2), grid(1, 3), 100000);
    assert!(r.found);
    assert_eq!(r.iterations, 3);
    // From the second cell of a strip no path covers it, though the colours allow one.
    let r = find_hamiltonian_path_internal(pt(0, 1), pt(0, 2), grid(1, 4), 100000);
    assert!(!r.found);
    assert_eq!(r.iterations, 3);
    assert!(r.iterations <= 100001);
    let again = find_hamiltonian_path_internal(pt(0, 1), pt(0, 2), grid(1, 4), 100000);
    assert_eq!(r.iterations, again.iterations);
}

#[test]
fn twenty_by_twenty_is_supported() {
    let r = find_hamiltonian_path_internal(pt(0, 0), pt(19, 0), grid(20, 20), 200000);
    if r.found {
        assert_hamiltonian(&r, pt(0, 0), pt(19, 0), grid(20, 20));
    } else {
        assert!(r.iterations > 0);
    }
}

#[test]
fn coordinates_entry_agrees_with_the_search() {
    let a = find_hamiltonian_path(0, 0, 2, 2, 3, 3, 100000);
    let b = find_hamiltonian_path_internal(pt(0, 0), pt(2, 2), grid(3, 3), 100000);
    assert_eq!(a.found, b.found);
    assert_eq!(a.path, b.path);
    assert_eq!(a.iterations, b.iterations);
    assert!(a.found);
}

#[test]
fn malformed_requests_are_rejected() {
    let rejected = [
        find_hamiltonian_path(0, 0, 0, 1, 0, 2, 100),
        find_hamiltonian_path(0, 0, 0, 1, 2, 0, 100),
        find_hamiltonian_path(0, 0, 0, 1, -1, 2, 100),
        find_hamiltonian_path(-1, 0, 0, 1, 2, 2, 100),
        find_hamiltonian_path(0, 0, 0, 2, 2, 2, 100),
        find_hamiltonian_path(0, 0, 2, 1, 2, 2, 100),
        find_hamiltonian_path(0, 0, 0, 1, 21, 22, 100),
        find_hamiltonian_path(0, 0, 0, 1, 65536, 65536, 100),
    ];
    for r in rejected {
        assert!(!r.found);
        assert!(r.path.is_empty());
        assert_eq!(r.iterations, 0);
    }
    let widest = find_hamiltonian_path(0, 0, 0, 447, 1, 448, 448);
    assert!(widest.found);
    assert_eq!(widest.path.len(), 448);
    assert_eq!(widest.iterations, 448);
    let short = find_hamiltonian_path(0, 0, 0, 447, 1, 448, 447);
    assert!(!short.found);
    assert_eq!(short.iterations, 448);
}

fn path_exists(size: GridSize, path: &mut Vec<Point>, end: Point) -> bool {
    let total = (size.rows * size.cols) as usize;
    let last = *path.last().unwrap();
    if path.len() == total {
        return last == end;
    }
    for (dr, dc) in [(-1, 0), (1, 0), (0, -1), (0, 1)] {
        let next = pt(last.row + dr, last.col + dc);
        let inside = next.row >= 0 && next.row < size.rows && next.col >= 0 && next.col < size.cols;
        if inside && !path.contains(&next) {
            path.push(next);
            let found = path_exists(size, path, end);
            path.pop();
            if found {
                return true;
            }
        }
    }
    false
}

#[test]
fn search_finds_a_path_exactly_where_one_exists() {
    for (rows, cols) in [(1, 1), (1, 2), (1, 4), (2, 2), (2, 3), (3, 3), (2, 5), (3, 4), (4, 4)] {
        let size = grid(rows, cols);
        for sr in 0..rows {
            for sc in 0..cols {
                for er in 0..rows {
                    for ec in 0..cols {
                        let (start, end) = (pt(sr, sc), pt(er, ec));
                        if start == end {
                            continue;
                        }
                        let r = find_hamiltonian_path_internal(start, end, size, 1000000);
                        assert!(r.iterations <= 1000000);
                        let exists = path_exists(size, &mut vec![start], end);
                        assert_eq!(r.found, exists);
                        if r.found {
                            assert_hamiltonian(&r, start, end, size);
                        }
                    }
                }
            }
        }
    }
}
