use aoc23::grid::Grid;
use aoc23::pathfind::{find_path, PathError};

fn cost_grid(text: &str) -> Grid<u8> {
    Grid::from_lines_mapped(text, |b| b - b'0').unwrap()
}

#[test]
fn uniform_grid_equals_plain_shortest_path() {
    // on a uniform-cost grid with runs of exactly one cell the result is
    // the plain four-directional shortest path: Manhattan distance times
    // the cell cost
    let g = cost_grid("111\n111\n111\n");
    assert_eq!(find_path(&g, 1, 1), Ok(4));
    let g2 = cost_grid("11111\n11111\n11111\n11111\n11111\n");
    assert_eq!(find_path(&g2, 1, 1), Ok(8));
    let g3 = cost_grid("22\n22\n");
    assert_eq!(find_path(&g3, 1, 1), Ok(4));
}

#[test]
fn longer_runs_allowed() {
    let g = cost_grid("111\n111\n111\n");
    assert_eq!(find_path(&g, 1, 3), Ok(4));
}

#[test]
fn run_constraints_make_detours_pay() {
    // the cheap straight row is barred once a run may not exceed two
    // cells without a turn
    let g = cost_grid("1119\n9991\n9991\n");
    let unconstrained = find_path(&g, 1, 3).unwrap();
    let constrained = find_path(&g, 1, 2).unwrap();
    assert!(constrained >= unconstrained);
}

#[test]
fn worked_example_minimal_heat_loss() {
    let text = [
        "2413432311323",
        "3215453535623",
        "3255245654254",
        "3446585845452",
        "4546657867536",
        "1438598798454",
        "4457876987766",
        "3637877979653",
        "4654967986887",
        "4564679986453",
        "1224686865563",
        "2546548887735",
        "4322674655533",
    ]
    .join("\n");
    let g = cost_grid(&text);
    assert_eq!(find_path(&g, 1, 3), Ok(102));
    assert_eq!(find_path(&g, 4, 10), Ok(94));
}

#[test]
fn unreachable_destination_is_signalled() {
    // runs of exactly five cells can never land on the corner of a 3x3
    let g = cost_grid("111\n111\n111\n");
    assert_eq!(find_path(&g, 5, 5), Err(PathError::NoPathFound));
}
