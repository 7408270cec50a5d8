use aoc23::cycle::{extrapolate, simulate_naively};
use aoc23::garden::{block_unreachable_spots, Garden, TileType};
use aoc23::grid::Grid;

fn garden() -> Garden {
    // the rocks make the spread oscillate instead of settling
    Garden::from_text("S....\n.#.#.\n.....\n.#.#.\n....#\n").unwrap()
}

#[test]
fn extrapolate_matches_naive_simulation() {
    // the spread becomes periodic quickly; jumping ahead with the cycle
    // detector must land on the same state as stepping one by one
    for n in 0..40u64 {
        let a = extrapolate(garden(), n);
        let b = simulate_naively(garden(), n);
        assert_eq!(a.count_reached(), b.count_reached());
    }
}

#[test]
fn extrapolate_far_beyond_the_cycle() {
    // a huge step count is reduced modulo the period: its parity decides
    let far = extrapolate(garden(), 1_000_000_000);
    let far_plus_cycle = extrapolate(garden(), 1_000_000_002);
    assert_eq!(far.count_reached(), far_plus_cycle.count_reached());
}

#[test]
fn step_once_spreads_to_neighbors() {
    let g = Garden::from_text("S..\n...\n...\n").unwrap();
    assert_eq!(g.count_reached(), 1);
    let g1 = g.step_once();
    // the start cell itself is no longer reached; its two neighbors are
    assert_eq!(g1.count_reached(), 2);
    let g2 = g1.step_once();
    assert_eq!(g2.count_reached(), 4);
}

#[test]
fn garden_parsing_rejects_unknown_symbols() {
    assert!(Garden::from_text("S.x\n...\n...\n").is_err());
    assert!(Garden::from_text("").is_err());
}

#[test]
fn walled_in_plots_become_rocks() {
    let map = Grid::from_lines_mapped(".#.\n#.#\n.#.\n", |b| {
        if b == b'#' {
            TileType::Rock
        } else {
            TileType::GardenPlot
        }
    })
    .unwrap();
    let blocked = block_unreachable_spots(&map);
    // the center plot is walled in on all four sides
    assert!(matches!(blocked.lines[1][1], TileType::Rock));
    // corner plots keep their type: their diagonal walls do not count
    assert!(matches!(blocked.lines[0][0], TileType::GardenPlot));
}
