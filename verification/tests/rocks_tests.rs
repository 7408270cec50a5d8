use aoc23::cycle::{extrapolate, simulate_naively, Simulate};
use aoc23::grid::Dir;
use aoc23::rocks::{spin_cycle, tilt, Platform};

fn platform_text() -> String {
    [
        "O....#....",
        "O.OO#....#",
        ".....##...",
        "OO.#O....O",
        ".O.....O#.",
        "O.#..O.#.#",
        "..O..#O..O",
        ".......O..",
        "#....###..",
        "#OO..#....",
    ]
    .join("\n")
}

#[test]
fn tilt_north_load() {
    // after one tilt north the worked example's load is 136
    let p = Platform::from_text(&platform_text()).unwrap();
    let tilted = Platform::from_grid(tilt(&p.as_grid(), Dir::Up)).unwrap();
    assert_eq!(tilted.north_load(), 136);
}

#[test]
fn spin_cycle_keeps_rock_count() {
    let p = Platform::from_text(&platform_text()).unwrap();
    let k0 = p.key();
    let spun = p.spin();
    let k1 = spun.key();
    let rounds = |k: &Vec<u64>| k.iter().filter(|c| **c == 2).count();
    let squares = |k: &Vec<u64>| k.iter().filter(|c| **c == 1).count();
    assert_eq!(rounds(&k0), rounds(&k1));
    assert_eq!(squares(&k0), squares(&k1));
}

#[test]
fn a_billion_spins_by_extrapolation() {
    // the worked example settles into a cycle; after a billion spins the
    // north load is 64
    let p = Platform::from_text(&platform_text()).unwrap();
    let settled = extrapolate(p, 1_000_000_000);
    assert_eq!(settled.north_load(), 64);
}

#[test]
fn extrapolation_matches_naive_spinning() {
    for n in 0..25u64 {
        let a = extrapolate(Platform::from_text(&platform_text()).unwrap(), n);
        let b = simulate_naively(Platform::from_text(&platform_text()).unwrap(), n);
        assert_eq!(a.key(), b.key());
    }
}

#[test]
fn tilting_rolls_rocks_to_the_edge() {
    let p = Platform::from_text("O.\n.O\n").unwrap();
    let north = tilt(&p.as_grid(), Dir::Up);
    // both round rocks end in row 0
    assert_eq!(
        north.lines[0]
            .iter()
            .filter(|r| matches!(r, aoc23::rocks::Rock::Round))
            .count(),
        2
    );
    let spun = spin_cycle(&p.as_grid());
    // after a full spin the rocks sit in the south-east corner area
    assert!(matches!(spun.lines[1][1], aoc23::rocks::Rock::Round));
}

#[test]
fn platform_parsing_rejects_unknown_symbols() {
    assert!(Platform::from_text("O.x\n...\n").is_err());
    assert!(Platform::from_text("").is_err());
}
