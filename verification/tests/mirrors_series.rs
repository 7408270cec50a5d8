use aoc23::grid::Grid;
use aoc23::mirrors::{find_horizontal_reflection, find_reflection, find_vertical_reflection};
use aoc23::series::{extrapolate, extrapolate_back};

fn pattern(text: &str) -> Grid<bool> {
    Grid::from_lines_mapped(text, |b| b == b'#').unwrap()
}

fn vertical_pattern() -> Grid<bool> {
    pattern(
        &[
            "#.##..##.",
            "..#.##.#.",
            "##......#",
            "##......#",
            "..#.##.#.",
            "..##..##.",
            "#.#.##.#.",
        ]
        .join("\n"),
    )
}

fn horizontal_pattern() -> Grid<bool> {
    pattern(
        &[
            "#...##..#",
            "#....#..#",
            "..##..###",
            "#####.##.",
            "#####.##.",
            "..##..###",
            "#....#..#",
        ]
        .join("\n"),
    )
}

#[test]
fn vertical_reflection_is_found() {
    assert_eq!(find_vertical_reflection(&vertical_pattern()), Some(5));
    assert_eq!(find_horizontal_reflection(&vertical_pattern()), None);
}

#[test]
fn horizontal_reflection_is_found() {
    assert_eq!(find_horizontal_reflection(&horizontal_pattern()), Some(4));
    assert_eq!(find_vertical_reflection(&horizontal_pattern()), None);
}

#[test]
fn reflection_summary() {
    assert_eq!(find_reflection(&vertical_pattern()), 5);
    assert_eq!(find_reflection(&horizontal_pattern()), 400);
    let none = pattern("#.\n.#\n");
    assert_eq!(find_reflection(&none), 0);
}

#[test]
fn extrapolation_continues_the_sequences() {
    assert_eq!(extrapolate(&vec![0, 3, 6, 9, 12, 15]), 18);
    assert_eq!(extrapolate(&vec![1, 3, 6, 10, 15, 21]), 28);
    assert_eq!(extrapolate(&vec![10, 13, 16, 21, 30, 45]), 68);
    assert_eq!(extrapolate(&vec![]), 0);
    assert_eq!(extrapolate(&vec![7]), 7);
}

#[test]
fn backward_extrapolation() {
    assert_eq!(extrapolate_back(&vec![10, 13, 16, 21, 30, 45]), 5);
    assert_eq!(extrapolate_back(&vec![0, 3, 6, 9, 12, 15]), -3);
    assert_eq!(extrapolate_back(&vec![]), 0);
}
