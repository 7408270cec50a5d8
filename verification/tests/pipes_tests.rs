use aoc23::grid::Grid;
use aoc23::pipes::{
    color_inside_outside, color_main_loop, connects_down, connects_left, connects_right,
    connects_up, count_inside, determine_starting_pipe_shape, find_start, InOutStatus, Tile,
};

#[test]
fn connection_tables() {
    assert!(connects_up(&b'|'));
    assert!(connects_up(&b'L'));
    assert!(connects_up(&b'J'));
    assert!(!connects_up(&b'-'));
    assert!(connects_down(&b'|'));
    assert!(connects_down(&b'7'));
    assert!(connects_down(&b'F'));
    assert!(connects_left(&b'-'));
    assert!(connects_left(&b'7'));
    assert!(connects_left(&b'J'));
    assert!(connects_right(&b'-'));
    assert!(connects_right(&b'L'));
    assert!(connects_right(&b'F'));
    assert!(!connects_right(&b'.'));
}

#[test]
fn start_shape_is_determined_from_neighbors() {
    let maze = Grid::from_lines(".F7.\n.S|.\n.LJ.\n").unwrap();
    // S at (1,1): above is 'F' (connects down), below is 'L' (connects up)
    let shape = determine_starting_pipe_shape(&maze, (1, 1)).unwrap();
    assert_eq!(shape, b'|');
    // a start with no fitting neighbors fails
    let lonely = Grid::from_lines("...\n.S.\n...\n").unwrap();
    assert!(determine_starting_pipe_shape(&lonely, (1, 1)).is_err());
}

#[test]
fn find_start_locates_the_first_s() {
    let maze = Grid::from_lines("..\n.S\n").unwrap();
    assert_eq!(find_start(&maze), Some((1, 1)));
    let none = Grid::from_lines("..\n..\n").unwrap();
    assert_eq!(find_start(&none), None);
}

fn classify(text: &str, start: (usize, usize)) -> usize {
    let bytes = Grid::from_lines(text).unwrap();
    let mask = color_main_loop(&bytes, start);
    let mut tiles: Vec<Vec<Tile>> = Vec::new();
    for y in 0..bytes.height {
        let mut row = Vec::new();
        for x in 0..bytes.width {
            let status = if mask.lines[y][x] {
                InOutStatus::MainLoop
            } else {
                InOutStatus::Unknown
            };
            row.push(Tile { tile: bytes.lines[y][x], status });
        }
        tiles.push(row);
    }
    let tile_grid = Grid { lines: tiles, width: bytes.width, height: bytes.height };
    let classified = color_inside_outside(&tile_grid);
    count_inside(&classified)
}

#[test]
fn rectangular_loop_interior() {
    // a 5x4 rectangular loop encloses the six cells of its interior
    let text = "F---7\n|...|\n|...|\nL---J\n";
    assert_eq!(classify(text, (0, 0)), 6);
}

#[test]
fn snug_loop_has_no_interior() {
    // the loop of a single row of pipe has nothing inside
    let text = "F7\nLJ\n";
    assert_eq!(classify(text, (0, 0)), 0);
}

#[test]
fn pinched_loop_interior() {
    // the classic pinched shape: four inside cells in the bottom corners
    let text = [
        "..........",
        ".F------7.",
        ".|F----7|.",
        ".||....||.",
        ".||....||.",
        ".|L-7F-J|.",
        ".|..||..|.",
        ".L--JL--J.",
        "..........",
    ]
    .join("\n");
    assert_eq!(classify(&text, (1, 1)), 4);
}

#[test]
fn status_flipping() {
    assert_eq!(InOutStatus::Inside.flipped(), InOutStatus::Outside);
    assert_eq!(InOutStatus::Outside.flipped(), InOutStatus::Inside);
    assert_eq!(InOutStatus::MainLoop.flipped(), InOutStatus::MainLoop);
    assert_eq!(InOutStatus::Unknown.flipped(), InOutStatus::Unknown);
}

#[test]
fn loop_length_gives_the_farthest_distance() {
    // the farthest point along the loop is half its length
    let text = ["..F7.", ".FJ|.", "SJ.L7", "|F--J", "LJ..."].join("\n");
    let bytes = Grid::from_lines(&text).unwrap();
    let start = find_start(&bytes).unwrap();
    assert_eq!(start, (0, 2));
    let shape = determine_starting_pipe_shape(&bytes, start).unwrap();
    assert_eq!(shape, b'F');
    let mut patched = bytes;
    patched.set(start, shape);
    let mask = color_main_loop(&patched, start);
    let loop_len: usize = mask
        .lines
        .iter()
        .map(|row| row.iter().filter(|m| **m).count())
        .sum();
    assert_eq!(loop_len / 2, 8);
}
