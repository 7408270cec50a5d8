use aoc23::beam::{
    energized_count, energized_tiles, flip, max_energized, parse_tiles, propagate, reflect,
    TileKind,
};
use aoc23::grid::Dir;

#[test]
fn empty_grid_energizes_one_row() {
    // a beam entering an all-pass-through grid at (0,0) heading right
    // crosses exactly the three cells of row 0
    let tiles = parse_tiles("...\n...\n...\n").unwrap();
    assert_eq!(energized_count(&tiles, (0, 0), Dir::Right), 3);
}

#[test]
fn empty_grid_energizes_one_column() {
    let tiles = parse_tiles("...\n...\n...\n").unwrap();
    assert_eq!(energized_count(&tiles, (1, 0), Dir::Down), 3);
}

#[test]
fn mirror_bends_the_beam() {
    // the beam runs right along row 0, the mirror sends it down column 2
    let tiles = parse_tiles("..\\\n...\n...\n").unwrap();
    assert_eq!(energized_count(&tiles, (0, 0), Dir::Right), 5);
}

#[test]
fn splitter_splits_the_beam() {
    // the vertical splitter turns the horizontal beam into two vertical ones
    let tiles = parse_tiles(".|.\n...\n...\n").unwrap();
    assert_eq!(energized_count(&tiles, (0, 0), Dir::Right), 4);
}

fn contraption() -> String {
    [
        r".|...\....",
        r"|.-.\.....",
        r".....|-...",
        r"........|.",
        r"..........",
        r".........\",
        r"..../.\\..",
        r".-.-/..|..",
        r".|....-|.\",
        r"..//.|....",
    ]
    .join("\n")
}

#[test]
fn worked_example_energizes_forty_six() {
    let tiles = parse_tiles(&contraption()).unwrap();
    assert_eq!(energized_count(&tiles, (0, 0), Dir::Right), 46);
}

#[test]
fn worked_example_best_entry_is_fifty_one() {
    let tiles = parse_tiles(&contraption()).unwrap();
    assert_eq!(max_energized(&tiles), 51);
}

#[test]
fn out_of_bounds_entry_energizes_nothing() {
    let tiles = parse_tiles("..\n..\n").unwrap();
    assert_eq!(energized_count(&tiles, (5, 5), Dir::Up), 0);
}

#[test]
fn propagate_marks_the_visited_directions() {
    let tiles = parse_tiles("...\n").unwrap();
    let mask = propagate(&tiles, (0, 0), Dir::Right);
    assert!(mask.lines[0][0].right);
    assert!(!mask.lines[0][0].left);
    assert!(mask.lines[0][2].right);
    assert_eq!(energized_tiles(&mask), 3);
}

#[test]
fn parse_rejects_unknown_symbols() {
    assert!(parse_tiles("..x\n...\n").is_err());
    assert!(parse_tiles("").is_err());
}

#[test]
fn max_energized_picks_the_best_border_entry() {
    // entering the middle row hits the vertical splitter and lights the
    // whole column besides the row itself
    let tiles = parse_tiles("...\n.|.\n...\n").unwrap();
    let best = max_energized(&tiles);
    assert_eq!(best, 4);
}

#[test]
fn reflection_tables() {
    assert_eq!(flip(Dir::Up), Dir::Down);
    assert_eq!(flip(Dir::Left), Dir::Right);
    // a beam moving right meets `/` and turns upward, `\` turns it down
    assert_eq!(reflect(Dir::Right, TileKind::MirrorSlash), Dir::Up);
    assert_eq!(reflect(Dir::Right, TileKind::MirrorBack), Dir::Down);
    assert_eq!(reflect(Dir::Up, TileKind::MirrorSlash), Dir::Right);
    assert_eq!(reflect(Dir::Up, TileKind::MirrorBack), Dir::Left);
    assert_eq!(reflect(Dir::Down, TileKind::Empty), Dir::Down);
}
