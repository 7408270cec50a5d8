use aoc23::grid::{Dir, Grid};

#[test]
fn from_lines_parses_rectangle() {
    let g = Grid::from_lines("abc\ndef\n").unwrap();
    assert_eq!(g.width, 3);
    assert_eq!(g.height, 2);
    assert_eq!(g.lines[0], vec![b'a', b'b', b'c']);
    assert_eq!(g.lines[1], vec![b'd', b'e', b'f']);
}

#[test]
fn from_lines_skips_empty_lines() {
    let g = Grid::from_lines("ab\n\ncd\n").unwrap();
    assert_eq!(g.height, 2);
}

#[test]
fn from_lines_rejects_ragged_input() {
    assert!(Grid::from_lines("abc\nde\n").is_err());
}

#[test]
fn from_lines_rejects_empty_input() {
    assert!(Grid::from_lines("").is_err());
    assert!(Grid::from_lines("\n\n").is_err());
}

#[test]
fn get_is_none_outside_the_grid() {
    let g = Grid::from_lines("ab\ncd\n").unwrap();
    // in bounds
    assert_eq!(g.get((0, 0)), Some(&b'a'));
    assert_eq!(g.get((1, 1)), Some(&b'd'));
    // out of bounds in every direction that exists for unsigned coords
    assert_eq!(g.get((2, 0)), None);
    assert_eq!(g.get((0, 2)), None);
    assert_eq!(g.get((usize::MAX, 0)), None);
    assert_eq!(g.get((0, usize::MAX)), None);
}

#[test]
fn neighbor_queries() {
    let g = Grid::from_lines("abc\ndef\nghi\n").unwrap();
    assert_eq!(g.get_above((1, 1)), Some(&b'b'));
    assert_eq!(g.get_below((1, 1)), Some(&b'h'));
    assert_eq!(g.get_left_of((1, 1)), Some(&b'd'));
    assert_eq!(g.get_right_of((1, 1)), Some(&b'f'));
    assert_eq!(g.get_above((0, 0)), None);
    assert_eq!(g.get_left_of((0, 0)), None);
    assert_eq!(g.get_below((0, 2)), None);
    assert_eq!(g.get_right_of((2, 0)), None);
    assert_eq!(g.get_above_coord((1, 1)), Some(((1, 0), &b'b')));
    let (up, down, left, right) = g.get_cardinally_adjacent_tiles((0, 1));
    assert_eq!(up, Some(&b'a'));
    assert_eq!(down, Some(&b'g'));
    assert_eq!(left, None);
    assert_eq!(right, Some(&b'e'));
}

#[test]
fn rows_columns_iter() {
    let g = Grid::from_lines("ab\ncd\n").unwrap();
    assert_eq!(g.row(0), vec![b'a', b'b']);
    assert_eq!(g.column(1), vec![b'b', b'd']);
    assert_eq!(g.rows(), vec![vec![b'a', b'b'], vec![b'c', b'd']]);
    assert_eq!(g.columns(), vec![vec![b'a', b'c'], vec![b'b', b'd']]);
    assert_eq!(g.iter(), vec![b'a', b'b', b'c', b'd']);
}

#[test]
fn set_and_duplicate() {
    let mut g = Grid::new(2, 2, 0u8);
    g.set((1, 0), 7);
    assert_eq!(g.get((1, 0)), Some(&7));
    let d = g.duplicate();
    assert_eq!(d.lines, g.lines);
}

#[test]
fn insert_line_and_column() {
    let mut g = Grid::from_lines("ab\ncd\n").unwrap();
    g.insert_line(1, vec![b'x', b'y']);
    assert_eq!(g.height, 3);
    assert_eq!(g.row(1), vec![b'x', b'y']);
    g.insert_column(0, vec![b'1', b'2', b'3']);
    assert_eq!(g.width, 3);
    assert_eq!(g.column(0), vec![b'1', b'2', b'3']);
}

#[test]
fn mapped_and_into_mapped() {
    let g = Grid::from_lines("12\n34\n").unwrap();
    let h = g.mapped(|b: &u8| (*b - b'0') as u32);
    assert_eq!(h.lines, vec![vec![1, 2], vec![3, 4]]);
    let k = g.into_mapped(|b: u8| b - b'0');
    assert_eq!(k.lines, vec![vec![1, 2], vec![3, 4]]);
}

#[test]
fn from_lines_mapped_applies_the_function() {
    let g = Grid::from_lines_mapped("12\n34\n", |b| b - b'0').unwrap();
    assert_eq!(g.lines, vec![vec![1, 2], vec![3, 4]]);
    assert!(Grid::from_lines_mapped("1\n22\n", |b| b).is_err());
}

#[test]
fn adjacent_to_range_returns_the_border() {
    let g = Grid::from_lines("abcd\nefgh\nijkl\n").unwrap();
    // the run f..g in row 1
    let mut cells = g.adjacent_to_range(&(1..3), 1);
    cells.sort();
    let mut expected = vec![b'a', b'b', b'c', b'd', b'e', b'h', b'i', b'j', b'k', b'l'];
    expected.sort();
    assert_eq!(cells, expected);
}

#[test]
fn dir_operations() {
    assert!(Dir::Up.is_reverse(Dir::Down));
    assert!(!Dir::Up.is_reverse(Dir::Left));
    assert_eq!(Dir::Up.reverse(), Dir::Down);
    assert_eq!(Dir::Left.rotate_clockwise(), Dir::Up);
    assert_eq!(Dir::Left.rotate_counter_clockwise(), Dir::Down);
    assert_eq!(Dir::Up.step((3, 3)), Some((3, 2)));
    assert_eq!(Dir::Up.step((3, 0)), None);
    assert_eq!(Dir::Left.step((0, 3)), None);
    assert_eq!(Dir::Down.step((3, 3)), Some((3, 4)));
    assert_eq!(Dir::Right.step((3, 3)), Some((4, 3)));
}
