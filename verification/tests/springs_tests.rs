use aoc23::springs::Row;

fn row(cells: &str, groups: Vec<usize>) -> Row {
    Row { row: cells.bytes().collect(), groups }
}

#[test]
fn worked_example_counts() {
    assert_eq!(row("???.###", vec![1, 1, 3]).count_arrangements(), 1);
    assert_eq!(row(".??..??...?##.", vec![1, 1, 3]).count_arrangements(), 4);
    assert_eq!(row("?#?#?#?#?#?#?#?", vec![1, 3, 1, 6]).count_arrangements(), 1);
    assert_eq!(row("????.#...#...", vec![4, 1, 1]).count_arrangements(), 1);
    assert_eq!(row("????.######..#####.", vec![1, 6, 5]).count_arrangements(), 4);
    assert_eq!(row("?###????????", vec![3, 2, 1]).count_arrangements(), 10);
}

#[test]
fn degenerate_rows() {
    assert_eq!(row("", vec![]).count_arrangements(), 1);
    assert_eq!(row("", vec![1]).count_arrangements(), 0);
    assert_eq!(row("???", vec![]).count_arrangements(), 1);
    assert_eq!(row("###", vec![3]).count_arrangements(), 1);
    assert_eq!(row("###", vec![2]).count_arrangements(), 0);
}
