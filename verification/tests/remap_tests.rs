use aoc23::remap::{MappedRange, Mapping, Span};

fn rule(source: usize, dest: usize, len: usize) -> MappedRange {
    MappedRange {
        source: Span { start: source, end: source + len },
        dest: Span { start: dest, end: dest + len },
    }
}

#[test]
fn new_accepts_sorted_disjoint_rules() {
    assert!(Mapping::new(vec![rule(50, 52, 48), rule(98, 50, 2)]).is_ok());
    assert!(Mapping::new(vec![]).is_ok());
}

#[test]
fn new_rejects_malformed_rules() {
    // overlapping sources
    assert_eq!(Mapping::new(vec![rule(50, 52, 48), rule(90, 50, 2)]), Err(1));
    // unsorted sources
    assert_eq!(Mapping::new(vec![rule(98, 50, 2), rule(50, 52, 48)]), Err(1));
    // mismatched interval lengths
    let bad = MappedRange {
        source: Span { start: 0, end: 4 },
        dest: Span { start: 10, end: 11 },
    };
    assert_eq!(Mapping::new(vec![bad]), Err(0));
}

#[test]
fn map_translates_covered_values() {
    // seed-to-soil from the worked example: 98..100 -> 50, 50..98 -> 52
    let m = Mapping::new(vec![rule(50, 52, 48), rule(98, 50, 2)]).unwrap();
    assert_eq!(m.map(79), 81);
    assert_eq!(m.map(14), 14);
    assert_eq!(m.map(55), 57);
    assert_eq!(m.map(13), 13);
    assert_eq!(m.map(98), 50);
    assert_eq!(m.map(99), 51);
    assert_eq!(m.map(100), 100);
}

fn total_len(spans: &[Span]) -> usize {
    spans.iter().map(|s| s.end - s.start).sum()
}

#[test]
fn map_range_preserves_total_length() {
    let m = Mapping::new(vec![rule(50, 52, 48), rule(98, 50, 2)]).unwrap();
    let input = vec![Span { start: 0, end: 120 }];
    let out = m.map_range(input.clone());
    assert_eq!(total_len(&out), total_len(&input));
    // a range spanning several rules is split
    assert!(out.len() > 1);
}

#[test]
fn empty_mapping_is_identity() {
    let m = Mapping::new(vec![]).unwrap();
    let input = vec![Span { start: 3, end: 9 }, Span { start: 20, end: 25 }];
    assert_eq!(m.map_range(input.clone()), input);
}

#[test]
fn map_range_translates_a_covered_range() {
    let m = Mapping::new(vec![rule(10, 100, 10)]).unwrap();
    let out = m.map_range(vec![Span { start: 12, end: 15 }]);
    assert_eq!(out, vec![Span { start: 102, end: 105 }]);
}

#[test]
fn apply_chain_runs_stage_after_stage() {
    let m1 = Mapping::new(vec![rule(0, 10, 5)]).unwrap();
    let m2 = Mapping::new(vec![rule(10, 20, 5)]).unwrap();
    let out = Mapping::apply_chain(&vec![m1, m2], vec![Span { start: 0, end: 5 }]);
    assert_eq!(out, vec![Span { start: 20, end: 25 }]);
}

#[test]
fn round_trip_through_the_inverse() {
    // swapping source and dest interval for interval undoes the mapping
    // for covered values
    let m = Mapping::new(vec![rule(10, 100, 10), rule(30, 200, 5)]).unwrap();
    let inv = Mapping::new(vec![
        MappedRange {
            source: Span { start: 100, end: 110 },
            dest: Span { start: 10, end: 20 },
        },
        MappedRange {
            source: Span { start: 200, end: 205 },
            dest: Span { start: 30, end: 35 },
        },
    ])
    .unwrap();
    for v in [10, 15, 19, 30, 34] {
        assert_eq!(inv.map(m.map(v)), v);
    }
    let out = m.map_range(vec![Span { start: 10, end: 20 }]);
    let back = inv.map_range(out);
    assert_eq!(back, vec![Span { start: 10, end: 20 }]);
}

#[test]
fn singleton_ranges_agree_with_map() {
    let m = Mapping::new(vec![rule(50, 52, 48), rule(98, 50, 2)]).unwrap();
    for v in [79, 14, 55, 13, 97, 98, 99, 100] {
        assert_eq!(
            m.map_range(vec![Span { start: v, end: v + 1 }]),
            vec![Span { start: m.map(v), end: m.map(v) + 1 }]
        );
    }
}
