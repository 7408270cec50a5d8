use aoc23::cubes::{Cubes, Game};
use aoc23::lens::{focusing_power, hash, insert, remove, Lens};
use aoc23::race::nb_wining_ways;
use aoc23::scratch::Numbers;

#[test]
fn cube_game_possibility() {
    let limits = Cubes { red: 12, green: 13, blue: 14 };
    let game1 = Game {
        id: 1,
        cubes_sets: vec![
            Cubes { red: 4, green: 0, blue: 3 },
            Cubes { red: 1, green: 2, blue: 6 },
            Cubes { red: 0, green: 2, blue: 0 },
        ],
    };
    assert!(game1.is_possible(&limits));
    let game3 = Game {
        id: 3,
        cubes_sets: vec![
            Cubes { red: 20, green: 8, blue: 6 },
            Cubes { red: 4, green: 13, blue: 5 },
        ],
    };
    assert!(!game3.is_possible(&limits));
}

#[test]
fn cube_game_minimal_power() {
    let game1 = Game {
        id: 1,
        cubes_sets: vec![
            Cubes { red: 4, green: 0, blue: 3 },
            Cubes { red: 1, green: 2, blue: 6 },
            Cubes { red: 0, green: 2, blue: 0 },
        ],
    };
    // maxima 4 red, 2 green, 6 blue
    assert_eq!(game1.minimal_power(), 48);
    assert_eq!(Cubes { red: 4, green: 2, blue: 6 }.power(), 48);
}

#[test]
fn race_winning_ways() {
    assert_eq!(nb_wining_ways(7, 9), 4);
    assert_eq!(nb_wining_ways(15, 40), 8);
    assert_eq!(nb_wining_ways(30, 200), 9);
    assert_eq!(nb_wining_ways(0, 0), 0);
}

#[test]
fn label_hash() {
    assert_eq!(hash("HASH"), 52);
    assert_eq!(hash("rn"), 0);
    assert_eq!(hash("qp"), 1);
    assert_eq!(hash(""), 0);
}

fn lens(label: &str, focal: usize) -> Lens {
    Lens { label: label.bytes().collect(), focal }
}

#[test]
fn lens_focusing_power() {
    // box 0 holds rn=1 and cm=2, box 3 holds ot=7, ab=5, pc=6
    let mut boxes: Vec<Vec<Lens>> = vec![Vec::new(); 4];
    boxes[0].push(lens("rn", 1));
    boxes[0].push(lens("cm", 2));
    boxes[3].push(lens("ot", 7));
    boxes[3].push(lens("ab", 5));
    boxes[3].push(lens("pc", 6));
    assert_eq!(focusing_power(&boxes), 145);
}

#[test]
fn lens_insert_and_remove() {
    let mut lens_box: Vec<Lens> = Vec::new();
    let rn: Vec<u8> = b"rn".to_vec();
    let cm: Vec<u8> = b"cm".to_vec();
    insert(&mut lens_box, &rn, 1);
    insert(&mut lens_box, &cm, 2);
    assert_eq!(lens_box.len(), 2);
    // refitting an existing label keeps its slot
    insert(&mut lens_box, &rn, 9);
    assert_eq!(lens_box.len(), 2);
    assert_eq!(lens_box[0].focal, 9);
    remove(&mut lens_box, &rn);
    assert_eq!(lens_box.len(), 1);
    assert_eq!(lens_box[0].label, cm);
    // removing an absent label changes nothing
    remove(&mut lens_box, &rn);
    assert_eq!(lens_box.len(), 1);
}

#[test]
fn scratchcard_scores() {
    // card 1 of the worked example: four matches, so eight points
    let card1 = Numbers {
        winning: vec![41, 48, 83, 86, 17],
        present: vec![83, 86, 6, 31, 17, 9, 48, 53],
    };
    assert_eq!(card1.count_winning(), 4);
    assert_eq!(card1.score(), 8);
    let blank = Numbers { winning: vec![1, 2], present: vec![3, 4] };
    assert_eq!(blank.count_winning(), 0);
    assert_eq!(blank.score(), 0);
    // duplicates in the present numbers count once
    let dup = Numbers { winning: vec![5], present: vec![5, 5, 5] };
    assert_eq!(dup.count_winning(), 1);
    assert_eq!(dup.score(), 1);
}
