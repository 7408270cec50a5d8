use aoc23::crt::{chinese_remainder, coprime, Input, Solutions};

#[test]
fn test_chinese_remainder() {
    let inputs = [
        Input { ni: 3, ai: 2 },
        Input { ni: 5, ai: 3 },
        Input { ni: 7, ai: 2 },
    ];
    assert_eq!(
        chinese_remainder(&inputs),
        Solutions { min: 23, n: 105 }
    );
}

#[test]
fn chinese_remainder_single() {
    let inputs = [Input { ni: 5, ai: 4 }];
    assert_eq!(chinese_remainder(&inputs), Solutions { min: 4, n: 5 });
}

#[test]
fn chinese_remainder_empty() {
    let sol = chinese_remainder(&[]);
    assert_eq!(sol.n, 1);
    assert_eq!(sol.min, 0);
}

#[test]
fn coprime_pairs() {
    assert!(coprime(3, 5));
    assert!(coprime(7, 1));
    assert!(!coprime(6, 4));
    assert!(coprime(35, 12));
}
