use wordlist_gen::wordlist::{sort_wordlist, WordlistGenerator};

#[test]
fn keeps_best_weight_per_key() {
    let mut g = WordlistGenerator::new(10);
    g.add("The Matrix".to_string(), 50);
    g.add("the matrix".to_string(), 80);
    g.add("THE-MATRIX!".to_string(), 60);
    assert_eq!(g.generate(), vec![("THE MATRIX".to_string(), 80)]);
}

#[test]
fn first_seen_wins_on_tie() {
    let mut g = WordlistGenerator::new(0);
    g.add("Alien 3".to_string(), 70);
    g.add("Alien".to_string(), 70);
    assert_eq!(g.generate(), vec![("ALIEN 3".to_string(), 70)]);
}

#[test]
fn replaces_on_strict_improvement() {
    let mut g = WordlistGenerator::new(0);
    g.add("Alien 3".to_string(), 70);
    g.add("Alien".to_string(), 71);
    assert_eq!(g.generate(), vec![("ALIEN".to_string(), 71)]);
}

#[test]
fn cutoff_and_empty_keys_dropped() {
    let mut g = WordlistGenerator::new(100);
    g.add("Low".to_string(), 99);
    g.add("1984".to_string(), 500);
    g.add("!!!".to_string(), 500);
    g.add("High".to_string(), 100);
    assert_eq!(g.generate(), vec![("HIGH".to_string(), 100)]);
}

#[test]
fn below_cutoff_does_not_block_key() {
    let mut g = WordlistGenerator::new(100);
    g.add("Jaws".to_string(), 5);
    g.add("JAWS 2".to_string(), 100);
    assert_eq!(g.generate(), vec![("JAWS 2".to_string(), 100)]);
}

#[test]
fn generate_sorts_descending() {
    let mut g = WordlistGenerator::new(0);
    g.add("b".to_string(), 2);
    g.add("c".to_string(), 30);
    g.add("a".to_string(), 10);
    g.add("d".to_string(), u64::MAX);
    let wl = g.generate();
    assert_eq!(
        wl,
        vec![
            ("D".to_string(), u64::MAX),
            ("C".to_string(), 30),
            ("A".to_string(), 10),
            ("B".to_string(), 2)
        ]
    );
}

#[test]
fn generate_empty() {
    let g = WordlistGenerator::new(0);
    assert_eq!(g.generate(), Vec::<(String, u64)>::new());
}

#[test]
fn add_normalized_direct() {
    let mut g = WordlistGenerator::new(1);
    g.add_normalized("FOO BAR".to_string(), 3);
    g.add_normalized("FOOBAR".to_string(), 3);
    g.add_normalized("42".to_string(), 9);
    assert_eq!(g.generate(), vec![("FOO BAR".to_string(), 3)]);
}

#[test]
fn sort_wordlist_orders_by_weight() {
    let mut wl = vec![
        ("x".to_string(), 1),
        ("y".to_string(), 5),
        ("z".to_string(), 3),
        ("w".to_string(), 5),
    ];
    sort_wordlist(&mut wl);
    let weights: Vec<u64> = wl.iter().map(|e| e.1).collect();
    assert_eq!(weights, vec![5, 5, 3, 1]);
    assert_eq!(wl[2], ("z".to_string(), 3));
    assert_eq!(wl[3], ("x".to_string(), 1));
    let mut names: Vec<String> = wl.iter().map(|e| e.0.clone()).collect();
    names.sort();
    assert_eq!(names, vec!["w", "x", "y", "z"]);
}
