use std::cmp::Ordering;

use poetry_contest::text::{chars_of, compare_chars, is_space_char};
use poetry_contest::{
    aggregate_round, build_index, score_contest, score_entry, AuthorTotals, Category, CategoryIndex,
    Entry, Manifest, Round, ScoringError, Standing,
};

fn category(keywords: &[&str]) -> Category {
    Category { keywords: keywords.iter().map(|k| k.to_string()).collect() }
}

fn entry(author: &str, contents: &str) -> Entry {
    Entry { author: author.to_string(), title: String::new(), contents: contents.to_string() }
}

fn round(entries: &[(&str, &str)]) -> Round {
    Round { entries: entries.iter().map(|(a, c)| entry(a, c)).collect() }
}

fn standing(author: &str, score: u64) -> Standing {
    Standing { author: author.to_string(), score }
}

fn rose_thorn_index() -> CategoryIndex {
    build_index(&vec![category(&["rose"]), category(&["rose", "thorn"])]).unwrap()
}

#[test]
fn rose_thorn_scenario() {
    let index = rose_thorn_index();
    let r = round(&[("A", "a red rose"), ("A", "a thorn"), ("B", "nothing relevant")]);

    let s1 = score_entry(&r.entries[0], &index);
    assert_eq!(s1.matched_categories, vec![0, 1]);
    assert_eq!(s1.score, 2);
    let s2 = score_entry(&r.entries[1], &index);
    assert_eq!(s2.matched_categories, vec![1]);
    assert_eq!(s2.score, 1);
    let s3 = score_entry(&r.entries[2], &index);
    assert!(s3.matched_categories.is_empty());
    assert_eq!(s3.score, 0);

    let totals = aggregate_round(&r, 0, &index).unwrap();
    assert_eq!(totals.total_of("A"), 3);
    assert_eq!(totals.total_of("B"), 0);
    assert_eq!(totals.len(), 2);

    let manifest = Manifest {
        categories: vec![category(&["rose"]), category(&["rose", "thorn"])],
        rounds: vec![r],
    };
    let board = score_contest(&manifest, &index).unwrap();
    assert_eq!(board, vec![standing("A", 3), standing("B", 0)]);
}

#[test]
fn empty_round_contributes_nothing() {
    let index = rose_thorn_index();
    let empty = Round { entries: vec![] };
    let totals = aggregate_round(&empty, 0, &index).unwrap();
    assert_eq!(totals.len(), 0);
    assert_eq!(totals.total_of("A"), 0);

    let with_empty = Manifest {
        categories: vec![],
        rounds: vec![round(&[("A", "rose")]), Round { entries: vec![] }],
    };
    let without = Manifest { categories: vec![], rounds: vec![round(&[("A", "rose")])] };
    let b1 = score_contest(&with_empty, &index).unwrap();
    let b2 = score_contest(&without, &index).unwrap();
    assert_eq!(b1, b2);
    assert_eq!(b1, vec![standing("A", 2)]);

    let only_empty = Manifest { categories: vec![], rounds: vec![Round { entries: vec![] }] };
    assert_eq!(score_contest(&only_empty, &index).unwrap(), vec![]);
}

#[test]
fn category_without_keywords_is_rejected() {
    let cats = vec![category(&["a"]), category(&[]), category(&[])];
    match build_index(&cats) {
        Err(e) => assert_eq!(e, ScoringError::InvalidCategory { category: 1 }),
        Ok(_) => panic!("an empty category must be rejected"),
    }
    assert!(build_index(&vec![category(&["x", "y"])]).is_ok());
    let none = build_index(&vec![]).unwrap();
    assert_eq!(none.num_categories(), 0);
    assert!(none.matching_categories("anything at all").is_empty());
}

#[test]
fn entry_without_author_fails_the_run() {
    let index = rose_thorn_index();
    let r = round(&[("A", "rose"), ("", "thorn"), ("", "rose")]);
    match aggregate_round(&r, 4, &index) {
        Err(e) => assert_eq!(e, ScoringError::InvalidEntry { round: 4, entry: 1 }),
        Ok(_) => panic!("an entry without author must be rejected"),
    }
    let manifest = Manifest {
        categories: vec![],
        rounds: vec![round(&[("A", "rose")]), round(&[("B", "x"), ("", "y")]), round(&[("", "z")])],
    };
    match score_contest(&manifest, &index) {
        Err(e) => assert_eq!(e, ScoringError::InvalidEntry { round: 1, entry: 1 }),
        Ok(_) => panic!("an entry without author must be rejected"),
    }
}

#[test]
fn matching_is_exact_case_sensitive_and_whitespace_delimited() {
    let index = build_index(&vec![
        category(&["rose"]),
        category(&["Thorn"]),
        category(&["red", "blue"]),
    ])
    .unwrap();
    assert_eq!(index.matching_categories("rose"), vec![0]);
    assert_eq!(index.matching_categories("roses rose, Rose"), Vec::<usize>::new());
    assert_eq!(index.matching_categories("thorn"), Vec::<usize>::new());
    assert_eq!(index.matching_categories("\tThorn\n\nred  "), vec![1, 2]);
    assert_eq!(index.matching_categories("blue\u{3000}rose"), vec![0, 2]);
    assert_eq!(index.matching_categories("bluerose"), Vec::<usize>::new());
    assert_eq!(index.matching_categories(""), Vec::<usize>::new());
    assert_eq!(index.matching_categories("   "), Vec::<usize>::new());
}

#[test]
fn keyword_repeated_within_and_across_categories() {
    let index = build_index(&vec![category(&["x", "x", "y"]), category(&["y"]), category(&["z", "x"])]).unwrap();
    assert_eq!(index.num_categories(), 3);
    assert_eq!(index.matching_categories("x"), vec![0, 2]);
    assert_eq!(index.matching_categories("y y y"), vec![0, 1]);
    assert_eq!(index.matching_categories("z x y"), vec![0, 1, 2]);
    let s = score_entry(&entry("a", "x x x x"), &index);
    assert_eq!(s.score, 2);
    assert_eq!(s.author, "a");
}

#[test]
fn equal_totals_are_ordered_by_author() {
    let index = rose_thorn_index();
    let manifest = Manifest {
        categories: vec![],
        rounds: vec![round(&[("carol", "rose"), ("bob", "thorn"), ("alice", "thorn"), ("dave", "thorn rose")])],
    };
    let board = score_contest(&manifest, &index).unwrap();
    assert_eq!(
        board,
        vec![standing("carol", 2), standing("dave", 2), standing("alice", 1), standing("bob", 1)]
    );
}

#[test]
fn zero_match_author_still_listed() {
    let index = rose_thorn_index();
    let manifest = Manifest {
        categories: vec![],
        rounds: vec![round(&[("zed", "no match here"), ("amy", "rose")]), round(&[("zed", "nothing")])],
    };
    let board = score_contest(&manifest, &index).unwrap();
    assert_eq!(board, vec![standing("amy", 2), standing("zed", 0)]);
}

#[test]
fn scoring_twice_gives_the_same_board() {
    let index = rose_thorn_index();
    let manifest = Manifest {
        categories: vec![],
        rounds: vec![
            round(&[("A", "rose thorn"), ("B", "thorn"), ("C", "")]),
            round(&[("B", "rose"), ("A", "nothing")]),
        ],
    };
    let b1 = score_contest(&manifest, &index).unwrap();
    let b2 = score_contest(&manifest, &index).unwrap();
    assert_eq!(b1, b2);
    assert_eq!(b1, vec![standing("B", 3), standing("A", 2), standing("C", 0)]);
}

#[test]
fn permuting_rounds_and_entries_keeps_totals() {
    let index = rose_thorn_index();
    let m1 = Manifest {
        categories: vec![],
        rounds: vec![
            round(&[("A", "rose thorn"), ("B", "thorn"), ("C", "rose")]),
            round(&[("B", "rose"), ("A", "thorn")]),
        ],
    };
    let m2 = Manifest {
        categories: vec![],
        rounds: vec![
            round(&[("A", "thorn"), ("B", "rose")]),
            round(&[("C", "rose"), ("A", "rose thorn"), ("B", "thorn")]),
        ],
    };
    let b1 = score_contest(&m1, &index).unwrap();
    let b2 = score_contest(&m2, &index).unwrap();
    assert_eq!(b1, b2);
    assert_eq!(b1, vec![standing("A", 3), standing("B", 3), standing("C", 2)]);
}

#[test]
fn running_totals_never_decrease() {
    let index = rose_thorn_index();
    let rounds = vec![
        round(&[("A", "rose"), ("B", "x")]),
        round(&[("B", "thorn")]),
        round(&[]),
        round(&[("A", "none"), ("C", "rose rose")]),
    ];
    let mut totals = AuthorTotals::new();
    let mut previous = [0u64; 3];
    for (j, r) in rounds.iter().enumerate() {
        let rt = aggregate_round(r, j, &index).unwrap();
        totals.merge(&rt);
        for (k, a) in ["A", "B", "C"].iter().enumerate() {
            let now = totals.total_of(a);
            assert!(now >= previous[k]);
            previous[k] = now;
        }
    }
    assert_eq!(previous, [2, 1, 2]);
    let board = totals.ranked();
    assert_eq!(board, vec![standing("A", 2), standing("C", 2), standing("B", 1)]);
}

#[test]
fn text_helpers() {
    assert!(is_space_char(' '));
    assert!(is_space_char('\u{85}'));
    assert!(is_space_char('\u{2009}'));
    assert!(!is_space_char('a'));
    assert!(!is_space_char('\u{200B}'));
    assert_eq!(chars_of("héllo"), vec!['h', 'é', 'l', 'l', 'o']);
    let a = chars_of("ab");
    let b = chars_of("abc");
    let c = chars_of("b");
    assert_eq!(compare_chars(&a, &b), Ordering::Less);
    assert_eq!(compare_chars(&b, &a), Ordering::Greater);
    assert_eq!(compare_chars(&c, &b), Ordering::Greater);
    assert_eq!(compare_chars(&a, &a), Ordering::Equal);
}
