use assrs::levenshtein::{levenshtein, AutomatonState, LevenshteinAutomaton};
use assrs::levenshtein_extract;

#[test]
fn distances() {
    assert_eq!(levenshtein("foo", "bar"), 3);
    assert_eq!(levenshtein("foo", ""), 3);
    assert_eq!(levenshtein("", "bar"), 3);
    assert_eq!(levenshtein("bar", "baz"), 1);
    assert_eq!(levenshtein("foo", "foo"), 0);
    assert_eq!(levenshtein("", ""), 0);
    assert_eq!(levenshtein("ab", "aacbb"), 3);

    assert_eq!(levenshtein(&"abcd".repeat(16), &"abcd".repeat(16)), 0);
    assert_eq!(levenshtein(&"abcde".repeat(13), &""), 65);
    assert_eq!(levenshtein(&"abcde".repeat(13), &"a".repeat(65)), 52);
    assert_eq!(levenshtein(&"abcd".repeat(64), &"abcd".repeat(16)), 192);
    assert_eq!(levenshtein(&"abcd".repeat(64), &"abcd".repeat(128)), 256);
}

#[test]
fn automaton() {
    let automaton = LevenshteinAutomaton::new("kitten");
    let mut state = automaton.start();
    assert_eq!(state.distance(), 6);
    assert!(state.can_match(0));
    assert!(state.can_match(u32::MAX));

    state = state.step('s');
    assert_eq!(state.distance(), 6);
    assert!(!state.can_match(0));
    assert!(state.can_match(1));

    state = state.step('i');
    assert_eq!(state.distance(), 5);
    assert!(!state.can_match(0));
    assert!(state.can_match(1));

    state = state.step('t');
    assert_eq!(state.distance(), 4);
    assert!(!state.can_match(0));
    assert!(state.can_match(1));

    state = state.step('t');
    assert_eq!(state.distance(), 3);
    assert!(!state.can_match(0));
    assert!(state.can_match(1));

    state = state.step('i');
    assert_eq!(state.distance(), 3);
    assert!(!state.can_match(1));
    assert!(state.can_match(2));

    state = state.step('n');
    assert_eq!(state.distance(), 2);
    assert!(!state.can_match(1));
    assert!(state.can_match(2));

    state = state.step('g');
    assert_eq!(state.distance(), 3);
    assert!(!state.can_match(2));
    assert!(state.can_match(3));
}

#[test]
fn long_automaton() {
    let string = "abcd".repeat(64);
    let automaton = LevenshteinAutomaton::new(&string);
    let mut state = automaton.start();
    for _i in 0..128 {
        state = state.step('a');
    }
    assert_eq!(state.distance(), 192);
    assert!(!state.can_match(0));
    assert!(!state.can_match(95));
    assert!(state.can_match(96));
    assert!(state.can_match(u32::MAX));
}

#[test]
fn kitten_sitting() {
    assert_eq!(levenshtein("kitten", "sitting"), 3);
    assert_eq!(levenshtein("sitting", "kitten"), 3);
}

#[test]
fn step_leaves_the_parent_state_alone() {
    let automaton = LevenshteinAutomaton::new("kitten");
    let start = automaton.start();
    let left = start.step('k');
    let right = start.step('x');
    assert_eq!(start.distance(), 6);
    assert_eq!(left.distance(), 5);
    assert_eq!(right.distance(), 6);
    assert!(left.can_match(0));
    assert!(!right.can_match(0));
}

#[test]
fn step_mut_follows_step() {
    let automaton = LevenshteinAutomaton::new("kitten");
    let mut moved = automaton.start();
    let mut copied = automaton.start();
    for c in "sitting".chars() {
        moved.step_mut(c);
        copied = copied.step(c);
        assert_eq!(moved.distance(), copied.distance());
    }
    assert_eq!(moved.distance(), 3);
}

#[test]
fn pattern_of_exactly_64_codepoints() {
    let pattern = "a".repeat(64);
    assert_eq!(levenshtein(&pattern, &"a".repeat(64)), 0);
    assert_eq!(levenshtein(&pattern, &"a".repeat(63)), 1);
    assert_eq!(levenshtein(&pattern, &"b".repeat(64)), 64);
    assert_eq!(levenshtein(&pattern, &"b".repeat(70)), 70);
    let automaton = LevenshteinAutomaton::new(&pattern);
    let mut state = automaton.start();
    assert_eq!(state.distance(), 64);
    for _ in 0..64 {
        state = state.step('a');
    }
    assert_eq!(state.distance(), 0);
    assert!(state.can_match(0));
    state = state.step('a');
    assert_eq!(state.distance(), 1);
    assert!(!state.can_match(0));
    assert!(state.can_match(1));
}

#[test]
fn pattern_of_65_codepoints_takes_the_plain_row() {
    let pattern = "ab".repeat(32) + "c";
    let automaton = LevenshteinAutomaton::new(&pattern);
    let mut state = automaton.start();
    assert_eq!(state.distance(), 65);
    for c in pattern.chars() {
        state = state.step(c);
    }
    assert_eq!(state.distance(), 0);
    assert!(state.can_match(0));
    state.step_mut('z');
    assert_eq!(state.distance(), 1);
    assert!(!state.can_match(0));
}

#[test]
fn both_long_strings() {
    let a = "abc".repeat(30);
    let b = "abd".repeat(30);
    assert_eq!(levenshtein(&a, &b), 30);
    assert_eq!(levenshtein(&b, &a), 30);
}

#[test]
fn distance_counts_codepoints_not_bytes() {
    assert_eq!(levenshtein("héllo", "hello"), 1);
    assert_eq!(levenshtein("日本語", "日本"), 1);
    assert_eq!(levenshtein("日本語", ""), 3);
    assert_eq!(levenshtein("ñ", "n"), 1);
}

#[test]
fn distance_is_symmetric() {
    let words = ["", "a", "kitten", "sitting", "kitchen", "日本語"];
    for a in words {
        for b in words {
            assert_eq!(levenshtein(a, b), levenshtein(b, a));
        }
    }
}

#[test]
fn distance_is_zero_only_between_equal_strings() {
    let words = ["", "a", "b", "ab", "ba", "kitten"];
    for a in words {
        for b in words {
            assert_eq!(levenshtein(a, b) == 0, a == b);
        }
    }
}

#[test]
fn distance_obeys_the_triangle_inequality() {
    let words = ["", "a", "book", "books", "boo", "cook", "cake", "kitten"];
    for a in words {
        for b in words {
            for c in words {
                assert!(levenshtein(a, c) <= levenshtein(a, b) + levenshtein(b, c));
            }
        }
    }
}

#[test]
fn distance_is_at_least_the_difference_of_lengths() {
    let words = ["", "a", "book", "books", "kitten", "日本語"];
    for a in words {
        for b in words {
            let la = a.chars().count() as u32;
            let lb = b.chars().count() as u32;
            let gap = if la > lb { la - lb } else { lb - la };
            assert!(levenshtein(a, b) >= gap);
            assert!(levenshtein(a, b) <= la.max(lb));
        }
    }
}

#[test]
fn extract_picks_the_first_nearest() {
    assert_eq!(levenshtein_extract("bo", vec!["book", "boo", "boa", "b"]), Some((1, 1)));
    assert_eq!(levenshtein_extract("kitten", vec!["sitting", "kitten"]), Some((1, 0)));
    assert_eq!(levenshtein_extract("x", vec!["abc"]), Some((0, 3)));
}

#[test]
fn extract_of_nothing_is_none() {
    assert_eq!(levenshtein_extract("bo", vec![]), None);
}
