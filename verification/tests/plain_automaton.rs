use assrs::automaton::LevenshteinAutomaton;
use assrs::levenshtein::AutomatonState;

#[test]
fn plain_trace_of_kitten() {
    let automaton = LevenshteinAutomaton::new("kitten");
    let mut state = automaton.start();
    let expected = [6usize, 6, 5, 4, 3, 3, 2, 3];
    assert_eq!(state.distance(), expected[0]);
    for (i, c) in "sitting".chars().enumerate() {
        state = state.step(c);
        assert_eq!(state.distance(), expected[i + 1]);
    }
}

#[test]
fn plain_can_match_of_kitten() {
    let automaton = LevenshteinAutomaton::new("kitten");
    let mut state = automaton.start();
    assert!(state.can_match(0));
    for (i, c) in "sitting".chars().enumerate() {
        state = state.step(c);
        assert!(!state.can_match(0));
        assert_eq!(state.can_match(1), i + 1 < 5);
        assert_eq!(state.can_match(2), i + 1 < 7);
    }
    assert!(state.can_match(3));
    assert!(state.can_match(usize::MAX));
}

#[test]
fn plain_empty_pattern() {
    let automaton = LevenshteinAutomaton::new("");
    let mut state = automaton.start();
    assert_eq!(state.distance(), 0);
    state = state.step('a');
    state = state.step('b');
    assert_eq!(state.distance(), 2);
    assert!(!state.can_match(1));
    assert!(state.can_match(2));
}

#[test]
fn packed_and_plain_agree_at_every_step() {
    let patterns = ["", "a", "kitten", "abcabcabc", "日本語のテキスト"];
    let texts = ["", "sitting", "abcabc", "kitchen", "日本のテキスト", "zzzzzzzzzzzz"];
    for pattern in patterns {
        let long = pattern.repeat(7);
        for p in [pattern, long.as_str()] {
            if p.chars().count() > 64 {
                continue;
            }
            let plain = LevenshteinAutomaton::new(p);
            let packed = assrs::levenshtein::LevenshteinAutomaton::new(p);
            for text in texts {
                let mut a = plain.start();
                let mut b = packed.start();
                assert_eq!(a.distance(), b.distance() as usize);
                for c in text.chars() {
                    a = a.step(c);
                    b = b.step(c);
                    assert_eq!(a.distance(), b.distance() as usize);
                    for k in 0..12u32 {
                        assert_eq!(a.can_match(k as usize), b.can_match(k));
                    }
                }
            }
        }
    }
}
