use assrs::bktree::BKTreeLevenshtein;

fn strings(items: &[&str]) -> Vec<String> {
    items.iter().map(|s| s.to_string()).collect()
}

#[test]
fn bktree_finds_boo_for_bo() {
    let tree = BKTreeLevenshtein::py_new(Some(strings(&[
        "book", "books", "boo", "boon", "cook", "cake",
    ])));
    assert_eq!(tree.find_one("bo", Some(2)), Some("boo"));
    assert_eq!(tree.find_one("bo", None), Some("boo"));
}

#[test]
fn bktree_holds_what_was_inserted() {
    let mut tree = BKTreeLevenshtein::new();
    assert!(!tree.contains("book"));
    assert_eq!(tree.get("book"), None);
    tree.insert("book".to_string());
    tree.insert("books".to_string());
    tree.insert("cake".to_string());
    tree.insert("book".to_string());
    assert!(tree.contains("book"));
    assert!(tree.contains("books"));
    assert!(tree.contains("cake"));
    assert!(!tree.contains("boo"));
    assert_eq!(tree.get("cake"), Some("cake"));
    assert_eq!(tree.get("cakes"), None);
    assert_eq!(tree.values().len(), 3);
}

#[test]
fn bktree_values_are_the_entries_each_once() {
    let tree = BKTreeLevenshtein::from_iter(strings(&["b", "a", "ab", "a", "abc", "b"]));
    let mut values = tree.values();
    values.sort();
    assert_eq!(values, vec!["a", "ab", "abc", "b"]);
    let mut again = tree.iter();
    again.sort();
    assert_eq!(again, vec!["a", "ab", "abc", "b"]);
}

#[test]
fn empty_bktree_finds_nothing() {
    let tree = BKTreeLevenshtein::py_new(None);
    assert_eq!(tree.find_one("book", None), None);
    assert_eq!(tree.find_one("", Some(0)), None);
    assert_eq!(tree.values().len(), 0);
}

#[test]
fn bktree_finds_every_entry_with_room_to_follow() {
    let items = ["book", "books", "boo", "boon", "cook", "cake", "", "日本語"];
    let tree = BKTreeLevenshtein::py_new(Some(strings(&items)));
    for s in items {
        assert!(tree.contains(s));
        assert_eq!(tree.find_one(s, Some(1)), Some(s));
        assert_eq!(tree.find_one(s, Some(4)), Some(s));
        assert_eq!(tree.find_one(s, None), Some(s));
    }
}

#[test]
fn bktree_budget_zero_sees_the_root_only() {
    let tree = BKTreeLevenshtein::py_new(Some(strings(&["book", "books"])));
    assert_eq!(tree.find_one("book", Some(0)), Some("book"));
    assert_eq!(tree.find_one("books", Some(0)), None);
    assert_eq!(tree.find_one("books", Some(1)), Some("books"));
}

#[test]
fn bktree_result_is_a_nearest_entry() {
    let items = ["book", "books", "boo", "boon", "cook", "cake"];
    let tree = BKTreeLevenshtein::py_new(Some(strings(&items)));
    for q in ["bo", "cookie", "", "boons", "lake", "bookcase"] {
        let nearest = items.iter().map(|s| assrs::levenshtein::levenshtein(s, q)).min().unwrap();
        let found = tree.find_one(q, None).unwrap();
        assert!(items.contains(&found));
        assert_eq!(assrs::levenshtein::levenshtein(found, q), nearest);
        let bounded = tree.find_one(q, Some(nearest as usize + 1)).unwrap();
        assert_eq!(assrs::levenshtein::levenshtein(bounded, q), nearest);
        if nearest > 0 {
            assert_eq!(tree.find_one(q, Some(nearest as usize - 1)), None);
        }
    }
}

#[test]
fn bktree_budget_above_the_distance_to_the_root() {
    let tree = BKTreeLevenshtein::py_new(Some(strings(&["book", "cake", "boo"])));
    assert_eq!(tree.find_one("boo", Some(usize::MAX)), Some("boo"));
    assert_eq!(tree.find_one("cakes", Some(100)), Some("cake"));
}

#[test]
fn bktree_extend_adds_to_what_is_there() {
    let mut tree = BKTreeLevenshtein::py_new(Some(strings(&["one"])));
    tree.extend(strings(&["two", "three"]));
    assert!(tree.contains("one"));
    assert!(tree.contains("two"));
    assert!(tree.contains("three"));
    assert_eq!(tree.values().len(), 3);
}

#[test]
fn bktree_strings_beyond_a_machine_word() {
    let long = "abcdefghij".repeat(7);
    let other = "abcdefghiX".repeat(7);
    let tree = BKTreeLevenshtein::py_new(Some(strings(&[&long, &other, "short"])));
    let mut query = long.clone();
    query.push('z');
    assert_eq!(tree.find_one(&query, Some(2)), Some(long.as_str()));
    assert_eq!(tree.find_one(&query, None), Some(long.as_str()));
    assert!(tree.contains(&other));
    assert!(!tree.contains(&query));
}

#[test]
fn bktree_nearest_at_exactly_the_budget() {
    let tree = BKTreeLevenshtein::py_new(Some(strings(&["book", "books", "boo"])));
    assert_eq!(tree.find_one("book", Some(0)), Some("book"));
    assert_eq!(tree.find_one("bookz", Some(1)).map(|s| s.len() >= 4), Some(true));
    assert_eq!(tree.find_one("boox", Some(1)).map(|s| s.starts_with("boo")), Some(true));
    assert_eq!(tree.find_one("bxxk", Some(2)), Some("book"));
    assert_eq!(tree.find_one("bxxk", Some(1)), None);
    assert_eq!(tree.find_one("xoox", Some(1)), None);
}

#[test]
fn bktree_band_is_strict() {
    let tree = BKTreeLevenshtein::py_new(Some(strings(&["book", "cake"])));
    assert_eq!(assrs::levenshtein::levenshtein("cake", "book"), 4);
    assert_eq!(assrs::levenshtein::levenshtein("cakes", "book"), 5);
    assert_eq!(tree.find_one("cakes", Some(2)), Some("cake"));
    assert_eq!(tree.find_one("cakes", Some(1)), None);
    assert_eq!(tree.find_one("cakes", None), Some("cake"));
}
