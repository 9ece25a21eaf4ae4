use assrs::trie::Trie;

fn words(items: &[&str]) -> Vec<String> {
    items.iter().map(|s| s.to_string()).collect()
}

#[test]
fn trie_finds_kitten_for_kittin() {
    let trie = Trie::py_new(Some(words(&["kitten", "sitting", "kitchen"])));
    assert_eq!(trie.find_one("kittin", Some(2)), Some("kitten"));
    assert_eq!(trie.find_one("kittin", Some(1)), Some("kitten"));
    assert_eq!(trie.find_one("kittin", None), Some("kitten"));
    assert_eq!(trie.find_one("kittin", Some(0)), None);
}

#[test]
fn trie_holds_what_was_inserted() {
    let mut trie = Trie::new();
    assert!(!trie.contains("kitten"));
    trie.insert("kitten".to_string());
    trie.insert("kit".to_string());
    assert!(trie.contains("kitten"));
    assert!(trie.contains("kit"));
    assert!(!trie.contains("kitt"));
    assert!(!trie.contains(""));
    assert_eq!(trie.get("kit"), Some("kit"));
    assert_eq!(trie.get("kitte"), None);
    assert_eq!(trie.get("kittens"), None);
}

#[test]
fn trie_finds_every_entry_exactly() {
    let items = ["kitten", "sitting", "kitchen", "", "k", "日本語", "日本"];
    let trie = Trie::from_iter(words(&items));
    for s in items {
        assert!(trie.contains(s));
        assert_eq!(trie.find_one(s, Some(0)), Some(s));
        assert_eq!(trie.find_one(s, Some(3)), Some(s));
        assert_eq!(trie.find_one(s, None), Some(s));
    }
}

#[test]
fn trie_values_are_the_entries_each_once() {
    let trie = Trie::py_new(Some(words(&["b", "a", "ab", "a", "abc", "b"])));
    let mut values = trie.values();
    values.sort();
    assert_eq!(values, vec!["a", "ab", "abc", "b"]);
}

#[test]
fn empty_trie_finds_nothing() {
    let trie = Trie::py_new(None);
    assert_eq!(trie.find_one("kitten", None), None);
    assert_eq!(trie.find_one("", Some(0)), None);
    assert_eq!(trie.values().len(), 0);
    assert_eq!(trie.get(""), None);
}

#[test]
fn trie_budget_below_every_distance() {
    let trie = Trie::py_new(Some(words(&["kitten", "sitting", "kitchen"])));
    assert_eq!(trie.find_one("mitten", Some(0)), None);
    assert_eq!(trie.find_one("mitten", Some(1)), Some("kitten"));
    assert_eq!(trie.find_one("xyz", Some(5)), None);
    assert!(trie.find_one("xyz", Some(6)).is_some());
}

#[test]
fn trie_result_is_a_nearest_entry() {
    let items = ["book", "books", "boo", "boon", "cook", "cake"];
    let trie = Trie::py_new(Some(words(&items)));
    for q in ["bo", "cookie", "", "boons", "lake", "bookcase"] {
        let nearest = items.iter().map(|s| assrs::levenshtein::levenshtein(s, q)).min().unwrap();
        let found = trie.find_one(q, None).unwrap();
        assert!(items.contains(&found));
        assert_eq!(assrs::levenshtein::levenshtein(found, q), nearest);
        assert!(trie.find_one(q, Some(nearest as usize)).is_some());
        if nearest > 0 {
            assert_eq!(trie.find_one(q, Some(nearest as usize - 1)), None);
        }
    }
}

#[test]
fn trie_budget_tightens_to_zero_without_underflow() {
    let trie = Trie::py_new(Some(words(&["a", "ab", "abc", "b", ""])));
    assert_eq!(trie.find_one("", Some(usize::MAX)), Some(""));
    assert_eq!(trie.find_one("ab", Some(2)), Some("ab"));
}

#[test]
fn trie_extend_adds_to_what_is_there() {
    let mut trie = Trie::py_new(Some(words(&["one"])));
    trie.extend(words(&["two", "three"]));
    assert!(trie.contains("one"));
    assert!(trie.contains("two"));
    assert!(trie.contains("three"));
    assert_eq!(trie.values().len(), 3);
}

#[test]
fn trie_walks_edges_beyond_ascii() {
    let trie = Trie::py_new(Some(words(&["naïve", "naive", "日本語"])));
    assert_eq!(trie.find_one("日本誤", Some(1)), Some("日本語"));
    assert_eq!(trie.find_one("naïve", Some(0)), Some("naïve"));
    assert_eq!(trie.find_one("naïves", Some(1)), Some("naïve"));
}

#[test]
fn trie_query_beyond_a_machine_word() {
    let long = "abcdefghij".repeat(7);
    let other = "abcdefghiX".repeat(7);
    let trie = Trie::py_new(Some(words(&[&long, &other, "short"])));
    let mut query = long.clone();
    query.push('z');
    assert_eq!(trie.find_one(&query, Some(1)), Some(long.as_str()));
    assert_eq!(trie.find_one(&query, Some(0)), None);
    assert_eq!(trie.find_one(&other, Some(3)), Some(other.as_str()));
    assert_eq!(trie.find_one(&"q".repeat(70), Some(60)), None);
    let far = trie.find_one(&"q".repeat(70), None).unwrap();
    assert_eq!(assrs::levenshtein::levenshtein(far, &"q".repeat(70)), 70);
}

#[test]
fn trie_holds_the_empty_string() {
    let mut trie = Trie::new();
    trie.insert(String::new());
    assert!(trie.contains(""));
    assert_eq!(trie.find_one("a", Some(1)), Some(""));
    assert_eq!(trie.find_one("ab", Some(1)), None);
    assert_eq!(trie.values(), vec![""]);
}
