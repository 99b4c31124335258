use trie::Trie;

fn sorted(mut v: Vec<String>) -> Vec<String> {
    v.sort();
    v
}

#[test]
fn new_trie_is_empty() {
    let mut t = Trie::new();
    assert!(t.is_empty());
    assert_eq!(t.size(), 0);
    assert!(t.as_vec().is_empty());
    assert!(!t.contains("a"));
}

#[test]
fn round_trip_insert_remove() {
    let mut t = Trie::new();
    assert!(t.insert("hello"));
    assert!(t.contains("hello"));
    assert!(t.remove("hello"));
    assert!(!t.contains("hello"));
    assert!(t.is_empty());
    assert_eq!(t.size(), 0);
}

#[test]
fn insert_twice_returns_false() {
    let mut t = Trie::new();
    assert!(t.insert("abc"));
    assert_eq!(t.size(), 1);
    assert!(!t.insert("abc"));
    assert_eq!(t.size(), 1);
}

#[test]
fn prefix_monotonicity() {
    let mut t = Trie::new();
    t.insert("carpet");
    assert!(t.contains("carpet"));
    assert!(t.contains_pref("carpet"));
    assert!(t.contains_pref("car"));
    assert!(t.contains_pref("c"));
    assert!(t.contains_pref(""));
    assert!(!t.contains("car"));
    assert!(!t.contains_pref("cart"));
}

#[test]
fn remove_keeps_longer_string() {
    let mut t = Trie::new();
    t.insert("a");
    t.insert("ab");
    assert!(t.remove("a"));
    assert!(!t.contains("a"));
    assert!(t.contains("ab"));
    assert_eq!(t.size(), 1);
}

#[test]
fn remove_keeps_shorter_string() {
    let mut t = Trie::new();
    t.insert("PWD");
    t.insert("PWDL");
    t.insert("PWDLA");
    assert!(t.remove("PWDLA"));
    assert!(t.contains("PWD"));
    assert!(t.contains("PWDL"));
    assert!(!t.contains("PWDLA"));
    assert!(!t.contains_pref("PWDLA"));
    assert!(t.remove("PWD"));
    assert!(t.contains("PWDL"));
    assert_eq!(sorted(t.as_vec()), vec!["PWDL".to_string()]);
}

#[test]
fn remove_keeps_sibling_branch() {
    let mut t = Trie::new();
    t.insert("team");
    t.insert("tea");
    t.insert("ten");
    assert!(t.remove("team"));
    assert!(t.contains("tea"));
    assert!(t.contains("ten"));
    assert!(!t.contains_pref("team"));
    assert!(t.remove("ten"));
    assert!(t.contains("tea"));
    assert!(!t.contains_pref("ten"));
    assert_eq!(t.size(), 1);
}

#[test]
fn remove_absent_string() {
    let mut t = Trie::new();
    t.insert("abc");
    assert!(!t.remove("ab"));
    assert!(!t.remove("abcd"));
    assert!(!t.remove("x"));
    assert!(t.contains("abc"));
    assert_eq!(t.size(), 1);
}

#[test]
fn size_matches_listing() {
    let mut t = Trie::new();
    for s in ["one", "two", "three", "th", "o"] {
        t.insert(s);
    }
    assert_eq!(t.size(), t.as_vec().len());
    t.remove_pref("th");
    assert_eq!(t.size(), 3);
    assert_eq!(t.size(), t.as_vec().len());
}

#[test]
fn prefix_subtree_removal() {
    let mut t = Trie::new();
    t.insert("cat");
    t.insert("car");
    t.insert("dog");
    assert!(t.remove_pref("ca"));
    assert!(!t.contains("cat"));
    assert!(!t.contains("car"));
    assert!(t.contains("dog"));
    assert_eq!(t.size(), 1);
}

#[test]
fn prefix_removal_keeps_shorter_string() {
    let mut t = Trie::new();
    t.insert("ca");
    t.insert("cat");
    t.insert("cart");
    assert!(t.remove_pref("cat"));
    assert!(t.contains("ca"));
    assert!(t.contains("cart"));
    assert!(!t.contains("cat"));
    assert_eq!(t.size(), 2);
}

#[test]
fn prefix_removal_single_character() {
    let mut t = Trie::new();
    t.insert("apple");
    t.insert("ant");
    t.insert("bee");
    assert!(t.remove_pref("a"));
    assert!(!t.remove_pref("a"));
    assert!(!t.remove_pref("z"));
    assert_eq!(sorted(t.as_vec()), vec!["bee".to_string()]);
    assert_eq!(t.size(), 1);
}

#[test]
fn prefix_removal_absent() {
    let mut t = Trie::new();
    t.insert("abc");
    assert!(!t.remove_pref("abd"));
    assert!(!t.remove_pref("abcd"));
    assert!(t.contains("abc"));
    assert_eq!(t.size(), 1);
}

#[test]
fn empty_input_rejected() {
    let mut t = Trie::new();
    t.insert("x");
    assert!(!t.insert(""));
    assert!(!t.remove(""));
    assert!(!t.remove_pref(""));
    assert!(!t.contains(""));
    assert_eq!(t.size(), 1);
}

#[test]
fn enumeration_completeness() {
    let words = vec!["to", "tea", "ted", "ten", "i", "in", "inn", "A", "é"];
    let mut t = Trie::new();
    for w in &words {
        assert!(t.insert(w));
    }
    let mut expected: Vec<String> = words.iter().map(|s| s.to_string()).collect();
    expected.sort();
    assert_eq!(sorted(t.as_vec()), expected);
    assert_eq!(t.size(), words.len());
}

#[test]
fn listing_groups_shared_prefixes() {
    let mut t = Trie::new();
    for w in ["ab", "xy", "abc", "x", "abd"] {
        t.insert(w);
    }
    let v = t.as_vec();
    let positions: Vec<usize> = v
        .iter()
        .enumerate()
        .filter(|(_, s)| s.starts_with("ab"))
        .map(|(i, _)| i)
        .collect();
    assert_eq!(positions.len(), 3);
    assert_eq!(positions[2] - positions[0], 2);
}

#[test]
fn listing_by_prefix() {
    let mut t = Trie::new();
    for w in ["car", "card", "care", "cat", "dog"] {
        t.insert(w);
    }
    assert_eq!(
        sorted(t.as_vec_pref("car")),
        vec!["car".to_string(), "card".to_string(), "care".to_string()]
    );
    assert_eq!(sorted(t.as_vec_pref("ca")).len(), 4);
    assert!(t.as_vec_pref("").is_empty());
    assert!(t.as_vec_pref("cow").is_empty());
    assert_eq!(t.as_vec_pref("dog"), vec!["dog".to_string()]);
}

#[test]
fn clear_removes_everything() {
    let mut t = Trie::new();
    t.insert("a");
    t.insert("b");
    t.clear();
    assert!(t.is_empty());
    assert_eq!(t.size(), 0);
    assert!(!t.contains("a"));
    assert!(t.insert("a"));
    assert_eq!(t.size(), 1);
}

#[test]
fn build_from_list() {
    let mut t = Trie::from_strs(&vec!["b", "", "a", "b", "ab"]);
    assert_eq!(t.size(), 3);
    assert_eq!(
        sorted(t.as_vec()),
        vec!["a".to_string(), "ab".to_string(), "b".to_string()]
    );
}

#[test]
fn unicode_scalars() {
    let mut t = Trie::new();
    assert!(t.insert("日本語"));
    assert!(t.insert("日本"));
    assert!(t.contains_pref("日"));
    assert!(t.remove("日本語"));
    assert!(t.contains("日本"));
    assert_eq!(t.as_vec(), vec!["日本".to_string()]);
}

#[test]
fn count_recomputed_after_prefix_removal() {
    let mut t = Trie::new();
    for w in ["aa", "ab", "ac", "b"] {
        t.insert(w);
    }
    assert!(t.remove_pref("a"));
    assert_eq!(t.size(), 1);
    assert!(t.insert("c"));
    assert_eq!(t.size(), 2);
    assert!(t.remove("b"));
    assert_eq!(t.size(), 1);
}
