use rspell::trie::Trie;

fn w(s: &str) -> Vec<char> {
    s.chars().collect()
}

fn words(items: &[&str]) -> Vec<Vec<char>> {
    items.iter().map(|s| w(s)).collect()
}

#[test]
fn fresh_engine_is_empty() {
    let t = Trie::new();
    assert_eq!(t.count(), 0);
    assert_eq!(t.atoms(), 0);
    assert!(!t.contains(&w("")));
    assert!(!t.contains(&w("a")));
}

#[test]
fn insert_then_contains() {
    let mut t = Trie::new();
    t.insert(&w("hello"));
    assert!(t.contains(&w("hello")));
}

#[test]
fn insert_empty_word() {
    let mut t = Trie::new();
    t.insert(&w(""));
    assert!(t.contains(&w("")));
    assert_eq!(t.count(), 1);
    assert_eq!(t.atoms(), 0);
}

#[test]
fn absent_words_stay_absent() {
    let mut t = Trie::new();
    t.insert(&w("hello"));
    assert!(!t.contains(&w("hel")));
    assert!(!t.contains(&w("hellos")));
    assert!(!t.contains(&w("world")));
    assert!(!t.contains(&w("")));
}

#[test]
fn reinsert_is_idempotent() {
    let mut t = Trie::new();
    t.insert(&w("cat"));
    assert_eq!(t.count(), 1);
    assert_eq!(t.atoms(), 3);
    t.insert(&w("cat"));
    assert_eq!(t.count(), 1);
    assert_eq!(t.atoms(), 3);
}

#[test]
fn atoms_grow_by_missing_suffix_only() {
    let mut t = Trie::new();
    t.insert(&w("cat"));
    assert_eq!(t.atoms(), 3);
    t.insert(&w("cats"));
    assert_eq!(t.atoms(), 4);
    t.insert(&w("dog"));
    assert_eq!(t.atoms(), 7);
    let before = t.atoms();
    t.insert(&w("ca"));
    assert!(t.atoms() >= before);
    assert_eq!(t.atoms(), 7);
}

#[test]
fn three_word_scenario() {
    let mut t = Trie::new();
    t.insert(&w("cat"));
    t.insert(&w("cats"));
    t.insert(&w("dog"));
    assert_eq!(t.count(), 3);
    assert_eq!(t.atoms(), 7);
    assert!(t.contains(&w("cat")));
    assert!(!t.contains(&w("ca")));
    assert!(t.contains(&w("dog")));
}

#[test]
fn closest_substitution_wins() {
    let mut t = Trie::new();
    t.insert(&w("cat"));
    t.insert(&w("cats"));
    t.insert(&w("dog"));
    let alts = t.alternatives(&w("cot"), 1);
    assert_eq!(alts, words(&["cat"]));
}

#[test]
fn ranking_by_distance_then_lexicographic() {
    let mut t = Trie::new();
    t.insert(&w("cat"));
    t.insert(&w("cats"));
    t.insert(&w("dog"));
    let alts = t.alternatives(&w("cot"), 5);
    assert_eq!(alts, words(&["cat", "cats", "dog"]));

    let mut t2 = Trie::new();
    t2.insert(&w("cat"));
    t2.insert(&w("bat"));
    let alts2 = t2.alternatives(&w("rat"), 5);
    assert_eq!(alts2, words(&["bat", "cat"]));
}

#[test]
fn out_of_reach_query_returns_nothing() {
    let mut t = Trie::new();
    t.insert(&w("cat"));
    t.insert(&w("cats"));
    t.insert(&w("dog"));
    assert!(t.alternatives(&w("xyz"), 5).is_empty());
    assert!(t.alternatives_within(&w("xyz"), 5, 2).is_empty());
}

#[test]
fn zero_limit_returns_nothing() {
    let mut t = Trie::new();
    t.insert(&w("cat"));
    assert!(t.alternatives(&w("cat"), 0).is_empty());
}

#[test]
fn zero_distance_finds_exact_match_only() {
    let mut t = Trie::new();
    t.insert(&w("cat"));
    t.insert(&w("cab"));
    let alts = t.alternatives_within(&w("cat"), 5, 0);
    assert_eq!(alts, words(&["cat"]));
}

#[test]
fn empty_query_finds_short_words() {
    let mut t = Trie::new();
    t.insert(&w("a"));
    t.insert(&w("ab"));
    t.insert(&w("abcd"));
    let alts = t.alternatives(&w(""), 5);
    assert_eq!(alts, words(&["a", "ab"]));
}

#[test]
fn alternatives_respect_limit_and_membership() {
    let mut t = Trie::new();
    for s in ["bat", "cat", "hat", "mat", "rat"] {
        t.insert(&w(s));
    }
    let alts = t.alternatives(&w("oat"), 3);
    assert_eq!(alts.len(), 3);
    for a in &alts {
        assert!(t.contains(a));
    }
    assert_eq!(alts, words(&["bat", "cat", "hat"]));
}

#[test]
fn wider_bound_allows_farther_words() {
    let mut t = Trie::new();
    t.insert(&w("cat"));
    t.insert(&w("dog"));
    assert!(t.alternatives_within(&w("xyz"), 5, 2).is_empty());
    let alts = t.alternatives_within(&w("xyz"), 5, 3);
    assert_eq!(alts, words(&["cat", "dog"]));
}
