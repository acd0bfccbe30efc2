use domain_blocklist::trie::Trie;

#[test]
fn inserted_domain_matches_exactly() {
    let mut t = Trie::new();
    t.insert("ads.example.com");
    assert!(t.contains("ads.example.com", false));
    assert!(t.contains("ads.example.com", true));
}

#[test]
fn unrelated_domains_do_not_match() {
    let mut t = Trie::new();
    t.insert("ads.example.com");
    assert!(!t.contains("example.com", false));
    assert!(!t.contains("example.com", true));
    assert!(!t.contains("ads.example.org", true));
    assert!(!t.contains("badads.example.com", true));
}

#[test]
fn strict_subdomains_match_only_when_included() {
    let mut t = Trie::new();
    t.insert("ads.example.com");
    assert!(t.contains("sub.ads.example.com", true));
    assert!(!t.contains("sub.ads.example.com", false));
    assert!(t.contains("a.b.ads.example.com", true));
    assert!(!t.contains("a.b.ads.example.com", false));
}

#[test]
fn duplicate_insertions_collapse() {
    let mut t = Trie::new();
    t.insert("a.com");
    t.insert("a.com");
    t.insert("b.com");
    t.insert("a.com");
    assert_eq!(t.len(), 2);
    t.shrink_to_fit();
    assert_eq!(t.len(), 2);
}

#[test]
fn shrink_keeps_query_results() {
    let mut t = Trie::new();
    t.insert("ads.example.com");
    t.insert("tracker.net");
    t.shrink_to_fit();
    assert_eq!(t.len(), 2);
    assert!(t.contains("ads.example.com", false));
    assert!(t.contains("tracker.net", false));
    assert!(t.contains("x.tracker.net", true));
    assert!(!t.contains("example.com", true));
}

#[test]
fn shared_suffix_entries_stay_distinct() {
    let mut t = Trie::new();
    t.insert("a.example.com");
    t.insert("b.example.com");
    assert_eq!(t.len(), 2);
    assert!(t.contains("a.example.com", false));
    assert!(t.contains("b.example.com", false));
    assert!(!t.contains("example.com", true));
    assert!(!t.contains("c.example.com", true));
}

#[test]
fn an_entry_that_extends_another_keeps_both() {
    let mut t = Trie::new();
    t.insert("example.com");
    t.insert("ads.example.com");
    assert_eq!(t.len(), 2);
    assert!(t.contains("example.com", false));
    assert!(t.contains("ads.example.com", false));
    assert!(t.contains("other.example.com", true));
    assert!(!t.contains("other.example.com", false));
}

#[test]
fn empty_and_odd_labels_are_distinct_entries() {
    let mut t = Trie::new();
    t.insert("");
    t.insert("a..com");
    t.insert("a.com");
    assert_eq!(t.len(), 3);
    assert!(t.contains("", false));
    assert!(t.contains("a..com", false));
    assert!(t.contains("a.com", false));
    assert!(!t.contains("b.com", false));
}

#[test]
fn len_of_empty_trie_is_zero() {
    let t = Trie::new();
    assert_eq!(t.len(), 0);
    assert!(!t.contains("a.com", true));
}
