use domain_blocklist::blocklist::{BlockList, SourceOutcome};
use domain_blocklist::resolver::{plan_after_fetch_failure, plan_source, FetchPlan, Locator};

#[test]
fn one_local_source_blocks_its_domain() {
    let mut b = BlockList::new();
    let outcomes = vec![SourceOutcome::Entries(vec![String::from("ads.example.com")])];
    let report = b.update(&outcomes);
    assert_eq!(report.published_count, 1);
    assert!(!report.empty_warning);
    assert!(b.contains("ads.example.com", false));
    assert!(b.contains("sub.ads.example.com", true));
    assert!(!b.contains("sub.ads.example.com", false));
    assert!(!b.contains("example.com", true));
}

#[test]
fn cached_content_still_blocks_after_a_failed_fetch() {
    // a remote source with a pre-existing cache file from a prior run:
    // the resolver plans a fetch, the fetch fails, and the fallback is
    // the cache file, whose content parses to this entry
    let loc = Locator::Remote { path: String::from("/lists/trackers.txt"), query: None };
    assert!(matches!(plan_source(&loc, false, true), FetchPlan::Fetch));
    assert!(plan_after_fetch_failure(true));
    let mut b = BlockList::new();
    let outcomes = vec![SourceOutcome::Entries(vec![String::from("track.example.net")])];
    b.update(&outcomes);
    assert!(b.contains("track.example.net", false));
}

#[test]
fn restored_and_fetched_runs_over_equal_content_agree() {
    // the cache fast path plans no fetch, and the published snapshot is a
    // function of the parsed entries alone, so a restored run over the
    // same content blocks exactly the same domains
    let loc = Locator::Remote { path: String::from("/lists/ads.txt"), query: None };
    assert!(matches!(plan_source(&loc, true, true), FetchPlan::ReadCache));
    let entries = vec![String::from("ads.example.com"), String::from("track.example.net")];
    let mut fetched = BlockList::new();
    let fetched_report = fetched.update(&vec![SourceOutcome::Entries(entries.clone())]);
    let mut restored = BlockList::new();
    let restored_report = restored.update(&vec![SourceOutcome::Entries(entries)]);
    assert_eq!(fetched_report.published_count, restored_report.published_count);
    for q in ["ads.example.com", "track.example.net", "x.ads.example.com", "example.com"] {
        assert_eq!(fetched.contains(q, true), restored.contains(q, true));
        assert_eq!(fetched.contains(q, false), restored.contains(q, false));
    }
}

#[test]
fn two_sources_with_the_same_domain_count_once() {
    let mut b = BlockList::new();
    let outcomes = vec![
        SourceOutcome::Entries(vec![String::from("a.com")]),
        SourceOutcome::Entries(vec![String::from("a.com")]),
    ];
    let report = b.update(&outcomes);
    assert_eq!(report.published_count, 1);
    assert!(!report.empty_warning);
}

#[test]
fn all_failing_sources_still_publish_an_empty_snapshot() {
    let mut b = BlockList::new();
    let outcomes = vec![SourceOutcome::Entries(vec![String::from("old.example.com")])];
    b.update(&outcomes);
    let failed = vec![SourceOutcome::Skipped, SourceOutcome::Skipped];
    let report = b.update(&failed);
    assert_eq!(report.published_count, 0);
    assert!(report.empty_warning);
    assert!(!b.contains("old.example.com", false));
    assert!(!b.contains("old.example.com", true));
}

#[test]
fn an_update_replaces_the_previous_snapshot_wholesale() {
    let mut b = BlockList::new();
    b.update(&vec![SourceOutcome::Entries(vec![String::from("a.com"), String::from("b.com")])]);
    assert!(b.contains("a.com", false));
    let report = b.update(&vec![SourceOutcome::Entries(vec![String::from("c.com")])]);
    assert_eq!(report.published_count, 1);
    assert!(!b.contains("a.com", false));
    assert!(!b.contains("b.com", true));
    assert!(b.contains("c.com", false));
}

#[test]
fn skipped_sources_do_not_abort_the_rest() {
    let mut b = BlockList::new();
    let outcomes = vec![
        SourceOutcome::Skipped,
        SourceOutcome::Entries(vec![String::from("x.net"), String::from("y.net")]),
        SourceOutcome::Skipped,
    ];
    let report = b.update(&outcomes);
    assert_eq!(report.published_count, 2);
    assert!(b.contains("x.net", false));
    assert!(b.contains("y.net", false));
    assert!(b.contains("w.y.net", true));
}

#[test]
fn a_new_blocklist_blocks_nothing() {
    let b = BlockList::new();
    assert!(!b.contains("a.com", true));
    assert!(!b.contains("", false));
}
