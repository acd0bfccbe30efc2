use domain_blocklist::resolver::{
    cache_file_name, plan_after_fetch_failure, plan_source, FetchPlan, Locator,
};

#[test]
fn cache_name_dashes_the_path_and_strips_one_leading_dash() {
    assert_eq!(cache_file_name("/lists/ads.txt", None), "lists-ads.txt");
    assert_eq!(cache_file_name("/hosts", None), "hosts");
}

#[test]
fn cache_name_appends_the_query_after_a_double_dash() {
    assert_eq!(cache_file_name("/l/a", Some("v=1")), "l-a--v=1");
    assert_eq!(cache_file_name("/feed", Some("type=hosts&x=2")), "feed--type=hosts&x=2");
}

#[test]
fn cache_name_edge_shapes() {
    assert_eq!(cache_file_name("", None), "");
    assert_eq!(cache_file_name("/", None), "");
    assert_eq!(cache_file_name("//a", None), "-a");
    assert_eq!(cache_file_name("plain", None), "plain");
    assert_eq!(cache_file_name("", Some("q")), "--q");
}

#[test]
fn local_files_are_read_directly() {
    let loc = Locator::File { path: String::from("/etc/hosts.block") };
    assert!(matches!(plan_source(&loc, false, false), FetchPlan::ReadLocalFile));
    assert!(matches!(plan_source(&loc, true, true), FetchPlan::ReadLocalFile));
}

#[test]
fn restore_with_cache_makes_no_network_request() {
    let loc = Locator::Remote { path: String::from("/lists/ads.txt"), query: None };
    assert!(matches!(plan_source(&loc, true, true), FetchPlan::ReadCache));
}

#[test]
fn remote_without_usable_cache_is_fetched() {
    let loc = Locator::Remote { path: String::from("/lists/ads.txt"), query: None };
    assert!(matches!(plan_source(&loc, false, false), FetchPlan::Fetch));
    assert!(matches!(plan_source(&loc, false, true), FetchPlan::Fetch));
    assert!(matches!(plan_source(&loc, true, false), FetchPlan::Fetch));
}

#[test]
fn failed_fetch_falls_back_to_cache_only_if_it_exists() {
    assert!(plan_after_fetch_failure(true));
    assert!(!plan_after_fetch_failure(false));
}
