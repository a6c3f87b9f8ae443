use web_radar::audit::{
    check_url, dedupe_urls, http_verdict, is_target_host, mentions, robots_allows, source_host, unsafe_ip, HttpVerdict,
    IpAddress, UrlRefusal,
};
use web_radar::jobs::{run_status, Cancelled, JobManager, RunRecord};
use web_radar::seo::{build_queries, classify, derive_brand, result_limit, validate_request, SeoTarget};

#[test]
fn respects_simple_robots_rules() {
    assert!(!robots_allows("User-agent: *\nDisallow: /private", "/private/a"));
    assert!(robots_allows("User-agent: *\nDisallow: /private", "/public"));
}

#[test]
fn robots_rules_for_other_agents_do_not_apply() {
    assert!(robots_allows("User-agent: googlebot\nDisallow: /", "/anything"));
    assert!(!robots_allows("User-agent: *\nDisallow: /", "/anything"));
}

#[test]
fn blocks_private_addresses() {
    assert!(unsafe_ip(IpAddress::V4(127, 0, 0, 1)));
    assert!(unsafe_ip(IpAddress::V4(192, 168, 1, 1)));
    assert!(!unsafe_ip(IpAddress::V4(1, 1, 1, 1)));
}

#[test]
fn blocks_the_private_ranges_of_both_families() {
    assert!(unsafe_ip(IpAddress::V4(10, 2, 3, 4)));
    assert!(unsafe_ip(IpAddress::V4(172, 16, 0, 1)));
    assert!(!unsafe_ip(IpAddress::V4(172, 32, 0, 1)));
    assert!(unsafe_ip(IpAddress::V4(169, 254, 9, 9)));
    assert!(unsafe_ip(IpAddress::V4(0, 0, 0, 0)));
    assert!(unsafe_ip(IpAddress::V6(0, 0, 0, 0, 0, 0, 0, 1)));
    assert!(unsafe_ip(IpAddress::V6(0xfd12, 0, 0, 0, 0, 0, 0, 1)));
    assert!(unsafe_ip(IpAddress::V6(0xfe80, 0, 0, 0, 0, 0, 0, 1)));
    assert!(!unsafe_ip(IpAddress::V6(0x2001, 0xdb8, 0, 0, 0, 0, 0, 1)));
}

#[test]
fn refuses_urls_before_resolving_them() {
    assert_eq!(check_url("ftp", Some("example.com")), Some(UrlRefusal::NotHttp));
    assert_eq!(check_url("https", None), Some(UrlRefusal::NoHost));
    assert_eq!(check_url("http", Some("LocalHost")), Some(UrlRefusal::Localhost));
    assert_eq!(check_url("https", Some("example.com")), None);
    assert_eq!(UrlRefusal::NotHttp.message(), "Only HTTP(S) URLs are allowed");
}

#[test]
fn statuses_and_hosts() {
    assert_eq!(http_verdict(403), HttpVerdict::Blocked);
    assert_eq!(http_verdict(429), HttpVerdict::Blocked);
    assert_eq!(http_verdict(404), HttpVerdict::HttpError);
    assert_eq!(http_verdict(200), HttpVerdict::Fetched);
    assert!(is_target_host("blog.example.com", "example.com"));
    assert!(is_target_host("example.com", "example.com"));
    assert!(!is_target_host("notexample.com", "example.com"));
    assert_eq!(source_host("www.News.Example.org"), "news.example.org");
}

#[test]
fn mentions_and_repeated_urls() {
    assert_eq!(mentions("We love My Transfer at my-transfer.com.ua", "my transfer", "my-transfer.com.ua"), (true, true));
    assert_eq!(mentions("Nothing here", "", "example.com"), (false, false));
    let urls = vec![
        "https://a.example/x".to_string(),
        "https://a.example/x/".to_string(),
        "https://b.example/".to_string(),
    ];
    let kept = dedupe_urls(&urls);
    assert_eq!(kept.len(), 2);
    assert_eq!(kept[0], "https://a.example/x");
}

#[test]
fn builds_safe_discovery_queries() {
    let queries = build_queries(&SeoTarget { domain: "my-transfer.com.ua".into(), brand: "My Transfer".into() });
    assert!(queries
        .iter()
        .all(|q| q.query.contains("-site:my-transfer.com.ua") || q.query.contains("NOT site:my-transfer.com.ua")));
    assert!(queries.iter().any(|q| q.query == "\"My Transfer\" -site:my-transfer.com.ua"));
    assert!(queries.iter().any(|q| q.kind == "reputation"));
}

#[test]
fn derives_human_brand_from_domain() {
    assert_eq!(derive_brand("https://my-transfer.com.ua/"), "My Transfer");
}

#[test]
fn requests_and_classes() {
    assert_eq!(validate_request("brave", " ", "", 1), Err("API key is required".to_string()));
    assert_eq!(validate_request("brave", "key", "", 0), Err("At least one target is required".to_string()));
    assert_eq!(
        validate_request("google", "key", "", 1),
        Err("Google Search Engine ID (cx) is required".to_string())
    );
    assert_eq!(validate_request("bing", "key", "", 1), Err("Unsupported provider: bing".to_string()));
    assert_eq!(validate_request("google", "key", "cx", 1), Ok(()));
    assert_eq!(result_limit(50, true), 10);
    assert_eq!(result_limit(50, false), 20);
    assert_eq!(result_limit(0, false), 1);
    assert_eq!(classify("url_mention"), ("potential_backlink", "medium"));
    assert_eq!(classify("reputation"), ("reputation_mention", "medium"));
    assert_eq!(classify("brand"), ("brand_mention", "low"));
}

#[test]
fn cancel_reaches_the_running_job_and_clears_on_finish() {
    let mut manager = JobManager::idle();
    let handle = manager.begin(7);
    assert!(manager.is_running());
    assert!(!manager.cancel_requested());
    manager.cancel();
    assert!(manager.cancel_requested(), "cancel must reach the worker's flag");

    manager.clone_handle(handle.run_id).finish(&mut manager);
    assert!(!manager.is_running());
    manager.cancel();
    assert!(!manager.cancel_requested(), "a later cancel must not resurrect a finished job");
}

#[test]
fn a_cancelled_run_is_recorded_as_cancelled_not_failed() {
    let message = Cancelled.message();
    assert_eq!(run_status(Some(&message)), "cancelled");
    assert_eq!(run_status(Some("disk full")), "failed");
    assert_eq!(run_status(None), "completed");
}

#[test]
fn records_a_run_from_start_to_finish() {
    let mut run = RunRecord::start(
        1,
        "scan".into(),
        "2026-05-01T00:00:00Z".into(),
        "pagerank".into(),
        vec!["example.com".into()],
        "results".into(),
    );
    assert_eq!(run.status, "running");
    assert_eq!(run.kind, "scan");
    assert_eq!(run.targets, vec!["example.com".to_string()]);
    run.finish("2026-05-01T00:10:00Z".into(), None);
    assert_eq!(run.status, "completed");
    assert_eq!(run.finished_at.as_deref(), Some("2026-05-01T00:10:00Z"));
}

#[test]
fn a_cancelled_run_is_not_recorded_as_a_failure() {
    let mut run = RunRecord::start(2, "index".into(), "t0".into(), "pagerank".into(), vec![], "index".into());
    run.finish("t1".into(), Some("операцію скасовано".into()));
    assert_eq!(run.status, "cancelled");
    let mut failed = RunRecord::start(3, "index".into(), "t0".into(), "pagerank".into(), vec![], "index".into());
    failed.finish("t1".into(), Some("disk full".into()));
    assert_eq!(failed.status, "failed");
    assert_eq!(failed.error.as_deref(), Some("disk full"));
}
