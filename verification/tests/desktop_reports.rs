use web_radar::audit::{
    any_unsafe, audit_report, normalize_target, tally_anchors, too_large, valid_target, Anchor, IpAddress, ManualPageAudit,
};
use web_radar::desktop::{may_start, selected_tiers};
use web_radar::index::{FileFacts, GraphSources, SourceFacts, Tier};
use web_radar::jobs::JobManager;
use web_radar::meta::{product_metadata, DATA_SOURCE_URL, PRODUCT_NAME};
use web_radar::seo::{build_queries, discovery_report, Discovery, SearchItem, SeoDiscoveryRequest, SeoTarget};

#[test]
fn audit_targets_are_normalised_and_checked() {
    assert_eq!(normalize_target("  https://www.Example.COM/ "), "example.com");
    assert!(valid_target("example.com"));
    assert!(!valid_target("localhost"));
    assert!(!valid_target(""));
    assert!(too_large(3 * 1024 * 1024));
    assert!(!too_large(1024));
    assert!(any_unsafe(&[IpAddress::V4(8, 8, 8, 8), IpAddress::V4(10, 0, 0, 1)]));
    assert!(!any_unsafe(&[IpAddress::V4(8, 8, 8, 8)]));
}

#[test]
fn anchors_to_the_target_are_counted() {
    let anchors = vec![
        Anchor { host: "www.example.com".into(), text: " Example ".into(), rel: Some("nofollow".into()) },
        Anchor { host: "blog.example.com".into(), text: "".into(), rel: Some("nofollow".into()) },
        Anchor { host: "other.org".into(), text: "elsewhere".into(), rel: None },
        Anchor { host: "example.com".into(), text: "home".into(), rel: Some("ugc".into()) },
    ];
    let (count, texts, rels) = tally_anchors(&anchors, "example.com");
    assert_eq!(count, 3);
    assert_eq!(texts, vec!["Example".to_string(), "home".to_string()]);
    assert_eq!(rels, vec!["nofollow".to_string(), "ugc".to_string()]);
}

fn page(status: &str, backlink: bool, brand: bool) -> ManualPageAudit {
    ManualPageAudit {
        url: "https://a.example/".into(),
        source_domain: "a.example".into(),
        status: status.into(),
        http_status: Some(200),
        title: String::new(),
        has_backlink: backlink,
        backlink_count: usize::from(backlink),
        anchors: Vec::new(),
        rel_values: Vec::new(),
        has_brand_mention: brand,
        has_domain_mention: false,
        note: String::new(),
    }
}

#[test]
fn the_audit_report_counts_its_pages() {
    let pages = vec![page("audited", true, true), page("audited", false, true), page("blocked", false, false)];
    let report = audit_report("example.com".into(), pages);
    assert_eq!(report.audited, 3);
    assert_eq!(report.confirmed_backlinks, 1);
    assert_eq!(report.mentions_without_link, 1);
    assert_eq!(report.blocked_or_skipped, 1);
    assert_eq!(report.target_domain, "example.com");
}

#[test]
fn discovery_keeps_foreign_results_once_and_reports_on_them() {
    let target = SeoTarget { domain: "https://www.example.com/".into(), brand: String::new() };
    let queries = build_queries(&target);
    let backlink_query = queries.iter().find(|q| q.kind == "potential_backlink").expect("a backlink query");
    let mut discovery = Discovery::new();
    let item = |url: &str, host: &str| SearchItem {
        title: "t".into(),
        url: url.into(),
        snippet: "s".into(),
        host: host.into(),
    };
    discovery.accept(
        &target.domain,
        backlink_query,
        vec![
            item("https://news.org/a", "news.org"),
            item("https://news.org/a/", "news.org"),
            item("https://blog.example.com/x", "blog.example.com"),
            item("https://forum.net/t", "forum.net"),
            item("https://news.org/b", "news.org"),
        ],
    );
    assert_eq!(discovery.evidence.len(), 3, "own site and repeats are left out");
    assert!(discovery.evidence.iter().all(|e| e.target_domain == "example.com"));
    assert!(discovery.evidence.iter().all(|e| e.evidence_type == "potential_backlink" && e.confidence == "medium"));

    let report = discovery_report("brave".into(), "2026-05-01T00:00:00Z".into(), queries, discovery.evidence);
    assert_eq!(report.unique_source_domains, 2);
    assert_eq!(report.potential_backlinks, 3);
    assert_eq!(report.brand_mentions, 0);
    assert_eq!(report.reputation_mentions, 0);
    assert_eq!(report.insights.len(), 3);
    assert_eq!(report.insights[1].title, "Backlink prospects found");
    assert_eq!(report.insights[2].detail, "The most frequently discovered external domain is news.org (2).");
}

#[test]
fn a_discovery_request_is_checked_before_any_search() {
    let request = SeoDiscoveryRequest {
        provider: "google".into(),
        api_key: "key".into(),
        google_cx: " ".into(),
        targets: vec![SeoTarget { domain: "example.com".into(), brand: String::new() }],
        country: "UA".into(),
        results_per_query: 10,
    };
    assert_eq!(request.check(), Err("Google Search Engine ID (cx) is required".to_string()));
}

#[test]
fn product_strings_come_from_one_place() {
    let m = product_metadata();
    assert_eq!(m.product_name, PRODUCT_NAME);
    assert_eq!(m.product_name, "Web Radar");
    assert_eq!(m.data_source_url, DATA_SOURCE_URL);
}

#[test]
fn build_work_is_weighted_by_the_bytes_it_touches() {
    let sources = GraphSources {
        vertices: "v.txt".to_string(),
        edges: "e.txt".to_string(),
        ranks: "r.txt".to_string(),
    };
    let file = |size| FileFacts { size, is_file: true, modified: None };
    let facts = SourceFacts { vertices: file(1000), edges: file(2048), ranks: file(500) };
    assert_eq!(Tier::Lookup.work_units(&sources, facts), 1004);
    let empty = SourceFacts { vertices: file(0), edges: file(0), ranks: file(0) };
    assert!(Tier::Lookup.work_units(&sources, empty) >= 1);
}

#[test]
fn the_window_must_name_a_tier_and_wait_for_a_running_job() {
    let keys = vec!["ranks".to_string(), "bogus".to_string(), "lookup".to_string()];
    assert_eq!(selected_tiers(&keys), Ok(vec![Tier::Ranks, Tier::Lookup]));
    assert_eq!(selected_tiers(&vec!["bogus".to_string()]), Err("не вибрано жодного рівня індексу".to_string()));

    let mut jobs = JobManager::idle();
    assert!(may_start(&jobs).is_ok());
    let _handle = jobs.begin(1);
    assert!(may_start(&jobs).unwrap_err().starts_with("інша операція вже виконується"));
}
