use web_radar::config::{default_index_dir, default_results_dir, Config, PathKind, PathsConfig, RankMetric, Target};
use web_radar::desktop::{toml_for, UiConfig};

fn minimal() -> Config {
    Config {
        paths: PathsConfig {
            vertices: "v.txt".to_string(),
            edges: "e.txt".to_string(),
            ranks: "r.txt".to_string(),
            results_dir: default_results_dir(),
            index_dir: default_index_dir(),
        },
        rank_metric: RankMetric::Pagerank,
        targets: vec![Target { domain: "https://www.Example.COM/path".to_string() }],
        config_dir: String::new(),
    }
}

fn sample_config() -> UiConfig {
    UiConfig {
        vertices: "v.txt".into(),
        edges: "e.txt".into(),
        ranks: "r.txt".into(),
        results_dir: "results".into(),
        index_dir: "index".into(),
        rank_metric: "harmonic".into(),
        targets: vec!["example.com".into(), "  ".into()],
    }
}

#[test]
fn parses_a_minimal_config_and_normalises_targets() {
    let cfg = minimal();
    assert_eq!(cfg.rank_metric, RankMetric::Pagerank);
    assert_eq!(cfg.paths.results_dir, "results");
    assert_eq!(cfg.paths.index_dir, "index");

    let resolved = cfg.resolved_targets().expect("resolve");
    assert_eq!(resolved[0].domain, "example.com");
    assert_eq!(resolved[0].reverse, "com.example");
}

#[test]
fn parse_minimal_config() {
    let cfg = minimal();
    assert_eq!(cfg.paths.vertices, "v.txt");
    assert_eq!(cfg.rank_metric, RankMetric::Pagerank);
    let resolved = cfg.resolved_targets().unwrap();
    assert_eq!(resolved[0].domain, "example.com");
    assert_eq!(resolved[0].reverse, "com.example");
}

#[test]
fn relative_paths_resolve_against_the_config_directory() {
    let mut cfg = minimal();
    let mut base = std::path::PathBuf::from("data");
    base.push("graphs");
    let base_text = base.to_string_lossy().into_owned();
    cfg.resolve_relative_to(&base_text);

    let mut expected = base.clone();
    expected.push("v.txt");
    assert_eq!(cfg.paths.vertices, expected.to_string_lossy());

    let mut expected_index = base;
    expected_index.push("index");
    assert_eq!(cfg.paths.index_dir, expected_index.to_string_lossy());
}

#[test]
fn absolute_paths_are_left_alone() {
    let mut cfg = minimal();
    cfg.paths.edges = "/srv/graphs/elsewhere.txt".to_string();
    cfg.resolve_relative_to("data");
    assert_eq!(cfg.paths.edges, "/srv/graphs/elsewhere.txt");
    assert_eq!(cfg.paths.ranks, "data/r.txt");
}

#[test]
fn missing_files_produce_a_message_that_says_what_to_do() {
    let cfg = minimal();
    let error = cfg
        .ensure_files([PathKind::Missing, PathKind::Missing, PathKind::Missing])
        .expect_err("files do not exist");
    assert!(error.contains("vertices"), "must name the file: {error}");
    assert!(error.contains("commoncrawl.org"), "must say where to get it: {error}");
}

#[test]
fn a_directory_where_a_file_belongs_is_named() {
    let cfg = minimal();
    let error = cfg
        .ensure_files([PathKind::File, PathKind::Directory, PathKind::File])
        .expect_err("edges is a directory");
    assert!(error.starts_with("шлях edges веде до теки"), "{error}");
    assert!(cfg.ensure_files([PathKind::File, PathKind::File, PathKind::File]).is_ok());
}

#[test]
fn duplicate_and_invalid_targets() {
    let mut cfg = minimal();
    cfg.targets = vec![
        Target { domain: "Example.com".to_string() },
        Target { domain: "https://example.com/x".to_string() },
        Target { domain: "other.org".to_string() },
    ];
    let resolved = cfg.resolved_targets().expect("two distinct");
    assert_eq!(resolved.len(), 2);
    assert_eq!(resolved[1].reverse, "org.other");

    cfg.targets = vec![Target { domain: "https:///".to_string() }];
    let error = cfg.resolved_targets().err().expect("nothing left of it");
    assert_eq!(error, "некоректний домен: «https:///»");

    cfg.targets = vec![];
    let error = cfg.resolved_targets().err().expect("no targets");
    assert!(error.contains("[[targets]]"), "{error}");
}

#[test]
fn ui_config_round_trips_through_the_engine_shape() {
    let cfg = sample_config().into_engine_config().expect("convert");
    assert_eq!(cfg.rank_metric, RankMetric::Harmonic);
    assert_eq!(cfg.targets.len(), 1, "blank rows must be dropped");

    let back = UiConfig::from_config(&cfg);
    assert_eq!(back.rank_metric, "harmonic");
    assert_eq!(back.targets, vec!["example.com".to_string()]);
}

#[test]
fn rejects_an_unknown_metric_instead_of_defaulting() {
    let mut config = sample_config();
    config.rank_metric = "betweenness".into();
    assert!(config.into_engine_config().is_err());
}

fn parse_back(text: &str) -> toml::Value {
    text.parse::<toml::Value>().expect("re-parse generated config")
}

#[test]
fn generated_toml_parses_back_into_the_same_config() {
    let cfg = sample_config().into_engine_config().expect("convert");
    let text = toml_for(&cfg);
    let parsed = parse_back(&text);
    assert_eq!(parsed["rank_metric"].as_str(), Some("harmonic"));
    assert_eq!(parsed["targets"][0]["domain"].as_str(), Some("example.com"));
    assert_eq!(parsed["paths"]["index_dir"].as_str(), Some("index"));
}

#[test]
fn windows_paths_survive_the_toml_round_trip() {
    let mut config = sample_config();
    let windows_path = "D:\\graphs\\vertices.txt".to_string();
    config.vertices = windows_path.clone();

    let cfg = config.into_engine_config().expect("convert");
    let parsed = parse_back(&toml_for(&cfg));
    assert_eq!(parsed["paths"]["vertices"].as_str(), Some(windows_path.as_str()));
}

#[test]
fn a_directory_holding_one_matching_file_stands_for_it() {
    let mut cfg = minimal();
    cfg.resolve_relative_to("data");
    let listing = |names: &[&str]| Some(names.iter().map(|n| n.to_string()).collect::<Vec<String>>());
    cfg.unwrap_source_dirs(
        listing(&["README.md", "cc-main-2026-domain-Vertices.txt"]),
        listing(&["a-edges.txt", "b-edges.txt"]),
        None,
    );
    assert_eq!(cfg.paths.vertices, "data/v.txt/cc-main-2026-domain-Vertices.txt");
    assert_eq!(cfg.paths.edges, "data/e.txt", "two candidates: the directory is kept");
    assert_eq!(cfg.paths.ranks, "data/r.txt");
}
