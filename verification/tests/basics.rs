use web_radar::cli::parse_tiers;
use web_radar::config::RankMetric;
use web_radar::data_source::{crawl_from_path, instructions, GraphFile, CRAWL_LIST_URL, DEFAULT_CRAWL};
use web_radar::index::Tier;
use web_radar::lines::parse_u32;
use web_radar::number::{format_duration, human_bytes};
use web_radar::ranks::Columns;
use web_radar::reverse::{from_reverse, normalize_domain, to_reverse};

#[test]
fn parses_tier_names_and_rejects_typos() {
    assert_eq!(parse_tiers(&[]).expect("default"), Tier::all().to_vec());
    assert_eq!(parse_tiers(&["all".into()]).expect("all"), Tier::all().to_vec());
    assert_eq!(
        parse_tiers(&["inbound".into(), "Inbound".into()]).expect("dedupes"),
        vec![Tier::Inbound]
    );
    let error = parse_tiers(&["backlinks".into()]).expect_err("typo must fail");
    assert!(error.contains("inbound"), "must list valid names: {error}");
}

#[test]
fn parse_tiers_keeps_the_order_first_named() {
    assert_eq!(
        parse_tiers(&["ranks".into(), "LOOKUP".into(), "ranks".into()]).expect("two"),
        vec![Tier::Ranks, Tier::Lookup]
    );
    assert_eq!(
        parse_tiers(&["ranks".into(), "All".into(), "nonsense".into()]).expect("all wins first"),
        Tier::all().to_vec()
    );
    assert_eq!(
        parse_tiers(&["nope".into()]).unwrap_err(),
        "невідомий рівень «nope» — доступні: lookup, ranks, inbound"
    );
}

#[test]
fn formats_durations_for_humans() {
    assert_eq!(format_duration(45), "45 с");
    assert_eq!(format_duration(600), "10 хв");
    assert_eq!(format_duration(7_800), "2 год 10 хв");
}

#[test]
fn format_duration_edges() {
    assert_eq!(format_duration(0), "0 с");
    assert_eq!(format_duration(59), "59 с");
    assert_eq!(format_duration(60), "1 хв");
    assert_eq!(format_duration(3599), "59 хв");
    assert_eq!(format_duration(3600), "1 год 0 хв");
}

#[test]
fn rank_metric_round_trips_through_its_string_form() {
    for metric in [RankMetric::Pagerank, RankMetric::Harmonic] {
        assert_eq!(RankMetric::parse(metric.as_str()).expect("parse"), metric);
    }
    assert!(RankMetric::parse("betweenness").is_err());
}

#[test]
fn rank_metric_accepts_aliases_in_any_case() {
    assert_eq!(RankMetric::parse("  PR ").expect("pr"), RankMetric::Pagerank);
    assert_eq!(RankMetric::parse("HarmonicC").expect("harmonicc"), RankMetric::Harmonic);
    assert_eq!(
        RankMetric::parse("Betweenness").unwrap_err(),
        "невідома метрика «betweenness» — доступні pagerank і harmonic"
    );
}

#[test]
fn builds_the_urls_common_crawl_actually_serves() {
    assert_eq!(
        GraphFile::Edges.download_url("cc-main-2026-apr-may-jun"),
        "https://data.commoncrawl.org/projects/hyperlinkgraph/cc-main-2026-apr-may-jun/domain/cc-main-2026-apr-may-jun-domain-edges.txt.gz"
    );
    assert_eq!(
        GraphFile::Vertices.file_name("cc-main-2026-apr-may-jun"),
        "cc-main-2026-apr-may-jun-domain-vertices.txt"
    );
}

#[test]
fn only_the_seeked_files_have_to_be_unpacked() {
    assert!(GraphFile::Vertices.must_be_unpacked());
    assert!(GraphFile::Edges.must_be_unpacked());
    assert!(!GraphFile::Ranks.must_be_unpacked());
    assert_eq!(GraphFile::Ranks.resident_bytes(), GraphFile::Ranks.download_bytes());
}

#[test]
fn recognises_the_crawl_from_a_configured_path() {
    assert_eq!(
        crawl_from_path("D:/graphs/cc-main-2025-oct-nov-dec-domain-edges.txt").as_deref(),
        Some("cc-main-2025-oct-nov-dec")
    );
    assert_eq!(crawl_from_path("edges.txt"), None);
    assert_eq!(crawl_from_path("my-own-domain-edges.txt"), None);
}

#[test]
fn the_instruction_names_every_file_and_where_to_put_it() {
    let dir = "D:/graphs";
    let text = instructions(DEFAULT_CRAWL, dir);
    for file in GraphFile::all() {
        assert!(
            text.contains(&file.download_url(DEFAULT_CRAWL)),
            "missing the link for {}",
            file.key()
        );
    }
    assert!(text.contains("Розпакуйте"), "must say the archives need unpacking");
    assert!(text.contains(dir), "must say where to put them");
    assert!(text.contains(CRAWL_LIST_URL), "must say where newer crawls are listed");
}

#[test]
fn human_bytes_reads_like_a_person_wrote_it() {
    assert_eq!(human_bytes(0), "0 Б");
    assert_eq!(human_bytes(1023), "1023 Б");
    assert_eq!(human_bytes(1024), "1 КБ");
    assert_eq!(human_bytes(16 * 1024 * 1024 * 1024), "16.0 ГБ");
}

/// The integer rendering agrees with the float arithmetic it stands for.
#[test]
fn human_bytes_matches_float_formatting() {
    fn reference(bytes: u64) -> String {
        const UNITS: [&str; 5] = ["Б", "КБ", "МБ", "ГБ", "ТБ"];
        let mut value = bytes as f64;
        let mut unit = 0;
        while value >= 1024.0 && unit + 1 < UNITS.len() {
            value /= 1024.0;
            unit += 1;
        }
        if unit >= 3 {
            format!("{value:.1} {}", UNITS[unit])
        } else {
            format!("{value:.0} {}", UNITS[unit])
        }
    }
    let samples = [
        0u64, 1, 512, 1023, 1024, 1536, 1_048_575, 1_048_576, 1_572_864, 5_000_000,
        123_456_789, 1 << 30, (1 << 30) + (1 << 29), 999_999_999_999, 1 << 40, 3 << 40,
        u64::MAX / 3, u64::MAX,
    ];
    for bytes in samples {
        assert_eq!(human_bytes(bytes), reference(bytes), "bytes = {bytes}");
    }
    // Around every rounding boundary of every unit, and a spread of values.
    for unit in 1..5u32 {
        let scale = 1u64 << (10 * unit);
        for tenths in 0..10_240u64 {
            let boundary = (scale as u128 * (2 * tenths + 1) as u128 / 20) as u64;
            for bytes in [boundary.saturating_sub(1), boundary, boundary.saturating_add(1)] {
                assert_eq!(human_bytes(bytes), reference(bytes), "bytes = {bytes}");
            }
        }
        for halves in 0..1024u64 {
            let boundary = (scale as u128 * (2 * halves + 1) as u128 / 2) as u64;
            for bytes in [boundary.saturating_sub(1), boundary, boundary.saturating_add(1)] {
                assert_eq!(human_bytes(bytes), reference(bytes), "bytes = {bytes}");
            }
        }
    }
    let mut x: u64 = 0x9E37_79B9_7F4A_7C15;
    for _ in 0..100_000 {
        x = x.wrapping_mul(6364136223846793005).wrapping_add(1442695040888963407);
        let bytes = x >> (x % 64);
        assert_eq!(human_bytes(bytes), reference(bytes), "bytes = {bytes}");
    }
}

#[test]
fn detects_reordered_header_columns() {
    let columns = Columns::from_header("#host_rev\t#pr_val\t#harmonicc_val");
    assert_eq!(columns.host_rev, 0);
    assert_eq!(columns.pagerank_value, 1);
    assert_eq!(columns.harmonic_value, 2);
}

#[test]
fn header_keeps_defaults_for_columns_it_does_not_name() {
    let columns = Columns::from_header("#foo\t#bar\t#HOST_REV \t# pr_val");
    assert_eq!(columns.host_rev, 2);
    assert_eq!(columns.harmonic_position, 0);
    // "# pr_val" keeps a space after the hash, so it names nothing.
    assert_eq!(columns.pagerank_value, 3);
    assert_eq!(columns.max(), 3);
}

#[test]
fn normalize_urls() {
    assert_eq!(normalize_domain("https://www.Example.com/path?x=1"), "example.com");
    assert_eq!(normalize_domain("https://my-transfer.com.ua/"), "my-transfer.com.ua");
    assert_eq!(normalize_domain("example.com:443"), "example.com");
    assert_eq!(normalize_domain("  EXAMPLE.COM.  "), "example.com");
}

#[test]
fn reverse_reverse_basic() {
    assert_eq!(to_reverse("example.com"), "com.example");
    assert_eq!(to_reverse("en.wikipedia.org"), "org.wikipedia.en");
    assert_eq!(to_reverse("https://my-transfer.com.ua/foo"), "ua.com.my-transfer");
}

#[test]
fn reverse_reverse_roundtrip() {
    let d = "blog.example.co.uk";
    assert_eq!(from_reverse(&to_reverse(d)), d);
}

#[test]
fn reverse_reverse_case_and_trailing_dot() {
    assert_eq!(to_reverse("Example.COM."), "com.example");
}

#[test]
fn reverse_reverse_empty() {
    assert_eq!(to_reverse(""), "");
    assert_eq!(from_reverse(""), "");
}

#[test]
fn parse_u32_ok() {
    assert_eq!(parse_u32(b"0"), Some(0));
    assert_eq!(parse_u32(b"12345"), Some(12345));
    assert_eq!(parse_u32(b""), None);
    assert_eq!(parse_u32(b"12x"), None);
}

#[test]
fn parse_u32_refuses_overflow() {
    assert_eq!(parse_u32(b"4294967295"), Some(u32::MAX));
    assert_eq!(parse_u32(b"4294967296"), None);
}
