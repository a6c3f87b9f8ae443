use web_radar::config::RankMetric;
use web_radar::edges::{build_with_block_size, EdgeIndex};
use web_radar::inbound::{
    bucket_span, csr_step, encode_offsets, encode_sources, inbound_header, partition_edges, pick_bucket_count,
    tail_offsets, InboundIndex,
};
use web_radar::lines::trim_eol;
use web_radar::query::{Engine, GraphFiles, LinkFacts, QueryOptions};
use web_radar::ranks::{
    check_join_input, fill_slab, join_outcome, partition_bounds, partition_of, plan_join, rank_record, ranks_header,
    slab_step, zero_rows, RankIndex, RankReader, RankRow,
};
use web_radar::vertices::{VertexIndex, VertexIndexBuilder, VerticesSummary};

// ---------------------------------------------------------------------------
// Building the tiers in memory from the verified pieces
// ---------------------------------------------------------------------------

fn vertex_index(text: &str) -> (VertexIndex, VerticesSummary) {
    let mut builder = VertexIndexBuilder::new();
    builder.feed(text.as_bytes());
    let summary = builder.summary();
    let built = builder.finish(text.len() as u64);
    let reopened = VertexIndex::open(&built.encode(), text.len() as u64).expect("open vertices index");
    (reopened, summary)
}

fn edge_index(text: &str, block: u64) -> EdgeIndex {
    let (blocks, summary) = build_with_block_size(text.as_bytes(), block).expect("sample edges");
    let built = EdgeIndex {
        blocks,
        block_bytes: block as u32,
        file_size: text.len() as u64,
        sorted_by_from: summary.sorted_by_from,
        estimated_edges: summary.estimated_edges,
    };
    EdgeIndex::open(&built.encode(), text.len() as u64).expect("open edges index")
}

/// `inbound.off` and `inbound.src` for an edges text.
fn inbound_files(text: &str, node_capacity: u64, estimated_edges: u64) -> (Vec<u8>, Vec<u8>) {
    let bucket_count = pick_bucket_count(estimated_edges);
    let span = bucket_span(node_capacity, bucket_count);
    let mut buckets: Vec<Vec<u64>> = vec![Vec::new(); bucket_count as usize];
    for (bucket, record) in partition_edges(text.as_bytes(), bucket_count, span) {
        buckets[bucket as usize].push(record);
    }
    let mut offsets = inbound_header(node_capacity, 0);
    let mut sources = Vec::new();
    let mut written: u64 = 0;
    let mut next_id: u64 = 0;
    for bucket in 0..bucket_count {
        let records = std::mem::take(&mut buckets[bucket as usize]);
        let (next, total, bucket_offsets, bucket_sources, stop) =
            csr_step(next_id, written, bucket, span, node_capacity, records);
        if stop {
            break;
        }
        offsets.extend(encode_offsets(&bucket_offsets));
        sources.extend(encode_sources(&bucket_sources));
        written = total;
        next_id = next;
    }
    offsets.extend(encode_offsets(&tail_offsets(next_id, node_capacity, written)));
    offsets[..64].copy_from_slice(&inbound_header(node_capacity, written));
    (offsets, sources)
}

fn value_bits(text: &[u8]) -> u32 {
    let value: f64 = std::str::from_utf8(text).ok().and_then(|t| t.parse().ok()).unwrap_or(0.0);
    (value as f32).to_bits()
}

/// `ranks.bin` for a ranks text joined onto the vertices index; with the
/// number of rows placed.
fn rank_file(text: &str, vertices: &VertexIndex, vertices_text: &str, node_capacity: u64) -> (Vec<u8>, u64) {
    check_join_input(vertices).expect("sorted vertices");
    let plan = plan_join(vertices.block_count());
    let mut parts: Vec<Vec<u8>> = vec![Vec::new(); plan.partition_count];
    let mut reader = RankReader::new();
    let mut rows: u64 = 0;
    for raw in text.as_bytes().split(|b| *b == b'\n') {
        let line = trim_eol(raw);
        if let Some(fields) = reader.read_line(line) {
            let row = RankRow {
                pagerank_bits: value_bits(fields.pagerank_text),
                harmonic_bits: value_bits(fields.harmonic_text),
                pagerank_position: fields.pagerank_position,
                harmonic_position: fields.harmonic_position,
            };
            let partition = partition_of(plan, vertices.block_of_name(fields.name));
            parts[partition].extend(rank_record(fields.name, &row));
            rows += 1;
        }
    }
    let mut out = ranks_header(node_capacity);
    let mut matched: u64 = 0;
    let mut next_id: u64 = 0;
    for p in 0..plan.partition_count {
        let (first, last, from_id, to_id) = partition_bounds(plan, vertices, p, node_capacity);
        let span = to_id.saturating_sub(from_id) as usize;
        let names = vertices.names_in_blocks(vertices_text.as_bytes(), first, last).expect("names");
        let (slab, placed) = fill_slab(&parts[p], &names, from_id, span);
        let (bytes, next) = slab_step(next_id, from_id, to_id, slab);
        out.extend(bytes);
        matched += placed;
        next_id = next;
    }
    if next_id < node_capacity {
        out.extend(zero_rows(node_capacity - next_id));
    }
    (out, join_outcome(rows, matched).expect("join"))
}

// ---------------------------------------------------------------------------
// Vertices
// ---------------------------------------------------------------------------

fn site_list(count: u32) -> String {
    let mut text = String::new();
    for i in 0..count {
        text.push_str(&format!("{i}\tcom.site{i:05}\t1\n"));
    }
    text
}

#[test]
fn resolves_names_and_ids_in_both_directions() {
    let source = site_list(2000);
    let (index, summary) = vertex_index(&source);
    assert_eq!(summary.node_count, 2000);
    assert!(summary.sorted_by_name && summary.sorted_by_id);
    assert!(index.block_count() > 1, "fixture must span several blocks");

    let bytes = source.as_bytes();
    assert_eq!(index.id_of(bytes, "com.site00000").expect("lookup"), Some(0));
    assert_eq!(index.id_of(bytes, "com.site01999").expect("lookup"), Some(1999));
    assert_eq!(index.id_of(bytes, "com.site00777").expect("lookup"), Some(777));
    assert_eq!(index.id_of(bytes, "com.nothing-here").expect("lookup"), None);
    assert_eq!(index.name_of(bytes, 1234).expect("name"), Some("com.site01234".to_string()));

    let mut seen = index.names_of(bytes, &[5, 300, 301, 1998]).expect("batch");
    assert_eq!(seen.len(), 4, "batch resolution lost ids: {seen:?}");
    seen.sort();
    assert_eq!(seen[0], (5, "com.site00005".to_string()));
    assert_eq!(seen[3], (1998, "com.site01998".to_string()));
}

#[test]
fn dense_batch_takes_the_sequential_path_and_still_resolves_everything() {
    let source = site_list(2000);
    let (index, _) = vertex_index(&source);
    let ids: Vec<u32> = (0..2000).step_by(3).collect();
    let resolved = index.names_of(source.as_bytes(), &ids).expect("batch");
    assert!(resolved.iter().all(|(_, name)| name.starts_with("com.site")));
    assert_eq!(resolved.len(), ids.len());
}

#[test]
fn refuses_name_lookup_when_the_file_is_not_sorted() {
    let source = "0\tcom.b\t1\n1\tcom.a\t1\n2\tcom.c\t1\n";
    let (index, summary) = vertex_index(source);
    assert!(!summary.sorted_by_name, "unsorted input must be reported as such");
    assert!(summary.sorted_by_id);
    assert!(index.id_of(source.as_bytes(), "com.a").is_err());
    assert_eq!(index.name_of(source.as_bytes(), 1).expect("name"), Some("com.a".to_string()));
}

#[test]
fn rejects_an_index_whose_source_changed() {
    let source = site_list(2000);
    let mut builder = VertexIndexBuilder::new();
    builder.feed(source.as_bytes());
    let raw = builder.finish(source.len() as u64).encode();

    let mut changed = source.clone();
    changed.push_str("2000\tcom.site02000\t1\n");
    let error = VertexIndex::open(&raw, changed.len() as u64).err().expect("stale index must fail");
    let text = error.message("vertices", "index/vertices.idx");
    assert!(text.contains("перебудуйте"), "unhelpful: {text}");
}

// ---------------------------------------------------------------------------
// Edges
// ---------------------------------------------------------------------------

fn edge_fixture() -> String {
    let mut text = String::with_capacity(9 << 20);
    for from in 0..400u32 {
        for step in 0..40u32 {
            text.push_str(&format!("{from}\t{}\n", 100_000 + from * 40 + step));
        }
        for _ in 0..300 {
            text.push_str(&format!("{from}\t{}\n", 900_000 + from));
        }
    }
    text
}

#[test]
fn finds_the_outbound_run_of_a_domain() {
    let source = edge_fixture();
    let (_, summary) = build_with_block_size(source.as_bytes(), 64 << 10).expect("build");
    assert!(summary.sorted_by_from);
    assert!(summary.estimated_edges > 0);

    let index = edge_index(&source, 64 << 10);
    assert!(index.blocks.len() > 1, "fixture must span several sample blocks");

    for probe in [0u32, 1, 137, 399] {
        let (destinations, truncated) = index.outbound(source.as_bytes(), probe, 10_000).expect("outbound");
        assert!(!truncated);
        assert!(destinations.contains(&(100_000 + probe * 40)), "missing first destination of {probe}");
        assert!(destinations.contains(&(100_000 + probe * 40 + 39)), "missing last destination of {probe}");
        assert!(destinations.iter().all(|&to| to >= 100_000), "leaked a neighbour of another domain into {probe}");
    }

    assert!(index.outbound(source.as_bytes(), 100_000, 10).expect("absent").0.is_empty());
}

#[test]
fn honours_the_limit_and_reports_truncation() {
    let source = edge_fixture();
    let index = edge_index(&source, 64 << 10);
    let (destinations, truncated) = index.outbound(source.as_bytes(), 7, 5).expect("outbound");
    assert_eq!(destinations.len(), 5);
    assert!(truncated, "limit reached but truncation not reported");
}

// ---------------------------------------------------------------------------
// Inbound
// ---------------------------------------------------------------------------

#[test]
fn transposes_the_edge_list() {
    let mut text = String::new();
    let mut expected: Vec<Vec<u32>> = vec![Vec::new(); 500];
    for from in 0..500u32 {
        for step in 0..7u32 {
            let to = (from * 13 + step * 29) % 500;
            text.push_str(&format!("{from}\t{to}\n"));
            if to != from {
                expected[to as usize].push(from);
            }
        }
        text.push_str(&format!("{from}\t{from}\n"));
        text.push_str(&format!("{from}\t{}\n", (from * 13) % 500));
    }
    let (offsets, sources) = inbound_files(&text, 500, 4000);
    let index = InboundIndex::open(&offsets, sources.len() as u64).expect("open");
    assert!(index.edge_count > 0, "index must contain edges");

    for (target, want) in expected.iter_mut().enumerate() {
        want.sort_unstable();
        want.dedup();
        let (got, total) = index.sources_of(&offsets, &sources, target as u32, 10_000);
        assert_eq!(&got, want, "backlinks of {target}");
        assert_eq!(total, want.len() as u64);
        assert_eq!(index.in_degree(&offsets, target as u32), want.len() as u64);
    }
}

#[test]
fn caps_the_result_but_reports_the_true_total() {
    let mut text = String::new();
    for from in 1..200u32 {
        text.push_str(&format!("{from}\t0\n"));
    }
    let (offsets, sources) = inbound_files(&text, 200, 200);
    let index = InboundIndex::open(&offsets, sources.len() as u64).expect("open");
    let (list, total) = index.sources_of(&offsets, &sources, 0, 10);
    assert_eq!(list.len(), 10);
    assert_eq!(total, 199, "total must ignore the display limit");
}

// ---------------------------------------------------------------------------
// Ranks
// ---------------------------------------------------------------------------

#[test]
fn joins_ranks_onto_domain_ids() {
    let mut vertex_text = String::new();
    for i in 0..1000u32 {
        vertex_text.push_str(&format!("{i}\tcom.site{i:04}\t1\n"));
    }
    let (index, summary) = vertex_index(&vertex_text);

    let mut ranks_text = String::from("#harmonicc_pos\t#harmonicc_val\t#pr_pos\t#pr_val\t#host_rev\t#n_hosts\n");
    for i in (0..1000u32).rev() {
        let position = 1000 - i;
        ranks_text.push_str(&format!(
            "{position}\t{}.0\t{position}\t{}E-9\tcom.site{i:04}\t1\n",
            1_000_000 - i,
            4 + i % 5
        ));
    }
    let (raw, matched) = rank_file(&ranks_text, &index, &vertex_text, u64::from(summary.max_id) + 1);
    assert_eq!(matched, 1000, "every domain must find its rank row");

    let ranks = RankIndex::open(&raw).expect("open ranks");
    let row = ranks.get(&raw, 7).expect("rank of id 7");
    let pagerank = f32::from_bits(row.pagerank_bits) as f64;
    assert!((pagerank - 6e-9).abs() < 1e-12, "unexpected pagerank {row:?}");
    assert_eq!(row.harmonic_position, 1000 - 7);
    assert_eq!(ranks.get(&raw, 999).expect("last").harmonic_position, 1);
    assert!(ranks.get(&raw, 5000).is_none(), "out-of-range id must be None");
}

// ---------------------------------------------------------------------------
// Queries over a three-domain graph
// ---------------------------------------------------------------------------

const VERTICES: &str = "0\tcom.aaa\t1\n1\tcom.bbb\t1\n2\torg.ccc\t1\n";
const EDGES: &str = "0\t2\n1\t0\n2\t0\n";
const RANKS: &str = "#harmonicc_pos\t#harmonicc_val\t#pr_pos\t#pr_val\t#host_rev\t#n_hosts\n\
1\t900.0\t1\t5.0E-9\tcom.aaa\t1\n\
2\t800.0\t3\t3.0E-9\tcom.bbb\t1\n\
3\t700.0\t2\t4.0E-9\torg.ccc\t1\n";

struct Tiers {
    vertices: VertexIndex,
    edges: EdgeIndex,
    ranks: Vec<u8>,
    offsets: Vec<u8>,
    sources: Vec<u8>,
}

fn three_domains() -> Tiers {
    let (vertices, summary) = vertex_index(VERTICES);
    let edges = edge_index(EDGES, 4 << 20);
    let capacity = u64::from(summary.max_id) + 1;
    let (ranks, _) = rank_file(RANKS, &vertices, VERTICES, capacity);
    let (offsets, sources) = inbound_files(EDGES, capacity, edges.estimated_edges);
    Tiers { vertices, edges, ranks, offsets, sources }
}

fn engine(tiers: Tiers, with_inbound: bool) -> (Engine, Vec<u8>, Vec<u8>, Vec<u8>) {
    let ranks = RankIndex::open(&tiers.ranks).expect("ranks");
    let inbound = if with_inbound {
        Some(InboundIndex::open(&tiers.offsets, tiers.sources.len() as u64).expect("inbound"))
    } else {
        None
    };
    let engine = Engine::from_parts(Some(tiers.vertices), Some(tiers.edges), Some(ranks), inbound);
    (engine, tiers.ranks, tiers.offsets, tiers.sources)
}

fn rank_value(row: Option<RankRow>, metric: RankMetric) -> f64 {
    row.map(|r| f32::from_bits(r.value_bits(metric)) as f64).unwrap_or(0.0)
}

/// The neighbours as the report lists them: highest rank first, then by name.
fn listed(links: &[LinkFacts], metric: RankMetric) -> Vec<String> {
    let mut entries: Vec<(f64, String)> =
        links.iter().map(|l| (rank_value(l.row, metric), l.domain.clone())).collect();
    entries.sort_by(|a, b| b.0.partial_cmp(&a.0).unwrap_or(std::cmp::Ordering::Equal).then_with(|| a.1.cmp(&b.1)));
    entries.into_iter().map(|(_, d)| d).collect()
}

fn assert_close(got: f64, want: f64) {
    assert!((got - want).abs() <= want.abs() * 1e-6, "rank {got:e} is not within f32 precision of {want:e}");
}

#[test]
fn answers_both_directions_with_ranks() {
    let (engine, ranks, offsets, sources) = engine(three_domains(), true);
    let files = GraphFiles {
        vertices: VERTICES.as_bytes(),
        edges: EDGES.as_bytes(),
        ranks: &ranks,
        inbound_offsets: &offsets,
        inbound_sources: &sources,
    };
    let c = engine.capabilities();
    assert!(c.lookup && c.outbound && c.inbound && c.ranks);

    let report = engine.query(&files, "https://www.AAA.com/some/path?x=1", QueryOptions::default()).expect("query");
    assert!(report.found, "aaa.com must be found: {:?}", report.warnings);
    assert_eq!(report.domain, "aaa.com");
    assert_eq!(report.node_id, Some(0));
    assert_close(rank_value(report.row, RankMetric::Pagerank), 5.0e-9);
    assert_eq!(report.position, Some(1));
    assert_eq!(listed(&report.inbound, RankMetric::Pagerank), vec!["ccc.org", "bbb.com"], "sorted by rank descending");
    assert_eq!(report.inbound_total, 2);
    assert_eq!(listed(&report.outbound, RankMetric::Pagerank), vec!["ccc.org"]);
    assert!(report.warnings.is_empty(), "unexpected warnings: {:?}", report.warnings);
}

#[test]
fn missing_domain_is_reported_not_invented() {
    let (engine, ranks, offsets, sources) = engine(three_domains(), true);
    let files = GraphFiles {
        vertices: VERTICES.as_bytes(),
        edges: EDGES.as_bytes(),
        ranks: &ranks,
        inbound_offsets: &offsets,
        inbound_sources: &sources,
    };
    let report = engine.query(&files, "nowhere.example", QueryOptions::default()).expect("query");
    assert!(!report.found);
    assert!(report.inbound.is_empty() && report.outbound.is_empty());
    assert!(report.warnings.iter().any(|w| w.contains("відсутній")), "the user must be told why: {:?}", report.warnings);
}

#[test]
fn without_the_inbound_tier_it_says_so_instead_of_answering_zero() {
    let (engine, ranks, offsets, sources) = engine(three_domains(), false);
    let files = GraphFiles {
        vertices: VERTICES.as_bytes(),
        edges: EDGES.as_bytes(),
        ranks: &ranks,
        inbound_offsets: &offsets,
        inbound_sources: &sources,
    };
    assert!(!engine.capabilities().inbound);
    let report = engine.query(&files, "aaa.com", QueryOptions::default()).expect("query");
    assert!(report.found);
    assert!(report.inbound.is_empty());
    assert_eq!(report.inbound_total, 0);
    assert!(
        report.warnings.iter().any(|w| w.contains("Зворотні посилання")),
        "a missing tier must be named: {:?}",
        report.warnings
    );
    assert_eq!(report.outbound.len(), 1);
    assert_close(rank_value(report.row, RankMetric::Pagerank), 5.0e-9);
}

#[test]
fn harmonic_metric_changes_both_value_and_order() {
    let (engine, ranks, offsets, sources) = engine(three_domains(), true);
    let files = GraphFiles {
        vertices: VERTICES.as_bytes(),
        edges: EDGES.as_bytes(),
        ranks: &ranks,
        inbound_offsets: &offsets,
        inbound_sources: &sources,
    };
    let options = QueryOptions { metric: RankMetric::Harmonic, ..QueryOptions::default() };
    let report = engine.query(&files, "aaa.com", options).expect("query");
    assert_eq!(rank_value(report.row, RankMetric::Harmonic), 900.0);
    assert_eq!(report.position, Some(1));
    assert_eq!(report.metric, "harmonic");
    assert_eq!(listed(&report.inbound, RankMetric::Harmonic), vec!["bbb.com", "ccc.org"]);
}

#[test]
fn a_query_that_is_not_a_domain_is_refused() {
    let (engine, ranks, offsets, sources) = engine(three_domains(), true);
    let files = GraphFiles {
        vertices: VERTICES.as_bytes(),
        edges: EDGES.as_bytes(),
        ranks: &ranks,
        inbound_offsets: &offsets,
        inbound_sources: &sources,
    };
    assert!(engine.query(&files, "https:///", QueryOptions::default()).is_err());
    assert_eq!(engine.resolve(&files, "bbb.com"), Ok(Some(1)));
}
