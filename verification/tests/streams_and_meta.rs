use web_radar::chunks::{batches_of, ChunkReader, ChunkStep};
use web_radar::index::{
    check_build_sources, forget_tier, plan_build, record_tier, space_needed_fits, FileFacts, GraphIndex, GraphSources, IndexFacts, IndexMeta,
    SourceFacts, SourceFingerprint, Tier, TierRecord, TierState,
};
use web_radar::lines::{parse_u32, split_on_lines, trim_eol};
use web_radar::ranks::split_tabs;
use web_radar::scan::{collect_edges, collect_names, collect_targets, found_in_order, missing_targets, named_links, neighbours_of, ScanRanks};
use web_radar::config::{RankMetric, ResolvedTarget};
use ahash::{AHashMap, AHashSet};

#[test]
fn split_keeps_every_byte_and_never_cuts_a_line() {
    let data = b"aaa\nbb\ncccc\nd\nee\n";
    for parts in 1..6 {
        let chunks = split_on_lines(data, parts);
        assert_eq!(chunks.iter().map(|c| c.len()).sum::<usize>(), data.len(), "parts={parts} lost bytes");
        for chunk in &chunks {
            assert_eq!(*chunk.last().unwrap(), b'\n', "parts={parts} cut a line");
        }
    }
}

/// Drive the reader the way the program does, feeding `step` bytes at a time.
fn read_back(source: &[u8], chunk: usize, step: usize) -> (Vec<u8>, usize) {
    let batches = batches_of(source, chunk, step);
    let mut rebuilt = Vec::new();
    for (k, (base, lines)) in batches.iter().enumerate() {
        assert_eq!(*base, rebuilt.len() as u64, "offsets must be contiguous");
        assert!(!lines.is_empty());
        assert!(*lines.last().unwrap() == b'\n' || k + 1 == batches.len(), "a batch cut a line");
        rebuilt.extend_from_slice(lines);
    }
    (rebuilt, batches.len())
}

#[test]
fn the_reader_driven_by_hand_gives_the_same_batches() {
    let source = "a\tb\nccc\nlast line without end";
    let mut reader = ChunkReader::new(source.len() as u64, 4);
    let mut at = 0usize;
    let mut by_hand = Vec::new();
    loop {
        match reader.next_lines() {
            ChunkStep::NeedBytes => {
                let end = (at + 3).min(source.len());
                reader.feed(&source.as_bytes()[at..end]);
                at = end;
            }
            ChunkStep::Lines(base) => by_hand.push((base, reader.lines().to_vec())),
            ChunkStep::Finished => break,
        }
    }
    assert_eq!(by_hand, batches_of(source.as_bytes(), 4, 3));
}

#[test]
fn chunk_reader_reconstructs_the_file_exactly() {
    let mut source = String::new();
    for i in 0..5000 {
        source.push_str(&format!("{i}\tcom.example{}\t1\n", "x".repeat(i % 40)));
    }
    source.push_str("9999\tcom.no-trailing-newline\t1");

    let (rebuilt, batches) = read_back(source.as_bytes(), 64, 64);
    assert!(batches > 10, "chunking never kicked in ({batches} batches)");
    assert_eq!(String::from_utf8(rebuilt).unwrap(), source);
}

#[test]
fn chunk_reader_grows_past_a_line_longer_than_its_chunk() {
    let source = format!("{}\nshort\n", "y".repeat(500));
    let (rebuilt, batches) = read_back(source.as_bytes(), 16, 7);
    assert_eq!(rebuilt, source.as_bytes());
    assert!(batches >= 1);
    let (empty, none) = read_back(b"", 16, 16);
    assert!(empty.is_empty());
    assert_eq!(none, 0);
}

#[test]
fn parses_numbers_and_trims_both_line_endings() {
    assert_eq!(parse_u32(b"12345"), Some(12345));
    assert_eq!(parse_u32(b"12x"), None);
    assert_eq!(parse_u32(b""), None);
    assert_eq!(trim_eol(b"a\tb\r\n"), b"a\tb");
    assert_eq!(trim_eol(b"a\tb\n"), b"a\tb");
    assert_eq!(trim_eol(b"a\tb"), b"a\tb");
}

#[test]
fn split_tabs_basic() {
    let f = split_tabs(b"a\tb\tc");
    assert_eq!(f, vec![&b"a"[..], &b"b"[..], &b"c"[..]]);
    assert_eq!(split_tabs(b""), vec![&b""[..]]);
    assert_eq!(split_tabs(b"\t"), vec![&b""[..], &b""[..]]);
}

// ---------------------------------------------------------------------------
// Index metadata and status
// ---------------------------------------------------------------------------

fn sources() -> GraphSources {
    GraphSources {
        vertices: "graphs/cc-main-2026-feb-mar-apr-domain-vertices.txt".to_string(),
        edges: "graphs/cc-main-2026-feb-mar-apr-domain-edges.txt".to_string(),
        ranks: "graphs/cc-main-2026-feb-mar-apr-domain-ranks.txt".to_string(),
    }
}

fn present(size: u64) -> FileFacts {
    FileFacts { size, is_file: true, modified: Some(1_700_000_000) }
}

fn fingerprints(ranks_size: u64) -> [SourceFingerprint; 3] {
    let s = sources();
    [
        SourceFingerprint { path: s.vertices, size: 1000, modified: Some(1) },
        SourceFingerprint { path: s.edges, size: 2000, modified: Some(1) },
        SourceFingerprint { path: s.ranks, size: ranks_size, modified: Some(1) },
    ]
}

fn facts(meta: IndexMeta, ranks_size: u64, files: [bool; 3]) -> IndexFacts {
    IndexFacts {
        meta,
        sources: SourceFacts { vertices: present(1000), edges: present(2000), ranks: present(ranks_size) },
        fingerprints: fingerprints(ranks_size),
        tier_bytes: [10, 20, 30],
        tier_files: files,
        free_bytes: 1 << 40,
    }
}

fn built(meta: &mut IndexMeta, tier: Tier, ranks_size: u64) {
    let record = TierRecord {
        built_at: "2026-05-01T00:00:00Z".to_string(),
        built_by: "0.4.0".to_string(),
        bytes: 10,
        sources: tier.sources(&fingerprints(ranks_size)),
    };
    record_tier(meta, tier, record);
}

#[test]
fn builds_every_tier_and_reports_them_ready() {
    let index = GraphIndex::new("index".to_string());
    let fresh = index.status(&sources(), &facts(IndexMeta::empty(), 3000, [false; 3]));
    assert!(
        Tier::all().into_iter().all(|tier| fresh.tier(tier).unwrap().state == TierState::Missing),
        "a fresh directory must report every tier missing"
    );
    assert_eq!(plan_build(&Tier::all(), false), vec![Tier::Lookup, Tier::Ranks, Tier::Inbound]);

    let mut meta = IndexMeta::empty();
    for tier in Tier::all() {
        built(&mut meta, tier, 3000);
    }
    let status = index.status(&sources(), &facts(meta, 3000, [true; 3]));
    assert!(status.blockers.is_empty(), "unexpected blockers: {:?}", status.blockers);
    for tier in Tier::all() {
        let tier_status = status.tier(tier).expect("tier status");
        assert_eq!(tier_status.state, TierState::Ready, "{} not ready", tier.key());
        assert!(tier_status.bytes > 0, "{} wrote nothing", tier.key());
    }
}

#[test]
fn a_changed_source_file_marks_its_tiers_stale() {
    let index = GraphIndex::new("index".to_string());
    let mut meta = IndexMeta::empty();
    built(&mut meta, Tier::Lookup, 3000);
    built(&mut meta, Tier::Ranks, 3000);
    assert!(index.status(&sources(), &facts(meta, 3000, [true, true, false])).is_ready(Tier::Ranks));

    let mut meta = IndexMeta::empty();
    built(&mut meta, Tier::Lookup, 3000);
    built(&mut meta, Tier::Ranks, 3000);
    let status = index.status(&sources(), &facts(meta, 3100, [true, true, false]));
    assert_eq!(status.tier(Tier::Ranks).unwrap().state, TierState::Stale);
    assert_eq!(status.tier(Tier::Lookup).unwrap().state, TierState::Ready);
}

#[test]
fn dropping_a_tier_removes_its_files() {
    let index = GraphIndex::new("index".to_string());
    let mut meta = IndexMeta::empty();
    for tier in Tier::all() {
        built(&mut meta, tier, 3000);
    }
    forget_tier(&mut meta, Tier::Inbound);
    let status = index.status(&sources(), &facts(meta, 3000, [true, true, false]));
    assert_eq!(status.tier(Tier::Inbound).unwrap().state, TierState::Missing);
    assert!(status.is_ready(Tier::Lookup), "unrelated tiers must survive");
    assert_eq!(Tier::Inbound.files("index"), vec!["index/inbound.off".to_string(), "index/inbound.src".to_string()]);
}

#[test]
fn refuses_a_compressed_vertices_file_with_an_actionable_message() {
    let mut s = sources();
    s.vertices = "graphs/vertices.txt.gz".to_string();
    let f = SourceFacts { vertices: present(1000), edges: present(2000), ranks: present(3000) };
    let error = check_build_sources(&s, f).expect_err("a seeked source cannot stay gzipped");
    assert!(error.contains("розпакуйте"), "must say what to do: {error}");
    assert!(error.contains("ranks розпаковувати не треба"), "must say which file is exempt: {error}");

    let index = GraphIndex::new("index".to_string());
    let mut all = facts(IndexMeta::empty(), 3000, [false; 3]);
    all.sources = f;
    let status = index.status(&s, &all);
    assert!(status.blockers.iter().any(|b| b.contains(".gz")), "{:?}", status.blockers);
}

#[test]
fn a_gzipped_ranks_file_is_accepted_because_it_is_only_ever_streamed() {
    let mut s = sources();
    s.ranks = "graphs/ranks.txt.gz".to_string();
    let f = SourceFacts { vertices: present(1000), edges: present(2000), ranks: present(3000) };
    assert!(check_build_sources(&s, f).is_ok());
}

// ---------------------------------------------------------------------------
// The streaming passes
// ---------------------------------------------------------------------------

const VERTICES: &[u8] = b"0\tcom.aaa\t1\n1\tcom.bbb\t1\n2\torg.ccc\t1\n";
const EDGES: &[u8] = b"0\t2\n1\t0\n2\t0\n";
const RANKS: &[u8] = b"#harmonicc_pos\t#harmonicc_val\t#pr_pos\t#pr_val\t#host_rev\t#n_hosts\n\
1\t900.0\t1\t5.0E-9\tcom.aaa\t1\n\
2\t800.0\t3\t3.0E-9\tcom.bbb\t1\n\
3\t700.0\t2\t4.0E-9\torg.ccc\t1\n";

#[test]
fn produces_the_same_answer_as_the_index_path() {
    let targets = vec![
        ResolvedTarget { domain: "aaa.com".to_string(), reverse: "com.aaa".to_string() },
        ResolvedTarget { domain: "absent.example".to_string(), reverse: "example.absent".to_string() },
    ];
    let mut wanted: AHashSet<String> = AHashSet::new();
    for t in &targets {
        wanted.insert(t.reverse.clone());
    }
    let mut found: AHashMap<u32, String> = AHashMap::new();
    collect_targets(VERTICES, &wanted, &mut found);
    let order = found_in_order(&found);
    assert_eq!(order, vec![(0, "com.aaa".to_string())]);
    assert_eq!(missing_targets(&targets, &found), vec![1], "an absent domain must be recorded, not skipped");

    let mut target_ids: AHashSet<u32> = AHashSet::new();
    target_ids.insert(0);
    let mut inbound: AHashSet<u64> = AHashSet::new();
    let mut outbound: AHashSet<u64> = AHashSet::new();
    collect_edges(EDGES, &target_ids, &mut inbound, &mut outbound);
    let mut backlinks = neighbours_of(&inbound, 0);
    backlinks.sort();
    assert_eq!(backlinks, vec![1, 2]);
    assert_eq!(neighbours_of(&outbound, 0), vec![2]);

    let mut needed: AHashSet<u32> = AHashSet::new();
    for id in backlinks.iter().chain([2u32].iter()) {
        needed.insert(*id);
    }
    let mut names: AHashMap<u32, String> = AHashMap::new();
    collect_names(VERTICES, &needed, &mut names);
    let links = named_links(&backlinks, &names);
    assert_eq!(links, vec![("bbb.com".to_string(), "com.bbb".to_string()), ("ccc.org".to_string(), "org.ccc".to_string())]);

    let mut wanted_ranks: AHashSet<String> = AHashSet::new();
    for rev in ["com.aaa", "com.bbb", "org.ccc"] {
        wanted_ranks.insert(rev.to_string());
    }
    let mut reader = ScanRanks::new();
    let mut values = Vec::new();
    for raw in RANKS.split(|b| *b == b'\n') {
        if let Some((host, value)) = reader.read_line(trim_eol(raw), &wanted_ranks, RankMetric::Pagerank) {
            values.push((host, String::from_utf8(value.to_vec()).unwrap()));
        }
    }
    assert_eq!(values[0], ("com.aaa".to_string(), "5.0E-9".to_string()));
    assert_eq!(values.len(), 3);
}

#[test]
fn the_room_a_plan_needs_is_counted_in_64_bits_and_checked_against_free_space() {
    let f = facts(IndexMeta::empty(), 3000, [false; 3]);
    let plan = plan_build(&Tier::all(), false);
    assert!(space_needed_fits(&sources(), &f, &plan));
    let index = GraphIndex::new("index".to_string());
    assert!(index.check_free_space(&sources(), &f, &plan).is_ok(), "a terabyte is room enough");
    let mut tight = facts(IndexMeta::empty(), 3000, [false; 3]);
    tight.free_bytes = 1;
    assert!(index.check_free_space(&sources(), &tight, &plan).is_err(), "one byte is not");
}
