//! The index directory: its tiers, what each one needs, what it costs, and
//! whether it is ready, stale or missing. Everything here works from facts
//! about the disk gathered by the caller.

use vstd::prelude::*;
use crate::text::{chars_of, string_of, str_eq};
use crate::number::{append_str, human_bytes, spec_human_bytes};
use crate::path::{join, spec_join, parent, spec_parent, is_compressed, spec_is_compressed};
use crate::data_source::{
    GraphFile, SetupGuide, setup_guide, crawl_from_path, spec_crawl_from_path, spec_unpacked_bytes,
    spec_download_bytes, spec_archive_name, file_key, spec_must_be_unpacked, DEFAULT_CRAWL,
};

verus! {

/// Bumped whenever an on-disk layout changes; older indexes are rebuilt, not misread.
pub const FORMAT_VERSION: u32 = 1;

/// Largest source size the estimates are made for (64 PiB): far beyond any
/// published graph, and small enough that no estimate overflows.
pub const MAX_SOURCE_BYTES: u64 = 0x0100_0000_0000_0000;

/// The three Common Crawl files an index is built from.
pub struct GraphSources {
    pub vertices: String,
    pub edges: String,
    pub ranks: String,
}

/// What the disk says about one source file.
#[derive(Clone, Copy)]
pub struct FileFacts {
    /// Length in bytes, 0 when it cannot be read.
    pub size: u64,
    /// Whether a regular file is there.
    pub is_file: bool,
    /// Modification time in seconds since the epoch, when known.
    pub modified: Option<i64>,
}

/// What the disk says about the vertices, edges and ranks files.
#[derive(Clone, Copy)]
pub struct SourceFacts {
    pub vertices: FileFacts,
    pub edges: FileFacts,
    pub ranks: FileFacts,
}

pub open spec fn facts_in_range(f: SourceFacts) -> bool {
    f.vertices.size <= MAX_SOURCE_BYTES && f.edges.size <= MAX_SOURCE_BYTES && f.ranks.size <= MAX_SOURCE_BYTES
}

/// Identity of a source file, so a stale index can be spotted before it lies.
pub struct SourceFingerprint {
    pub path: String,
    pub size: u64,
    pub modified: Option<i64>,
}

impl SourceFingerprint {
    /// An equal fingerprint.
    pub fn duplicate(&self) -> (r: SourceFingerprint)
        ensures
            r == *self,
    {
        SourceFingerprint { path: self.path.clone(), size: self.size, modified: self.modified }
    }

    /// Same path, size and modification time.
    pub fn same_as(&self, other: &SourceFingerprint) -> (r: bool)
        ensures
            r == (self.path@ == other.path@ && self.size == other.size && self.modified == other.modified),
    {
        str_eq(self.path.as_str(), other.path.as_str()) && self.size == other.size && match (self.modified, other.modified) {
            (Some(a), Some(b)) => a == b,
            (None, None) => true,
            _ => false,
        }
    }
}

/// What the UI shows for each source file.
pub struct SourceStatus {
    pub kind: String,
    pub path: String,
    pub size_bytes: u64,
    pub exists: bool,
    /// Whether the file on disk is still gzipped.
    pub compressed: bool,
    /// Whether being gzipped is a problem for this file.
    pub must_be_unpacked: bool,
}

pub open spec fn spec_text_size(size: u64, compressed: bool, f: GraphFile) -> u64 {
    if size == 0 || compressed { spec_unpacked_bytes(f) } else { size }
}

pub open spec fn at_least_one(n: int) -> int {
    if n < 1 { 1 } else { n }
}

/// Rough node count before anything is built: vertices lines average ~28 B.
pub open spec fn spec_estimated_nodes(s: GraphSources, f: SourceFacts) -> int {
    at_least_one(spec_text_size(f.vertices.size, spec_is_compressed(s.vertices@), GraphFile::Vertices) as int / 28)
}

/// Rough edge count before anything is built: edges lines average ~18 B.
pub open spec fn spec_estimated_edges(s: GraphSources, f: SourceFacts) -> int {
    at_least_one(spec_text_size(f.edges.size, spec_is_compressed(s.edges@), GraphFile::Edges) as int / 18)
}

pub open spec fn spec_crawl(s: GraphSources) -> Seq<char> {
    match spec_crawl_from_path(s.edges@) {
        Some(c) => c,
        None => match spec_crawl_from_path(s.vertices@) {
            Some(c) => c,
            None => match spec_crawl_from_path(s.ranks@) {
                Some(c) => c,
                None => DEFAULT_CRAWL@,
            },
        },
    }
}

pub open spec fn spec_expected_dir(s: GraphSources) -> Seq<char> {
    match spec_parent(s.vertices@) {
        Some(p) => p,
        None => "."@,
    }
}

fn text_size(size: u64, compressed: bool, f: GraphFile) -> (r: u64)
    ensures
        r == spec_text_size(size, compressed, f),
{
    if size == 0 || compressed { f.unpacked_bytes() } else { size }
}

impl GraphSources {
    /// The three files with their keys.
    pub fn list(&self) -> (r: [(&'static str, &String); 3])
        ensures
            r[0].0@ == "vertices"@ && r[0].1 == &self.vertices,
            r[1].0@ == "edges"@ && r[1].1 == &self.edges,
            r[2].0@ == "ranks"@ && r[2].1 == &self.ranks,
    {
        [("vertices", &self.vertices), ("edges", &self.edges), ("ranks", &self.ranks)]
    }

    /// What the UI shows for each file, given what the disk says.
    pub fn status(&self, facts: SourceFacts) -> (r: Vec<SourceStatus>)
        ensures
            r@.len() == 3,
            source_status_is(r@[0], GraphFile::Vertices, self.vertices@, facts.vertices),
            source_status_is(r@[1], GraphFile::Edges, self.edges@, facts.edges),
            source_status_is(r@[2], GraphFile::Ranks, self.ranks@, facts.ranks),
    {
        let mut r: Vec<SourceStatus> = Vec::new();
        r.push(status_of(GraphFile::Vertices, &self.vertices, facts.vertices));
        r.push(status_of(GraphFile::Edges, &self.edges, facts.edges));
        r.push(status_of(GraphFile::Ranks, &self.ranks, facts.ranks));
        r
    }

    /// Rough node count before anything is built.
    pub fn estimated_nodes(&self, facts: SourceFacts) -> (r: u64)
        requires
            facts_in_range(facts),
        ensures
            r == spec_estimated_nodes(*self, facts),
    {
        let t = text_size(facts.vertices.size, is_compressed(self.vertices.as_str()), GraphFile::Vertices) / 28;
        if t < 1 { 1 } else { t }
    }

    /// Rough edge count before anything is built.
    pub fn estimated_edges(&self, facts: SourceFacts) -> (r: u64)
        requires
            facts_in_range(facts),
        ensures
            r == spec_estimated_edges(*self, facts),
    {
        let t = text_size(facts.edges.size, is_compressed(self.edges.as_str()), GraphFile::Edges) / 18;
        if t < 1 { 1 } else { t }
    }

    /// The crawl these paths belong to, falling back to the reference release.
    pub fn crawl(&self) -> (r: String)
        ensures
            r@ == spec_crawl(*self),
    {
        match crawl_from_path(self.edges.as_str()) {
            Some(c) => c,
            None => match crawl_from_path(self.vertices.as_str()) {
                Some(c) => c,
                None => match crawl_from_path(self.ranks.as_str()) {
                    Some(c) => c,
                    None => string_of(&chars_of(DEFAULT_CRAWL)),
                },
            },
        }
    }

    /// Directory the files are expected in: what the setup text points at.
    pub fn expected_dir(&self) -> (r: String)
        ensures
            r@ == spec_expected_dir(*self),
    {
        match parent(self.vertices.as_str()) {
            Some(p) => p,
            None => string_of(&chars_of(".")),
        }
    }
}

pub open spec fn source_status_is(st: SourceStatus, f: GraphFile, path: Seq<char>, facts: FileFacts) -> bool {
    &&& st.kind@ == file_key(f)
    &&& st.path@ == path
    &&& st.size_bytes == facts.size
    &&& st.exists == facts.is_file
    &&& st.compressed == spec_is_compressed(path)
    &&& st.must_be_unpacked == spec_must_be_unpacked(f)
}

fn status_of(f: GraphFile, path: &String, facts: FileFacts) -> (st: SourceStatus)
    ensures
        source_status_is(st, f, path@, facts),
{
    SourceStatus {
        kind: string_of(&chars_of(f.key())),
        path: path.clone(),
        size_bytes: facts.size,
        exists: facts.is_file,
        compressed: is_compressed(path.as_str()),
        must_be_unpacked: f.must_be_unpacked(),
    }
}

// ---------------------------------------------------------------------------
// Tiers
// ---------------------------------------------------------------------------

/// Lines per vertices block.
pub const BLOCK_LINES: u64 = 256;
/// Bytes between edges samples.
pub const EDGE_BLOCK_BYTES: u64 = 4194304;
/// Bytes one domain occupies in `ranks.bin`.
pub const ROW_BYTES: u64 = 16;

#[derive(Debug, Clone, Copy, PartialEq, Eq, Structural)]
pub enum Tier {
    Lookup,
    Ranks,
    Inbound,
}

pub open spec fn tier_key(t: Tier) -> Seq<char> {
    match t {
        Tier::Lookup => "lookup"@,
        Tier::Ranks => "ranks"@,
        Tier::Inbound => "inbound"@,
    }
}

pub open spec fn tier_label(t: Tier) -> Seq<char> {
    match t {
        Tier::Lookup => "Пошук доменів"@,
        Tier::Ranks => "Рейтинги"@,
        Tier::Inbound => "Зворотні посилання"@,
    }
}

pub open spec fn tier_description(t: Tier) -> Seq<char> {
    match t {
        Tier::Lookup => "Миттєво знаходить домен у графі та показує, куди він посилається."@,
        Tier::Ranks => "Додає PageRank і Harmonic до кожного домену у результатах."@,
        Tier::Inbound => "Головне: хто посилається на домен. Без нього кожен запит читає весь файл edges."@,
    }
}

/// Final size of the inbound tier: one `u32` per edge plus one `u64` per domain.
pub open spec fn spec_inbound_bytes(edges: int, nodes: int) -> int {
    edges * 4 + (nodes + 1) * 8 + 64
}

pub open spec fn spec_estimated_bytes(t: Tier, s: GraphSources, f: SourceFacts) -> int {
    let nodes = spec_estimated_nodes(s, f);
    let edges = spec_estimated_edges(s, f);
    match t {
        Tier::Lookup => nodes / 256 * 40 + f.edges.size / 4194304 * 16,
        Tier::Ranks => nodes * 16 + 64,
        Tier::Inbound => spec_inbound_bytes(edges, nodes),
    }
}

pub open spec fn spec_estimated_temp_bytes(t: Tier, s: GraphSources, f: SourceFacts) -> int {
    match t {
        Tier::Lookup => 0,
        Tier::Ranks => spec_estimated_nodes(s, f) * 35,
        Tier::Inbound => spec_estimated_edges(s, f) * 8,
    }
}

/// Temp bytes the inbound build needs at its peak: one 8-byte record per edge.
pub fn estimate_temp_bytes(edge_count: u64) -> (r: u64)
    requires
        edge_count <= MAX_SOURCE_BYTES,
    ensures
        r == edge_count * 8,
{
    edge_count * 8
}

/// Final size of the inbound tier on disk.
pub fn estimate_bytes(edge_count: u64, node_count: u64) -> (r: u64)
    requires
        edge_count <= MAX_SOURCE_BYTES,
        node_count <= MAX_SOURCE_BYTES,
    ensures
        r == spec_inbound_bytes(edge_count as int, node_count as int),
{
    edge_count * 4 + (node_count + 1) * 8 + 64
}

impl Tier {
    /// The three tiers in build order.
    pub fn all() -> (r: [Tier; 3])
        ensures
            r@ == seq![Tier::Lookup, Tier::Ranks, Tier::Inbound],
    {
        let r = [Tier::Lookup, Tier::Ranks, Tier::Inbound];
        assert(r@ =~= seq![Tier::Lookup, Tier::Ranks, Tier::Inbound]);
        r
    }

    pub fn key(self) -> (r: &'static str)
        ensures
            r@ == tier_key(self),
    {
        match self {
            Tier::Lookup => "lookup",
            Tier::Ranks => "ranks",
            Tier::Inbound => "inbound",
        }
    }

    /// The tier whose key is exactly `key`.
    pub fn parse(key: &str) -> (r: Option<Tier>)
        ensures
            match r {
                Some(t) => tier_key(t) == key@,
                None => forall|t: Tier| tier_key(t) != key@,
            },
    {
        if str_eq(key, "lookup") {
            Some(Tier::Lookup)
        } else if str_eq(key, "ranks") {
            Some(Tier::Ranks)
        } else if str_eq(key, "inbound") {
            Some(Tier::Inbound)
        } else {
            proof {
                assert forall|t: Tier| tier_key(t) != key@ by {
                    match t {
                        Tier::Lookup => {},
                        Tier::Ranks => {},
                        Tier::Inbound => {},
                    }
                }
            }
            None
        }
    }

    pub fn label(self) -> (r: &'static str)
        ensures
            r@ == tier_label(self),
    {
        match self {
            Tier::Lookup => "Пошук доменів",
            Tier::Ranks => "Рейтинги",
            Tier::Inbound => "Зворотні посилання",
        }
    }

    pub fn description(self) -> (r: &'static str)
        ensures
            r@ == tier_description(self),
    {
        match self {
            Tier::Lookup => "Миттєво знаходить домен у графі та показує, куди він посилається.",
            Tier::Ranks => "Додає PageRank і Harmonic до кожного домену у результатах.",
            Tier::Inbound => "Головне: хто посилається на домен. Без нього кожен запит читає весь файл edges.",
        }
    }

    /// The files a built tier consists of, under `root`.
    pub fn files(self, root: &str) -> (r: Vec<String>)
        ensures
            r@.len() == (if self == Tier::Ranks { 1int } else { 2 }),
            r@[0]@ == spec_join(root@, match self {
                Tier::Lookup => "vertices.idx"@,
                Tier::Ranks => "ranks.bin"@,
                Tier::Inbound => "inbound.off"@,
            }),
            self != Tier::Ranks ==> r@[1]@ == spec_join(root@, match self {
                Tier::Lookup => "edges.idx"@,
                _ => "inbound.src"@,
            }),
    {
        let mut r: Vec<String> = Vec::new();
        match self {
            Tier::Lookup => {
                r.push(join(root, "vertices.idx"));
                r.push(join(root, "edges.idx"));
            },
            Tier::Ranks => {
                r.push(join(root, "ranks.bin"));
            },
            Tier::Inbound => {
                r.push(join(root, "inbound.off"));
                r.push(join(root, "inbound.src"));
            },
        }
        r
    }

    /// Which of the (vertices, edges, ranks) fingerprints this tier's answers depend on.
    pub fn sources(self, fingerprints: &[SourceFingerprint; 3]) -> (r: Vec<SourceFingerprint>)
        ensures
            r@ == match self {
                Tier::Lookup => seq![fingerprints@[0], fingerprints@[1]],
                Tier::Ranks => seq![fingerprints@[0], fingerprints@[2]],
                Tier::Inbound => seq![fingerprints@[0], fingerprints@[1]],
            },
    {
        let mut r: Vec<SourceFingerprint> = Vec::new();
        match self {
            Tier::Lookup | Tier::Inbound => {
                r.push(fingerprints[0].duplicate());
                r.push(fingerprints[1].duplicate());
            },
            Tier::Ranks => {
                r.push(fingerprints[0].duplicate());
                r.push(fingerprints[2].duplicate());
            },
        }
        r
    }
}

impl Tier {
    /// Bytes the finished tier occupies, estimated from the source sizes.
    pub fn estimated_bytes(self, sources: &GraphSources, facts: SourceFacts) -> (r: u64)
        requires
            facts_in_range(facts),
        ensures
            r == spec_estimated_bytes(self, *sources, facts),
    {
        let nodes = sources.estimated_nodes(facts);
        let edges = sources.estimated_edges(facts);
        match self {
            Tier::Lookup => nodes / 256 * 40 + facts.edges.size / 4194304 * 16,
            Tier::Ranks => nodes * 16 + 64,
            Tier::Inbound => estimate_bytes(edges, nodes),
        }
    }

    /// Peak temporary space the build needs on top of the result.
    pub fn estimated_temp_bytes(self, sources: &GraphSources, facts: SourceFacts) -> (r: u64)
        requires
            facts_in_range(facts),
        ensures
            r == spec_estimated_temp_bytes(self, *sources, facts),
    {
        match self {
            Tier::Lookup => 0,
            Tier::Ranks => sources.estimated_nodes(facts) * 35,
            Tier::Inbound => estimate_temp_bytes(sources.estimated_edges(facts)),
        }
    }

    /// Relative build cost in bytes touched, used to weight the progress bar.
    pub fn work_units(self, sources: &GraphSources, facts: SourceFacts) -> (r: u64)
        requires
            facts_in_range(facts),
        ensures
            r >= 1,
            r == at_least_one(match self {
                Tier::Lookup => facts.vertices.size + facts.edges.size / 512,
                Tier::Ranks => facts.ranks.size + facts.vertices.size + spec_estimated_temp_bytes(self, *sources, facts) * 2,
                Tier::Inbound => facts.edges.size + spec_estimated_temp_bytes(self, *sources, facts) * 2,
            }),
    {
        let w = match self {
            Tier::Lookup => facts.vertices.size + facts.edges.size / 512,
            Tier::Ranks => facts.ranks.size + facts.vertices.size + self.estimated_temp_bytes(sources, facts) * 2,
            Tier::Inbound => facts.edges.size + self.estimated_temp_bytes(sources, facts) * 2,
        };
        if w < 1 { 1 } else { w }
    }
}

// ---------------------------------------------------------------------------
// Metadata
// ---------------------------------------------------------------------------

/// When, by which version and from which sources a tier was built.
pub struct TierRecord {
    pub built_at: String,
    pub built_by: String,
    pub bytes: u64,
    pub sources: Vec<SourceFingerprint>,
}

/// `index.json`: counts and one record per built tier, keyed by the tier's key.
pub struct IndexMeta {
    pub format: u32,
    pub node_count: u64,
    /// `max id + 1`: the length of every id-addressed array.
    pub node_capacity: u64,
    pub edge_count: u64,
    pub tiers: Vec<(String, TierRecord)>,
}

impl IndexMeta {
    /// The metadata of an empty index directory.
    pub fn empty() -> (m: IndexMeta)
        ensures
            m.format == FORMAT_VERSION,
            m.node_count == 0 && m.node_capacity == 0 && m.edge_count == 0,
            m.tiers@.len() == 0,
    {
        IndexMeta { format: FORMAT_VERSION, node_count: 0, node_capacity: 0, edge_count: 0, tiers: Vec::new() }
    }
}

/// The record stored under `key`, the first one if several are.
pub open spec fn record_of(tiers: Seq<(String, TierRecord)>, key: Seq<char>) -> Option<TierRecord>
    decreases tiers.len(),
{
    if tiers.len() == 0 {
        None
    } else if tiers[0].0@ == key {
        Some(tiers[0].1)
    } else {
        record_of(tiers.drop_first(), key)
    }
}

fn find_record(tiers: &Vec<(String, TierRecord)>, key: &str) -> (r: Option<usize>)
    ensures
        match r {
            Some(i) => i < tiers@.len() && record_of(tiers@, key@) == Some(tiers@[i as int].1),
            None => record_of(tiers@, key@) == None::<TierRecord>,
        },
{
    let mut i: usize = 0;
    assert(tiers@.subrange(0, tiers@.len() as int) =~= tiers@);
    while i < tiers.len()
        invariant
            i <= tiers@.len(),
            record_of(tiers@, key@) == record_of(tiers@.subrange(i as int, tiers@.len() as int), key@),
        decreases tiers.len() - i,
    {
        let ghost rest = tiers@.subrange(i as int, tiers@.len() as int);
        assert(rest.drop_first() =~= tiers@.subrange(i + 1, tiers@.len() as int));
        if str_eq(tiers[i].0.as_str(), key) {
            return Some(i);
        }
        i = i + 1;
    }
    None
}

#[derive(Debug, Clone, Copy, PartialEq, Eq, Structural)]
pub enum TierState {
    /// Never built, or its files were removed.
    Missing,
    /// Built and matching the current source files.
    Ready,
    /// Built, but a source file changed since: answers would be wrong.
    Stale,
}

pub open spec fn fingerprint_eq(a: SourceFingerprint, b: SourceFingerprint) -> bool {
    a.path@ == b.path@ && a.size == b.size && a.modified == b.modified
}

pub open spec fn fingerprints_eq(a: Seq<SourceFingerprint>, b: Seq<SourceFingerprint>) -> bool {
    a.len() == b.len() && forall|k: int| 0 <= k < a.len() ==> fingerprint_eq(#[trigger] a[k], b[k])
}

pub open spec fn tier_sources(t: Tier, fps: Seq<SourceFingerprint>) -> Seq<SourceFingerprint> {
    match t {
        Tier::Lookup => seq![fps[0], fps[1]],
        Tier::Ranks => seq![fps[0], fps[2]],
        Tier::Inbound => seq![fps[0], fps[1]],
    }
}

/// Missing without a record or without its files; stale when the sources it
/// was built from differ from the current ones; ready otherwise.
pub open spec fn spec_tier_state(t: Tier, meta: IndexMeta, files_present: bool, fps: Seq<SourceFingerprint>) -> TierState {
    match record_of(meta.tiers@, tier_key(t)) {
        None => TierState::Missing,
        Some(rec) => if !files_present {
            TierState::Missing
        } else if !fingerprints_eq(rec.sources@, tier_sources(t, fps)) {
            TierState::Stale
        } else {
            TierState::Ready
        },
    }
}

fn same_fingerprints(a: &Vec<SourceFingerprint>, b: &Vec<SourceFingerprint>) -> (r: bool)
    ensures
        r == fingerprints_eq(a@, b@),
{
    if a.len() != b.len() {
        return false;
    }
    let mut i: usize = 0;
    while i < a.len()
        invariant
            i <= a@.len() == b@.len(),
            forall|k: int| 0 <= k < i ==> fingerprint_eq(#[trigger] a@[k], b@[k]),
        decreases a.len() - i,
    {
        if !a[i].same_as(&b[i]) {
            return false;
        }
        i = i + 1;
    }
    true
}

/// Whether a tier is ready, stale or missing.
pub fn tier_state(tier: Tier, meta: &IndexMeta, files_present: bool, fingerprints: &[SourceFingerprint; 3]) -> (r: TierState)
    ensures
        r == spec_tier_state(tier, *meta, files_present, fingerprints@),
{
    let found = find_record(&meta.tiers, tier.key());
    match found {
        None => TierState::Missing,
        Some(i) => {
            if !files_present {
                TierState::Missing
            } else {
                let current = tier.sources(fingerprints);
                if !same_fingerprints(&meta.tiers[i].1.sources, &current) {
                    TierState::Stale
                } else {
                    TierState::Ready
                }
            }
        },
    }
}

/// `tiers` with every record under `key` removed.
pub open spec fn without_key(tiers: Seq<(String, TierRecord)>, key: Seq<char>) -> Seq<(String, TierRecord)> {
    tiers.filter(not_key(key))
}

pub open spec fn not_key(key: Seq<char>) -> spec_fn((String, TierRecord)) -> bool {
    |e: (String, TierRecord)| e.0@ != key
}

proof fn lemma_record_of_without(tiers: Seq<(String, TierRecord)>, key: Seq<char>, other: Seq<char>)
    ensures
        record_of(without_key(tiers, key), key) == None::<TierRecord>,
        other != key ==> record_of(without_key(tiers, key), other) == record_of(tiers, other),
    decreases tiers.len(),
{
    let f = not_key(key);
    if tiers.len() == 0 {
        assert(without_key(tiers, key) =~= tiers) by {
            reveal(Seq::filter);
        }
    } else {
        let t = tiers.drop_first();
        lemma_record_of_without(t, key, other);
        assert(tiers =~= seq![tiers[0]] + t);
        Seq::filter_distributes_over_add(seq![tiers[0]], t, f);
        let e = Seq::<(String, TierRecord)>::empty();
        e.lemma_filter_push(tiers[0], f);
        assert(e.push(tiers[0]) =~= seq![tiers[0]]);
        assert(e.filter(f) =~= e) by {
            reveal(Seq::filter);
        }
        if f(tiers[0]) {
            let w = without_key(tiers, key);
            assert(w =~= seq![tiers[0]] + without_key(t, key));
            assert(w.drop_first() =~= without_key(t, key));
        } else {
            assert(without_key(tiers, key) =~= without_key(t, key));
        }
    }
}

/// Forget a tier in the metadata (its files are deleted by the caller).
pub fn forget_tier(meta: &mut IndexMeta, tier: Tier)
    ensures
        final(meta).tiers@ == without_key(old(meta).tiers@, tier_key(tier)),
        final(meta).format == old(meta).format,
        final(meta).node_count == old(meta).node_count,
        final(meta).node_capacity == old(meta).node_capacity,
        final(meta).edge_count == old(meta).edge_count,
{
    let key = tier.key();
    let ghost f = not_key(tier_key(tier));
    let mut rest: Vec<(String, TierRecord)> = Vec::new();
    std::mem::swap(&mut rest, &mut meta.tiers);
    let ghost orig = rest@;
    let n0 = rest.len();
    assert(orig.len() == n0);
    let mut kept: Vec<(String, TierRecord)> = Vec::new();
    let mut taken: usize = 0;
    assert(orig.subrange(0, 0).filter(f) =~= Seq::<(String, TierRecord)>::empty()) by {
        reveal(Seq::filter);
    }
    while rest.len() > 0
        invariant
            rest@.len() + taken == orig.len(),
            rest@ == orig.subrange(taken as int, orig.len() as int),
            kept@ == orig.subrange(0, taken as int).filter(f),
            f == not_key(tier_key(tier)),
            orig.len() <= usize::MAX,
            key@ == tier_key(tier),
        decreases rest.len(),
    {
        let e = rest.remove(0);
        let ghost idx = taken as int;
        assert(e == orig[idx]);
        proof {
            assert(orig.subrange(0, idx + 1) =~= orig.subrange(0, idx).push(e));
            orig.subrange(0, idx).lemma_filter_push(e, f);
        }
        if !str_eq(e.0.as_str(), key) {
            kept.push(e);
        }
        taken = taken + 1;
        assert(rest@ =~= orig.subrange(taken as int, orig.len() as int));
    }
    assert(orig.subrange(0, taken as int) =~= orig);
    meta.tiers = kept;
}

/// A finished tier's record replaces the one stored under its key, if any.
pub fn record_tier(meta: &mut IndexMeta, tier: Tier, record: TierRecord)
    ensures
        record_of(final(meta).tiers@, tier_key(tier)) == Some(record),
        forall|other: Seq<char>| other != tier_key(tier) ==> record_of(final(meta).tiers@, other)
            == record_of(old(meta).tiers@, other),
        final(meta).node_count == old(meta).node_count,
        final(meta).node_capacity == old(meta).node_capacity,
        final(meta).edge_count == old(meta).edge_count,
        final(meta).format == FORMAT_VERSION,
{
    let ghost before = meta.tiers@;
    forget_tier(meta, tier);
    proof {
        assert forall|other: Seq<char>| other != tier_key(tier) implies record_of(meta.tiers@, other)
            == record_of(before, other) by {
            lemma_record_of_without(before, tier_key(tier), other);
        }
        lemma_record_of_without(before, tier_key(tier), tier_key(tier));
    }
    let ghost mid = meta.tiers@;
    meta.tiers.insert(0, (string_of(&chars_of(tier.key())), record));
    proof {
        assert(meta.tiers@.drop_first() =~= mid);
    }
    meta.format = FORMAT_VERSION;
}

/// The three tier keys differ from each other.
pub proof fn lemma_tier_keys_differ()
    ensures
        tier_key(Tier::Lookup) != tier_key(Tier::Ranks),
        tier_key(Tier::Lookup) != tier_key(Tier::Inbound),
        tier_key(Tier::Ranks) != tier_key(Tier::Inbound),
{
    lemma_tier_keys_distinct(Tier::Lookup, Tier::Ranks);
    lemma_tier_keys_distinct(Tier::Lookup, Tier::Inbound);
    lemma_tier_keys_distinct(Tier::Ranks, Tier::Inbound);
}

proof fn lemma_tier_keys_distinct(a: Tier, b: Tier)
    requires
        a != b,
    ensures
        tier_key(a) != tier_key(b),
{
    reveal_strlit("lookup");
    reveal_strlit("ranks");
    reveal_strlit("inbound");
    assert("lookup"@.len() == 6);
    assert("ranks"@.len() == 5);
    assert("inbound"@.len() == 7);
}

/// Dropping a tier makes it missing and leaves every other tier's state as it was.
pub proof fn lemma_drop_tier_isolated(meta: IndexMeta, after: IndexMeta, dropped: Tier, other: Tier,
    present: bool, fps: Seq<SourceFingerprint>)
    requires
        after.tiers@ == without_key(meta.tiers@, tier_key(dropped)),
        other != dropped,
    ensures
        spec_tier_state(dropped, after, present, fps) == TierState::Missing,
        spec_tier_state(other, after, present, fps) == spec_tier_state(other, meta, present, fps),
{
    lemma_record_of_without(meta.tiers@, tier_key(dropped), tier_key(other));
    lemma_tier_keys_distinct(dropped, other);
    lemma_record_of_without(meta.tiers@, tier_key(dropped), tier_key(other));
}

/// A tier is stale exactly when it has a record, its files are there, and one
/// of the source files it was built from changed.
pub proof fn lemma_changed_source_means_stale(t: Tier, meta: IndexMeta, fps: Seq<SourceFingerprint>)
    requires
        record_of(meta.tiers@, tier_key(t)) is Some,
        !fingerprints_eq(record_of(meta.tiers@, tier_key(t))->0.sources@, tier_sources(t, fps)),
    ensures
        spec_tier_state(t, meta, true, fps) == TierState::Stale,
{
}

// ---------------------------------------------------------------------------
// Status
// ---------------------------------------------------------------------------

pub struct TierStatus {
    pub key: String,
    pub label: String,
    pub description: String,
    pub state: TierState,
    pub bytes: u64,
    pub estimated_bytes: u64,
    pub estimated_temp_bytes: u64,
    pub built_at: Option<String>,
}

pub struct IndexStatus {
    pub root: String,
    pub node_count: u64,
    pub edge_count: u64,
    pub total_bytes: u64,
    pub free_bytes: u64,
    pub tiers: Vec<TierStatus>,
    pub sources: Vec<SourceStatus>,
    /// Everything the index needs but does not have, in plain language.
    pub blockers: Vec<String>,
    /// Names, links and sizes for getting the data.
    pub setup: SetupGuide,
}

/// The first status row listed under `key`.
pub open spec fn status_of_key(tiers: Seq<TierStatus>, key: Seq<char>) -> Option<TierStatus>
    decreases tiers.len(),
{
    if tiers.len() == 0 {
        None
    } else if tiers[0].key@ == key {
        Some(tiers[0])
    } else {
        status_of_key(tiers.drop_first(), key)
    }
}

impl IndexStatus {
    /// The status row of `tier`, if the status lists it.
    pub fn tier(&self, tier: Tier) -> (r: Option<&TierStatus>)
        ensures
            match r {
                Some(t) => status_of_key(self.tiers@, tier_key(tier)) == Some(*t),
                None => status_of_key(self.tiers@, tier_key(tier)) == None::<TierStatus>,
            },
    {
        let key = tier.key();
        let mut i: usize = 0;
        assert(self.tiers@.subrange(0, self.tiers@.len() as int) =~= self.tiers@);
        while i < self.tiers.len()
            invariant
                i <= self.tiers@.len(),
                key@ == tier_key(tier),
                status_of_key(self.tiers@, tier_key(tier))
                    == status_of_key(self.tiers@.subrange(i as int, self.tiers@.len() as int), tier_key(tier)),
            decreases self.tiers.len() - i,
        {
            let ghost rest = self.tiers@.subrange(i as int, self.tiers@.len() as int);
            assert(rest.drop_first() =~= self.tiers@.subrange(i + 1, self.tiers@.len() as int));
            if str_eq(self.tiers[i].key.as_str(), key) {
                return Some(&self.tiers[i]);
            }
            i = i + 1;
        }
        None
    }

    /// Whether the status lists `tier` as ready.
    pub fn is_ready(&self, tier: Tier) -> (r: bool)
        ensures
            r == (status_of_key(self.tiers@, tier_key(tier)) is Some
                && status_of_key(self.tiers@, tier_key(tier))->0.state == TierState::Ready),
    {
        match self.tier(tier) {
            Some(t) => t.state == TierState::Ready,
            None => false,
        }
    }
}

/// What the disk says about an index directory and its sources.
pub struct IndexFacts {
    /// `index.json`, or the empty metadata when it is absent or unreadable.
    pub meta: IndexMeta,
    pub sources: SourceFacts,
    /// Fingerprints of the vertices, edges and ranks files.
    pub fingerprints: [SourceFingerprint; 3],
    /// Bytes each tier's files occupy (lookup, ranks, inbound).
    pub tier_bytes: [u64; 3],
    /// Whether all of each tier's files are there (lookup, ranks, inbound).
    pub tier_files: [bool; 3],
    /// Free space on the index volume, 0 when unknown.
    pub free_bytes: u64,
}

pub open spec fn index_facts_in_range(f: IndexFacts) -> bool {
    &&& facts_in_range(f.sources)
    &&& f.tier_bytes@[0] <= MAX_SOURCE_BYTES && f.tier_bytes@[1] <= MAX_SOURCE_BYTES && f.tier_bytes@[2] <= MAX_SOURCE_BYTES
}

pub open spec fn missing_blocker(f: GraphFile, crawl: Seq<char>, dir: Seq<char>) -> Seq<char> {
    "Немає файла "@ + file_key(f) + " — завантажте "@ + spec_archive_name(f, crawl) + " (≈"@
        + spec_human_bytes(spec_download_bytes(f) as nat) + ") і покладіть сюди: "@ + dir
}

pub open spec fn packed_blocker(f: GraphFile) -> Seq<char> {
    "Файл "@ + file_key(f)
        + " лишився стиснутим (.gz). Запити читають його за зміщенням, а gzip так не вміє — розпакуйте його (≈"@
        + spec_human_bytes(spec_unpacked_bytes(f) as nat) + " після розпакування)."@
}

/// What, if anything, stops `f` from being indexed.
pub open spec fn blocker(f: GraphFile, path: Seq<char>, facts: FileFacts, crawl: Seq<char>, dir: Seq<char>) -> Option<Seq<char>> {
    if !facts.is_file {
        Some(missing_blocker(f, crawl, dir))
    } else if spec_is_compressed(path) && spec_must_be_unpacked(f) {
        Some(packed_blocker(f))
    } else {
        None
    }
}

pub open spec fn opt_seq(o: Option<Seq<char>>) -> Seq<Seq<char>> {
    match o {
        Some(x) => seq![x],
        None => Seq::empty(),
    }
}

pub open spec fn spec_blockers(s: GraphSources, f: SourceFacts) -> Seq<Seq<char>> {
    let c = spec_crawl(s);
    let d = spec_expected_dir(s);
    opt_seq(blocker(GraphFile::Vertices, s.vertices@, f.vertices, c, d))
        + opt_seq(blocker(GraphFile::Edges, s.edges@, f.edges, c, d))
        + opt_seq(blocker(GraphFile::Ranks, s.ranks@, f.ranks, c, d))
}

fn blocker_exec(f: GraphFile, path: &String, facts: FileFacts, crawl: &String, dir: &String) -> (r: Option<String>)
    ensures
        match r {
            Some(m) => blocker(f, path@, facts, crawl@, dir@) == Some(m@),
            None => blocker(f, path@, facts, crawl@, dir@) == None::<Seq<char>>,
        },
{
    if !facts.is_file {
        let mut m = chars_of("Немає файла ");
        append_str(&mut m, f.key());
        append_str(&mut m, " — завантажте ");
        let archive = f.archive_name(crawl.as_str());
        append_str(&mut m, archive.as_str());
        append_str(&mut m, " (≈");
        let size = human_bytes(f.download_bytes());
        append_str(&mut m, size.as_str());
        append_str(&mut m, ") і покладіть сюди: ");
        append_str(&mut m, dir.as_str());
        Some(string_of(&m))
    } else if is_compressed(path.as_str()) && f.must_be_unpacked() {
        let mut m = chars_of("Файл ");
        append_str(&mut m, f.key());
        append_str(&mut m, " лишився стиснутим (.gz). Запити читають його за зміщенням, а gzip так не вміє — розпакуйте його (≈");
        let size = human_bytes(f.unpacked_bytes());
        append_str(&mut m, size.as_str());
        append_str(&mut m, " після розпакування).");
        Some(string_of(&m))
    } else {
        None
    }
}

fn push_opt(v: &mut Vec<String>, o: Option<String>)
    ensures
        final(v)@.map_values(|x: String| x@) == old(v)@.map_values(|x: String| x@) + opt_seq(match o {
            Some(x) => Some(x@),
            None => None,
        }),
{
    match o {
        Some(x) => {
            v.push(x);
            assert(v@.map_values(|x: String| x@) =~= old(v)@.map_values(|x: String| x@).push(x@));
        },
        None => {
            assert(v@.map_values(|x: String| x@) =~= old(v)@.map_values(|x: String| x@) + Seq::<Seq<char>>::empty());
        },
    }
}

/// The status row of one tier says what `spec_tier_state` and the estimates say.
pub open spec fn tier_status_is(st: TierStatus, t: Tier, i: int, s: GraphSources, f: IndexFacts) -> bool {
    &&& st.key@ == tier_key(t)
    &&& st.label@ == tier_label(t)
    &&& st.description@ == tier_description(t)
    &&& st.state == spec_tier_state(t, f.meta, f.tier_files@[i], f.fingerprints@)
    &&& st.bytes == f.tier_bytes@[i]
    &&& st.estimated_bytes == spec_estimated_bytes(t, s, f.sources)
    &&& st.estimated_temp_bytes == spec_estimated_temp_bytes(t, s, f.sources)
    &&& match record_of(f.meta.tiers@, tier_key(t)) {
        Some(rec) => st.built_at is Some && st.built_at->0@ == rec.built_at@,
        None => st.built_at is None,
    }
}

/// Handle on an index directory. Cheap to create; does no I/O.
pub struct GraphIndex {
    root: String,
}

impl GraphIndex {
    pub closed spec fn root_path(&self) -> Seq<char> {
        self.root@
    }

    pub fn new(root: String) -> (r: GraphIndex)
        ensures
            r.root_path() == root@,
    {
        GraphIndex { root }
    }

    pub fn root(&self) -> (r: &String)
        ensures
            r@ == self.root_path(),
    {
        &self.root
    }

    pub fn meta_path(&self) -> (r: String)
        ensures
            r@ == spec_join(self.root_path(), "index.json"@),
    {
        join(self.root.as_str(), "index.json")
    }

    pub fn tmp_dir(&self) -> (r: String)
        ensures
            r@ == spec_join(self.root_path(), "tmp"@),
    {
        join(self.root.as_str(), "tmp")
    }

    pub fn vertices_path(&self) -> (r: String)
        ensures
            r@ == spec_join(self.root_path(), "vertices.idx"@),
    {
        join(self.root.as_str(), "vertices.idx")
    }

    pub fn edges_path(&self) -> (r: String)
        ensures
            r@ == spec_join(self.root_path(), "edges.idx"@),
    {
        join(self.root.as_str(), "edges.idx")
    }

    pub fn ranks_path(&self) -> (r: String)
        ensures
            r@ == spec_join(self.root_path(), "ranks.bin"@),
    {
        join(self.root.as_str(), "ranks.bin")
    }

    pub fn inbound_offsets_path(&self) -> (r: String)
        ensures
            r@ == spec_join(self.root_path(), "inbound.off"@),
    {
        join(self.root.as_str(), "inbound.off")
    }

    pub fn inbound_sources_path(&self) -> (r: String)
        ensures
            r@ == spec_join(self.root_path(), "inbound.src"@),
    {
        join(self.root.as_str(), "inbound.src")
    }

    fn tier_status(&self, tier: Tier, i: usize, sources: &GraphSources, facts: &IndexFacts) -> (st: TierStatus)
        requires
            i < 3,
            index_facts_in_range(*facts),
        ensures
            tier_status_is(st, tier, i as int, *sources, *facts),
    {
        let built_at = match find_record(&facts.meta.tiers, tier.key()) {
            Some(k) => Some(facts.meta.tiers[k].1.built_at.clone()),
            None => None,
        };
        TierStatus {
            key: string_of(&chars_of(tier.key())),
            label: string_of(&chars_of(tier.label())),
            description: string_of(&chars_of(tier.description())),
            state: tier_state(tier, &facts.meta, facts.tier_files[i], &facts.fingerprints),
            bytes: facts.tier_bytes[i],
            estimated_bytes: tier.estimated_bytes(sources, facts.sources),
            estimated_temp_bytes: tier.estimated_temp_bytes(sources, facts.sources),
            built_at,
        }
    }

    /// Everything the UI needs to render the data panel.
    pub fn status(&self, sources: &GraphSources, facts: &IndexFacts) -> (r: IndexStatus)
        requires
            index_facts_in_range(*facts),
        ensures
            r.root@ == self.root_path(),
            r.node_count == facts.meta.node_count,
            r.edge_count == facts.meta.edge_count,
            r.total_bytes == facts.tier_bytes@[0] + facts.tier_bytes@[1] + facts.tier_bytes@[2],
            r.free_bytes == facts.free_bytes,
            r.tiers@.len() == 3,
            tier_status_is(r.tiers@[0], Tier::Lookup, 0, *sources, *facts),
            tier_status_is(r.tiers@[1], Tier::Ranks, 1, *sources, *facts),
            tier_status_is(r.tiers@[2], Tier::Inbound, 2, *sources, *facts),
            r.sources@.len() == 3,
            source_status_is(r.sources@[0], GraphFile::Vertices, sources.vertices@, facts.sources.vertices),
            source_status_is(r.sources@[1], GraphFile::Edges, sources.edges@, facts.sources.edges),
            source_status_is(r.sources@[2], GraphFile::Ranks, sources.ranks@, facts.sources.ranks),
            r.blockers@.map_values(|x: String| x@) == spec_blockers(*sources, facts.sources),
            r.setup.crawl@ == spec_crawl(*sources),
    {
        let crawl = sources.crawl();
        let dir = sources.expected_dir();
        let mut blockers: Vec<String> = Vec::new();
        assert(blockers@.map_values(|x: String| x@) =~= Seq::<Seq<char>>::empty());
        push_opt(&mut blockers, blocker_exec(GraphFile::Vertices, &sources.vertices, facts.sources.vertices, &crawl, &dir));
        push_opt(&mut blockers, blocker_exec(GraphFile::Edges, &sources.edges, facts.sources.edges, &crawl, &dir));
        push_opt(&mut blockers, blocker_exec(GraphFile::Ranks, &sources.ranks, facts.sources.ranks, &crawl, &dir));
        proof {
            assert(blockers@.map_values(|x: String| x@) =~= spec_blockers(*sources, facts.sources));
        }
        let mut tiers: Vec<TierStatus> = Vec::new();
        tiers.push(self.tier_status(Tier::Lookup, 0, sources, facts));
        tiers.push(self.tier_status(Tier::Ranks, 1, sources, facts));
        tiers.push(self.tier_status(Tier::Inbound, 2, sources, facts));
        IndexStatus {
            root: self.root.clone(),
            node_count: facts.meta.node_count,
            edge_count: facts.meta.edge_count,
            total_bytes: facts.tier_bytes[0] + facts.tier_bytes[1] + facts.tier_bytes[2],
            free_bytes: facts.free_bytes,
            tiers,
            sources: sources.status(facts.sources),
            blockers,
            setup: setup_guide(crawl.as_str()),
        }
    }
}

// ---------------------------------------------------------------------------
// Building: what to build, whether the sources allow it, whether it fits
// ---------------------------------------------------------------------------

pub open spec fn wants(wanted: Seq<Tier>, t: Tier) -> bool {
    exists|k: int| 0 <= k < wanted.len() && wanted[k] == t
}

/// Tiers to build, in dependency order: lookup whenever it is asked for or
/// not ready (ranks and inbound both need it), then ranks, then inbound.
pub open spec fn spec_plan(wanted: Seq<Tier>, lookup_ready: bool) -> Seq<Tier> {
    (if wants(wanted, Tier::Lookup) || !lookup_ready { seq![Tier::Lookup] } else { Seq::empty() })
        + (if wants(wanted, Tier::Ranks) { seq![Tier::Ranks] } else { Seq::empty() })
        + (if wants(wanted, Tier::Inbound) { seq![Tier::Inbound] } else { Seq::empty() })
}

fn wants_exec(wanted: &[Tier], t: Tier) -> (r: bool)
    ensures
        r == wants(wanted@, t),
{
    let mut i: usize = 0;
    while i < wanted.len()
        invariant
            i <= wanted@.len(),
            forall|k: int| 0 <= k < i ==> wanted@[k] != t,
        decreases wanted.len() - i,
    {
        if wanted[i] == t {
            return true;
        }
        i = i + 1;
    }
    false
}

/// The tiers a build of `wanted` runs, in order.
pub fn plan_build(wanted: &[Tier], lookup_ready: bool) -> (r: Vec<Tier>)
    ensures
        r@ == spec_plan(wanted@, lookup_ready),
        r@.len() <= 3,
{
    let mut r: Vec<Tier> = Vec::new();
    if wants_exec(wanted, Tier::Lookup) || !lookup_ready {
        r.push(Tier::Lookup);
    }
    if wants_exec(wanted, Tier::Ranks) {
        r.push(Tier::Ranks);
    }
    if wants_exec(wanted, Tier::Inbound) {
        r.push(Tier::Inbound);
    }
    assert(r@ =~= spec_plan(wanted@, lookup_ready));
    r
}

pub open spec fn missing_source_message(f: GraphFile, path: Seq<char>, s: GraphSources) -> Seq<char> {
    "не знайдено файл "@ + file_key(f) + ":\n  "@ + path + "\n\n"@
        + crate::data_source::spec_instructions(spec_crawl(s), spec_expected_dir(s))
}

pub open spec fn packed_source_message(f: GraphFile, path: Seq<char>) -> Seq<char> {
    "файл "@ + file_key(f) + " стиснутий:\n  "@ + path
        + "\n\nЗапити читають цей файл за зміщенням, а .gz такого не дає — розпакуйте його\n(стане ≈"@
        + spec_human_bytes(spec_unpacked_bytes(f) as nat)
        + ") і повторіть. Файл ranks розпаковувати не треба."@
}

pub open spec fn source_problem(f: GraphFile, path: Seq<char>, facts: FileFacts, s: GraphSources) -> Option<Seq<char>> {
    if !facts.is_file {
        Some(missing_source_message(f, path, s))
    } else if spec_is_compressed(path) && spec_must_be_unpacked(f) {
        Some(packed_source_message(f, path))
    } else {
        None
    }
}

/// The first problem, in vertices, edges, ranks order, that stops a build.
pub open spec fn spec_source_check(s: GraphSources, f: SourceFacts) -> Option<Seq<char>> {
    match source_problem(GraphFile::Vertices, s.vertices@, f.vertices, s) {
        Some(m) => Some(m),
        None => match source_problem(GraphFile::Edges, s.edges@, f.edges, s) {
            Some(m) => Some(m),
            None => source_problem(GraphFile::Ranks, s.ranks@, f.ranks, s),
        },
    }
}

fn source_problem_exec(f: GraphFile, path: &String, facts: FileFacts, sources: &GraphSources) -> (r: Result<(), String>)
    ensures
        match r {
            Ok(()) => source_problem(f, path@, facts, *sources) == None::<Seq<char>>,
            Err(m) => source_problem(f, path@, facts, *sources) == Some(m@),
        },
{
    if !facts.is_file {
        let mut m = chars_of("не знайдено файл ");
        append_str(&mut m, f.key());
        append_str(&mut m, ":\n  ");
        append_str(&mut m, path.as_str());
        append_str(&mut m, "\n\n");
        let crawl = sources.crawl();
        let dir = sources.expected_dir();
        let text = crate::data_source::instructions(crawl.as_str(), dir.as_str());
        append_str(&mut m, text.as_str());
        Err(string_of(&m))
    } else if is_compressed(path.as_str()) && f.must_be_unpacked() {
        let mut m = chars_of("файл ");
        append_str(&mut m, f.key());
        append_str(&mut m, " стиснутий:\n  ");
        append_str(&mut m, path.as_str());
        append_str(&mut m, "\n\nЗапити читають цей файл за зміщенням, а .gz такого не дає — розпакуйте його\n(стане ≈");
        let size = human_bytes(f.unpacked_bytes());
        append_str(&mut m, size.as_str());
        append_str(&mut m, ") і повторіть. Файл ranks розпаковувати не треба.");
        Err(string_of(&m))
    } else {
        Ok(())
    }
}

/// Refuse a build whose sources are absent, or gzipped where queries seek.
pub fn check_build_sources(sources: &GraphSources, facts: SourceFacts) -> (r: Result<(), String>)
    ensures
        match r {
            Ok(()) => spec_source_check(*sources, facts) == None::<Seq<char>>,
            Err(m) => spec_source_check(*sources, facts) == Some(m@),
        },
{
    source_problem_exec(GraphFile::Vertices, &sources.vertices, facts.vertices, sources)?;
    source_problem_exec(GraphFile::Edges, &sources.edges, facts.edges, sources)?;
    source_problem_exec(GraphFile::Ranks, &sources.ranks, facts.ranks, sources)?;
    Ok(())
}

pub open spec fn sum_estimates(plan: Seq<Tier>, s: GraphSources, f: SourceFacts) -> int
    decreases plan.len(),
{
    if plan.len() == 0 { 0 } else { sum_estimates(plan.drop_last(), s, f) + spec_estimated_bytes(plan.last(), s, f) }
}

pub open spec fn max_temp(plan: Seq<Tier>, s: GraphSources, f: SourceFacts) -> int
    decreases plan.len(),
{
    if plan.len() == 0 {
        0
    } else {
        let a = max_temp(plan.drop_last(), s, f);
        let b = spec_estimated_temp_bytes(plan.last(), s, f);
        if a >= b { a } else { b }
    }
}

/// Room a plan needs: every tier's result plus the largest temporary space.
pub open spec fn spec_space_needed(plan: Seq<Tier>, s: GraphSources, f: SourceFacts) -> int {
    sum_estimates(plan, s, f) + max_temp(plan, s, f)
}

pub open spec fn no_room_message(root: Seq<char>, needed: int, free: int) -> Seq<char> {
    "недостатньо місця для індексу в\n  "@ + root + "\n\nПотрібно ≈"@ + spec_human_bytes(needed as nat) + ", вільно "@
        + spec_human_bytes(free as nat) + ".\nОберіть інший диск для індексу або зніміть найважчий рівень «"@
        + tier_label(Tier::Inbound) + "»."@
}

proof fn lemma_estimate_bounds(t: Tier, s: GraphSources, f: SourceFacts)
    requires
        facts_in_range(f),
    ensures
        0 <= spec_estimated_bytes(t, s, f) <= 0x0400_0000_0000_0000,
        0 <= spec_estimated_temp_bytes(t, s, f) <= 0x0400_0000_0000_0000,
{
    let nodes = spec_estimated_nodes(s, f);
    let edges = spec_estimated_edges(s, f);
    let vt = spec_text_size(f.vertices.size, spec_is_compressed(s.vertices@), GraphFile::Vertices);
    let et = spec_text_size(f.edges.size, spec_is_compressed(s.edges@), GraphFile::Edges);
    assert(vt <= MAX_SOURCE_BYTES);
    assert(et <= MAX_SOURCE_BYTES);
    assert(1 <= nodes <= 0x0010_0000_0000_0000);
    assert(1 <= edges <= 0x0010_0000_0000_0000);
}

proof fn lemma_plan_prefix(plan: Seq<Tier>, s: GraphSources, f: SourceFacts, i: int)
    requires
        facts_in_range(f),
        0 <= i <= plan.len(),
    ensures
        sum_estimates(plan.subrange(0, i), s, f) <= sum_estimates(plan, s, f),
        max_temp(plan.subrange(0, i), s, f) <= max_temp(plan, s, f),
    decreases plan.len(),
{
    if i < plan.len() {
        lemma_plan_prefix(plan.drop_last(), s, f, i);
        assert(plan.drop_last().subrange(0, i) =~= plan.subrange(0, i));
        lemma_estimate_bounds(plan.last(), s, f);
    } else {
        assert(plan.subrange(0, i) =~= plan);
    }
}

/// Whether the room a plan needs can be counted in 64 bits.
pub fn space_needed_fits(sources: &GraphSources, facts: &IndexFacts, plan: &[Tier]) -> (r: bool)
    requires
        index_facts_in_range(*facts),
    ensures
        r == (spec_space_needed(plan@, *sources, facts.sources) <= u64::MAX),
{
    let mut total: u128 = 0;
    let mut temp: u128 = 0;
    let mut i: usize = 0;
    while i < plan.len()
        invariant
            i <= plan@.len(),
            index_facts_in_range(*facts),
            total == sum_estimates(plan@.subrange(0, i as int), *sources, facts.sources),
            temp == max_temp(plan@.subrange(0, i as int), *sources, facts.sources),
            total <= i * 0x0400_0000_0000_0000,
            temp <= 0x0400_0000_0000_0000,
        decreases plan.len() - i,
    {
        let t = plan[i];
        proof {
            lemma_estimate_bounds(t, *sources, facts.sources);
            assert(plan@.subrange(0, i + 1).drop_last() =~= plan@.subrange(0, i as int));
        }
        total = total + t.estimated_bytes(sources, facts.sources) as u128;
        let tt = t.estimated_temp_bytes(sources, facts.sources) as u128;
        if tt > temp {
            temp = tt;
        }
        i = i + 1;
    }
    assert(plan@.subrange(0, i as int) =~= plan@);
    total + temp <= u64::MAX as u128
}

impl GraphIndex {
    /// Refuse a build the volume has no room for; an unknown free space
    /// (`free_bytes == 0`) lets it go ahead.
    pub fn check_free_space(&self, sources: &GraphSources, facts: &IndexFacts, plan: &[Tier]) -> (r: Result<(), String>)
        requires
            index_facts_in_range(*facts),
            spec_space_needed(plan@, *sources, facts.sources) <= u64::MAX,
        ensures
            match r {
                Ok(()) => facts.free_bytes == 0 || facts.free_bytes >= spec_space_needed(plan@, *sources, facts.sources),
                Err(m) => facts.free_bytes != 0 && facts.free_bytes < spec_space_needed(plan@, *sources, facts.sources)
                    && m@ == no_room_message(self.root_path(), spec_space_needed(plan@, *sources, facts.sources),
                        facts.free_bytes as int),
            },
    {
        let mut total: u64 = 0;
        let mut temp: u64 = 0;
        let mut i: usize = 0;
        proof {
            lemma_plan_prefix(plan@, *sources, facts.sources, plan@.len() as int);
        }
        while i < plan.len()
            invariant
                i <= plan@.len(),
                index_facts_in_range(*facts),
                spec_space_needed(plan@, *sources, facts.sources) <= u64::MAX,
                max_temp(plan@, *sources, facts.sources) >= 0,
                total == sum_estimates(plan@.subrange(0, i as int), *sources, facts.sources),
                temp == max_temp(plan@.subrange(0, i as int), *sources, facts.sources),
            decreases plan.len() - i,
        {
            let t = plan[i];
            proof {
                lemma_estimate_bounds(t, *sources, facts.sources);
                assert(plan@.subrange(0, i + 1).drop_last() =~= plan@.subrange(0, i as int));
                lemma_plan_prefix(plan@, *sources, facts.sources, i + 1);
            }
            total = total + t.estimated_bytes(sources, facts.sources);
            let tt = t.estimated_temp_bytes(sources, facts.sources);
            if tt > temp {
                temp = tt;
            }
            i = i + 1;
        }
        assert(plan@.subrange(0, i as int) =~= plan@);
        let needed = total + temp;
        let free = facts.free_bytes;
        if free == 0 {
            return Ok(());
        }
        if free < needed {
            let mut m = chars_of("недостатньо місця для індексу в\n  ");
            append_str(&mut m, self.root.as_str());
            append_str(&mut m, "\n\nПотрібно ≈");
            let n = human_bytes(needed);
            append_str(&mut m, n.as_str());
            append_str(&mut m, ", вільно ");
            let fr = human_bytes(free);
            append_str(&mut m, fr.as_str());
            append_str(&mut m, ".\nОберіть інший диск для індексу або зніміть найважчий рівень «");
            append_str(&mut m, Tier::Inbound.label());
            append_str(&mut m, "».");
            return Err(string_of(&m));
        }
        Ok(())
    }
}

/// After the lookup tier is built: the node counts it measured, and the
/// sampled edge estimate unless an exact count is already known.
pub fn apply_lookup_summary(meta: &mut IndexMeta, node_count: u64, max_id: u32, estimated_edges: u64)
    ensures
        final(meta).node_count == node_count,
        final(meta).node_capacity == max_id as int + 1,
        final(meta).edge_count == if old(meta).edge_count == 0 { estimated_edges } else { old(meta).edge_count },
        final(meta).tiers == old(meta).tiers,
        final(meta).format == old(meta).format,
{
    meta.node_count = node_count;
    meta.node_capacity = max_id as u64 + 1;
    if meta.edge_count == 0 {
        meta.edge_count = estimated_edges;
    }
}

/// The length of id-addressed arrays: the recorded capacity, or `fallback`
/// when none is recorded.
pub fn node_capacity_or(meta: &IndexMeta, fallback: u64) -> (r: u64)
    ensures
        r == if meta.node_capacity > 0 { meta.node_capacity } else { fallback },
{
    if meta.node_capacity > 0 { meta.node_capacity } else { fallback }
}

/// The edge count to size the inbound build by: the recorded one, or the
/// estimate from the source size.
pub fn edge_count_or(meta: &IndexMeta, estimate: u64) -> (r: u64)
    ensures
        r == if meta.edge_count > 0 { meta.edge_count } else { estimate },
{
    if meta.edge_count > 0 { meta.edge_count } else { estimate }
}

} // verus!
