//! Answering questions about one domain with whatever index tiers exist.
//!
//! The engine degrades honestly: every answer carries warnings saying what
//! was not available, so the caller can offer to build the missing tier
//! instead of quietly returning half a picture. Rank values stay as the
//! stored bits; turning them into numbers and ordering by them is the
//! caller's.

use vstd::prelude::*;
use crate::config::{RankMetric, metric_name};
use crate::vertices::{VertexIndex, LookupError, pairs_view};
use crate::edges::{EdgeIndex, OutboundError};
use crate::ranks::{RankIndex, RankRow, spec_position};
use crate::inbound::InboundIndex;
use crate::index::{Tier, tier_label};
use crate::reverse::{normalize_domain, to_reverse, from_reverse, spec_normalize, spec_to_reverse, spec_from_reverse};
use crate::number::{append_str, append_chars};
use crate::text::{chars_of, string_of};
use crate::seen::{id_map_new, id_map_insert, id_map_get, id_map_contents};
use ahash::{AHashMap, RandomState};

verus! {

/// Default cap on how many neighbours one query materialises.
pub const DEFAULT_LIMIT: usize = 20000;

#[derive(Debug, Clone, Copy, PartialEq, Eq, Structural)]
pub struct QueryOptions {
    pub include_inbound: bool,
    pub include_outbound: bool,
    /// Most neighbours per direction.
    pub limit: usize,
    pub metric: RankMetric,
}

impl Default for QueryOptions {
    fn default() -> (o: QueryOptions)
        ensures
            o.include_inbound && o.include_outbound && o.limit == DEFAULT_LIMIT && o.metric == RankMetric::Pagerank,
    {
        QueryOptions { include_inbound: true, include_outbound: true, limit: DEFAULT_LIMIT, metric: RankMetric::Pagerank }
    }
}

/// What the built tiers let the engine answer.
#[derive(Debug, Clone, Copy, PartialEq, Eq, Structural)]
pub struct Capabilities {
    pub lookup: bool,
    pub outbound: bool,
    pub inbound: bool,
    pub ranks: bool,
}

impl Default for Capabilities {
    fn default() -> (c: Capabilities)
        ensures
            !c.lookup && !c.outbound && !c.inbound && !c.ranks,
    {
        Capabilities { lookup: false, outbound: false, inbound: false, ranks: false }
    }
}

impl Capabilities {
    /// A domain can be looked up at all.
    pub fn can_query(&self) -> (r: bool)
        ensures
            r == self.lookup,
    {
        self.lookup
    }
}

/// The bytes of the source files and of the mapped index files.
pub struct GraphFiles<'a> {
    pub vertices: &'a [u8],
    pub edges: &'a [u8],
    pub ranks: &'a [u8],
    pub inbound_offsets: &'a [u8],
    pub inbound_sources: &'a [u8],
}

/// Read-only handle over every index tier that could be opened.
pub struct Engine {
    pub vertices: Option<VertexIndex>,
    pub edges: Option<EdgeIndex>,
    pub ranks: Option<RankIndex>,
    pub inbound: Option<InboundIndex>,
    pub capabilities: Capabilities,
}

/// One neighbour: its domain, its stored rank row, and its position under
/// the query's metric.
pub struct LinkFacts {
    pub domain: String,
    pub row: Option<RankRow>,
    pub position: Option<u32>,
}

/// Everything a query found out about one domain.
pub struct DomainFacts {
    pub domain: String,
    pub reverse_domain: String,
    pub found: bool,
    pub node_id: Option<u32>,
    pub metric: String,
    pub row: Option<RankRow>,
    pub position: Option<u32>,
    pub inbound: Vec<LinkFacts>,
    pub outbound: Vec<LinkFacts>,
    /// Real totals, which can exceed the returned list length.
    pub inbound_total: u64,
    pub outbound_total: u64,
    pub inbound_truncated: bool,
    pub outbound_truncated: bool,
    pub warnings: Vec<String>,
}

/// Why a query could not be answered.
#[derive(Debug, Clone, Copy, PartialEq, Eq, Structural)]
pub enum QueryError {
    /// The input does not read as a domain name.
    NotADomain,
    /// The lookup tier is not built.
    NoLookup,
    Lookup(LookupError),
    Outbound(OutboundError),
}

/// What to tell the user when the query for `domain` failed.
pub open spec fn spec_query_error_message(e: QueryError, domain: Seq<char>) -> Seq<char> {
    match e {
        QueryError::NotADomain => "«"@ + domain + "» не схоже на доменне ім'я"@,
        QueryError::NoLookup => "індекс пошуку не побудований — відкрийте вкладку «Дані» та побудуйте рівень «"@
            + tier_label(Tier::Lookup) + "»"@,
        QueryError::Lookup(l) => crate::vertices::spec_lookup_message(l),
        QueryError::Outbound(_) => "файл edges не відсортований за from_id — вихідні зв'язки потребують повного сканування"@,
    }
}

impl QueryError {
    pub fn message(&self, domain: &str) -> (s: String)
        ensures
            s@ == spec_query_error_message(*self, domain@),
    {
        match self {
            QueryError::NotADomain => {
                let mut v = chars_of("«");
                append_str(&mut v, domain);
                append_str(&mut v, "» не схоже на доменне ім'я");
                string_of(&v)
            },
            QueryError::NoLookup => {
                let mut v = chars_of("індекс пошуку не побудований — відкрийте вкладку «Дані» та побудуйте рівень «");
                append_str(&mut v, Tier::Lookup.label());
                append_str(&mut v, "»");
                string_of(&v)
            },
            QueryError::Lookup(l) => l.message(),
            QueryError::Outbound(_) => "файл edges не відсортований за from_id — вихідні зв'язки потребують повного сканування".to_owned(),
        }
    }
}

impl Engine {
    /// An engine over the tiers that opened; what it can answer follows from
    /// them.
    pub fn from_parts(vertices: Option<VertexIndex>, edges: Option<EdgeIndex>, ranks: Option<RankIndex>,
        inbound: Option<InboundIndex>) -> (e: Engine)
        ensures
            e.capabilities.lookup == (vertices matches Some(v) && v.sorted_by_name),
            e.capabilities.outbound == (edges matches Some(x) && x.sorted_by_from),
            e.capabilities.inbound == inbound is Some,
            e.capabilities.ranks == ranks is Some,
            e.vertices == vertices,
            e.edges == edges,
            e.ranks == ranks,
            e.inbound == inbound,
    {
        let lookup = match &vertices {
            Some(v) => v.sorted_by_name,
            None => false,
        };
        let outbound = match &edges {
            Some(x) => x.sorted_by_from,
            None => false,
        };
        let capabilities = Capabilities { lookup, outbound, inbound: inbound.is_some(), ranks: ranks.is_some() };
        Engine { vertices, edges, ranks, inbound, capabilities }
    }

    pub fn capabilities(&self) -> (c: Capabilities)
        ensures
            c == self.capabilities,
    {
        self.capabilities
    }

    /// Total domains in the graph, when known.
    pub fn node_count(&self) -> (n: u64)
        ensures
            n == match self.vertices {
                Some(v) => v.node_count,
                None => 0,
            },
    {
        match &self.vertices {
            Some(v) => v.node_count,
            None => 0,
        }
    }

    /// The mapped files fit the tiers they were opened as.
    pub open spec fn fits(&self, files: &GraphFiles) -> bool {
        &&& (self.vertices matches Some(v) ==> v.wf())
        &&& (self.ranks matches Some(r) ==> files.ranks@.len() >= 64 + 16 * r.node_capacity)
        &&& (self.inbound matches Some(i) ==> files.inbound_offsets@.len() >= 64 + (i.node_capacity + 1) * 8)
    }

    /// Whether the mapped files fit the tiers they were opened as.
    pub fn check_fits(&self, files: &GraphFiles) -> (r: bool)
        ensures
            r == self.fits(files),
    {
        let v_ok = match &self.vertices {
            Some(v) => v.check_wf(),
            None => true,
        };
        let r_ok = match &self.ranks {
            Some(r) => (files.ranks.len() as u128) >= 64 + 16 * (r.node_capacity as u128),
            None => true,
        };
        let i_ok = match &self.inbound {
            Some(i) => (files.inbound_offsets.len() as u128) >= 64 + ((i.node_capacity as u128) + 1) * 8,
            None => true,
        };
        v_ok && r_ok && i_ok
    }

    /// The stored rank row of `id`, if the ranks tier is built and covers it.
    pub open spec fn spec_row(&self, files: &GraphFiles, id: u32) -> Option<RankRow> {
        match self.ranks {
            Some(r) => r.spec_get(files.ranks@, id),
            None => None,
        }
    }

    fn row(&self, files: &GraphFiles, id: u32) -> (r: Option<RankRow>)
        requires
            self.fits(files),
        ensures
            r == self.spec_row(files, id),
    {
        match &self.ranks {
            Some(r) => r.get(files.ranks, id),
            None => None,
        }
    }

    /// Node id of a domain given in any form (`https://www.Example.com/x`).
    pub fn resolve(&self, files: &GraphFiles, domain: &str) -> (r: Result<Option<u32>, QueryError>)
        requires
            self.fits(files),
        ensures
            match self.vertices {
                None => r == Err::<Option<u32>, QueryError>(QueryError::NoLookup),
                Some(v) => if spec_to_reverse(domain@).len() == 0 {
                    r == Err::<Option<u32>, QueryError>(QueryError::NotADomain)
                } else {
                    match v.spec_id_of(files.vertices@, spec_to_reverse(domain@)) {
                        Ok(id) => r == Ok::<Option<u32>, QueryError>(id),
                        Err(e) => r == Err::<Option<u32>, QueryError>(QueryError::Lookup(e)),
                    }
                },
            },
    {
        let vertices = match &self.vertices {
            Some(v) => v,
            None => return Err(QueryError::NoLookup),
        };
        let reverse = to_reverse(domain);
        if reverse.as_str().is_empty() {
            return Err(QueryError::NotADomain);
        }
        match vertices.id_of(files.vertices, reverse.as_str()) {
            Ok(id) => Ok(id),
            Err(e) => Err(QueryError::Lookup(e)),
        }
    }
}

/// `id -> domain` for the visits of a name lookup, later visits winning.
pub open spec fn names_by_id(visits: Seq<(u32, Seq<char>)>) -> Map<u32, Seq<char>>
    decreases visits.len(),
{
    if visits.len() == 0 {
        Map::empty()
    } else {
        names_by_id(visits.drop_last()).insert(visits.last().0, spec_from_reverse(visits.last().1))
    }
}

pub open spec fn link_view(l: LinkFacts) -> (Seq<char>, Option<RankRow>, Option<u32>) {
    (l.domain@, l.row, l.position)
}

impl Engine {
    /// The neighbours `ids` that have a name, in the order given, each with
    /// its row and position.
    pub open spec fn spec_entries(&self, files: &GraphFiles, ids: Seq<u32>, names: Map<u32, Seq<char>>, metric: RankMetric)
        -> Seq<(Seq<char>, Option<RankRow>, Option<u32>)>
        decreases ids.len(),
    {
        if ids.len() == 0 {
            Seq::empty()
        } else {
            let before = self.spec_entries(files, ids.drop_last(), names, metric);
            let id = ids.last();
            if names.dom().contains(id) {
                let row = self.spec_row(files, id);
                before.push((names[id], row, match row { Some(x) => spec_position(x, metric), None => None }))
            } else {
                before
            }
        }
    }

    fn entries(&self, files: &GraphFiles, ids: &Vec<u32>, names: &AHashMap<u32, String, RandomState>, metric: RankMetric)
        -> (r: Vec<LinkFacts>)
        requires
            self.fits(files),
        ensures
            r@.map_values(|l: LinkFacts| link_view(l)) == self.spec_entries(files, ids@, id_map_contents(*names), metric),
    {
        let mut out: Vec<LinkFacts> = Vec::new();
        let mut i: usize = 0;
        let ghost m = id_map_contents(*names);
        while i < ids.len()
            invariant
                i <= ids@.len(),
                m == id_map_contents(*names),
                self.fits(files),
                out@.map_values(|l: LinkFacts| link_view(l)) == self.spec_entries(files, ids@.subrange(0, i as int), m, metric),
            decreases ids.len() - i,
        {
            let id = ids[i];
            proof {
                assert(ids@.subrange(0, i + 1).drop_last() =~= ids@.subrange(0, i as int));
            }
            match id_map_get(names, id) {
                Some(domain) => {
                    let row = self.row(files, id);
                    let position = match &row {
                        Some(x) => x.position(metric),
                        None => None,
                    };
                    let ghost before = out@;
                    out.push(LinkFacts { domain, row, position });
                    proof {
                        assert(out@.map_values(|l: LinkFacts| link_view(l))
                            =~= before.map_values(|l: LinkFacts| link_view(l)).push(link_view(out@.last())));
                    }
                },
                None => {},
            }
            i = i + 1;
        }
        assert(ids@.subrange(0, i as int) =~= ids@);
        out
    }
}

fn concat_ids(a: &Vec<u32>, b: &Vec<u32>) -> (r: Vec<u32>)
    ensures
        r@ == a@ + b@,
{
    let mut r: Vec<u32> = Vec::new();
    let mut i: usize = 0;
    while i < a.len()
        invariant
            i <= a@.len(),
            r@ == a@.subrange(0, i as int),
        decreases a.len() - i,
    {
        r.push(a[i]);
        assert(r@ =~= a@.subrange(0, i + 1));
        i = i + 1;
    }
    let mut j: usize = 0;
    while j < b.len()
        invariant
            i == a@.len(),
            j <= b@.len(),
            r@ == a@ + b@.subrange(0, j as int),
        decreases b.len() - j,
    {
        r.push(b[j]);
        assert(r@ =~= a@ + b@.subrange(0, j + 1));
        j = j + 1;
    }
    assert(b@.subrange(0, j as int) =~= b@);
    r
}

fn text(s: &str) -> (r: String)
    ensures
        r@ == s@,
{
    string_of(&chars_of(s))
}

/// The warning for a domain absent from the graph.
pub open spec fn absent_warning(clean: Seq<char>) -> Seq<char> {
    "Домен "@ + clean + " відсутній у цьому випуску Common Crawl. Перевірте написання або візьміть свіжіший граф."@
}

pub open spec fn no_ranks_warning() -> Seq<char> {
    "Рівень «"@ + tier_label(Tier::Ranks) + "» не побудований — рейтинги показані як 0."@
}

pub open spec fn no_inbound_warning() -> Seq<char> {
    "Рівень «"@ + tier_label(Tier::Inbound) + "» не побудований — хто посилається на домен, поки невідомо."@
}

pub open spec fn unsorted_edges_warning() -> Seq<char> {
    "Файл edges не відсортований за from_id — вихідні зв'язки недоступні."@
}

fn warning_absent(clean: &str) -> (w: String)
    ensures
        w@ == absent_warning(clean@),
{
    let mut v: Vec<char> = Vec::new();
    append_str(&mut v, "Домен ");
    append_str(&mut v, clean);
    append_str(&mut v, " відсутній у цьому випуску Common Crawl. Перевірте написання або візьміть свіжіший граф.");
    string_of(&v)
}

fn warning_tier(tier: Tier, tail: &str) -> (w: String)
    ensures
        w@ == "Рівень «"@ + tier_label(tier) + tail@,
{
    let mut v: Vec<char> = Vec::new();
    append_str(&mut v, "Рівень «");
    append_str(&mut v, tier.label());
    append_str(&mut v, tail);
    string_of(&v)
}

/// What a query's answer holds, as values.
pub struct FactsView {
    pub domain: Seq<char>,
    pub reverse_domain: Seq<char>,
    pub found: bool,
    pub node_id: Option<u32>,
    pub metric: Seq<char>,
    pub row: Option<RankRow>,
    pub position: Option<u32>,
    pub inbound: Seq<(Seq<char>, Option<RankRow>, Option<u32>)>,
    pub outbound: Seq<(Seq<char>, Option<RankRow>, Option<u32>)>,
    pub inbound_total: u64,
    pub outbound_total: u64,
    pub inbound_truncated: bool,
    pub outbound_truncated: bool,
    pub warnings: Seq<Seq<char>>,
}

pub open spec fn facts_view(f: DomainFacts) -> FactsView {
    FactsView {
        domain: f.domain@,
        reverse_domain: f.reverse_domain@,
        found: f.found,
        node_id: f.node_id,
        metric: f.metric@,
        row: f.row,
        position: f.position,
        inbound: f.inbound@.map_values(|l: LinkFacts| link_view(l)),
        outbound: f.outbound@.map_values(|l: LinkFacts| link_view(l)),
        inbound_total: f.inbound_total,
        outbound_total: f.outbound_total,
        inbound_truncated: f.inbound_truncated,
        outbound_truncated: f.outbound_truncated,
        warnings: f.warnings@.map_values(|w: String| w@),
    }
}

impl Engine {
    /// Backlinks of `id` the query asks for: the ids, the real total, and the
    /// warning when the tier is missing.
    pub open spec fn spec_inbound_part(&self, files: &GraphFiles, id: u32, o: QueryOptions) -> (Seq<u32>, u64, Seq<Seq<char>>) {
        if !o.include_inbound {
            (Seq::empty(), 0, Seq::empty())
        } else {
            match self.inbound {
                Some(i) => {
                    let (ids, total) = i.spec_sources_of(files.inbound_offsets@, files.inbound_sources@, id, o.limit as int);
                    (ids, total, Seq::empty())
                },
                None => (Seq::empty(), 0, seq![no_inbound_warning()]),
            }
        }
    }

    /// Outbound links of `id` the query asks for: the ids, whether the cap
    /// cut them, how many distinct destinations the run really holds, and
    /// the warning when they cannot be found.
    pub open spec fn spec_outbound_part(&self, files: &GraphFiles, id: u32, o: QueryOptions) -> Result<(Seq<u32>, bool, nat, Seq<Seq<char>>), OutboundError> {
        if !o.include_outbound {
            Ok((Seq::empty(), false, 0, Seq::empty()))
        } else if self.edges matches Some(x) && self.capabilities.outbound {
            match self.edges->0.spec_outbound(files.edges@, id, o.limit as int) {
                Ok((ids, t)) => match self.edges->0.spec_outbound_total(files.edges@, id) {
                    Ok(total) => Ok((ids, t, total, Seq::empty())),
                    Err(e) => Err(e),
                },
                Err(e) => Err(e),
            }
        } else {
            Ok((Seq::empty(), false, 0, seq![unsorted_edges_warning()]))
        }
    }

    /// The answer to a query for `domain`.
    pub open spec fn spec_query(&self, files: &GraphFiles, domain: Seq<char>, o: QueryOptions) -> Result<FactsView, QueryError> {
        let clean = spec_normalize(domain);
        let rev = spec_to_reverse(clean);
        if rev.len() == 0 {
            Err(QueryError::NotADomain)
        } else {
            match self.vertices {
                None => Err(QueryError::NoLookup),
                Some(v) => match v.spec_id_of(files.vertices@, rev) {
                    Err(e) => Err(QueryError::Lookup(e)),
                    Ok(None) => Ok(FactsView {
                        domain: clean, reverse_domain: rev, found: false, node_id: None, metric: metric_name(o.metric),
                        row: None, position: None, inbound: Seq::empty(), outbound: Seq::empty(),
                        inbound_total: 0, outbound_total: 0, inbound_truncated: false, outbound_truncated: false,
                        warnings: seq![absent_warning(clean)],
                    }),
                    Ok(Some(id)) => {
                        let row = self.spec_row(files, id);
                        let w_ranks: Seq<Seq<char>> = if self.ranks is None { seq![no_ranks_warning()] } else { Seq::empty() };
                        let (in_ids, in_total, w_in) = self.spec_inbound_part(files, id, o);
                        match self.spec_outbound_part(files, id, o) {
                            Err(e) => Err(QueryError::Outbound(e)),
                            Ok((out_ids, out_cut, out_total, w_out)) => match v.spec_names_of(files.vertices@, in_ids + out_ids) {
                                Err(e) => Err(QueryError::Lookup(e)),
                                Ok(visits) => {
                                    let names = names_by_id(visits);
                                    Ok(FactsView {
                                        domain: clean, reverse_domain: rev, found: true, node_id: Some(id),
                                        metric: metric_name(o.metric), row,
                                        position: match row { Some(x) => spec_position(x, o.metric), None => None },
                                        inbound: self.spec_entries(files, in_ids, names, o.metric),
                                        outbound: self.spec_entries(files, out_ids, names, o.metric),
                                        inbound_total: in_total, outbound_total: out_total as u64,
                                        inbound_truncated: in_total > in_ids.len(), outbound_truncated: out_cut,
                                        warnings: w_ranks + w_in + w_out,
                                    })
                                },
                            },
                        }
                    },
                },
            }
        }
    }

    /// A query's inbound list is cut exactly when the backlinks it reports
    /// outnumber the ids fetched for it: `inbound_truncated` is
    /// `inbound_total > fetched`, where `fetched` is what `sources_of` gives
    /// for the domain's id under the query's limit. At most `limit` ids are
    /// fetched, so a domain with no more backlinks than the limit, whose ids
    /// could be read, is never reported cut, and one with more always is;
    /// with no inbound tier, no match or inbound not asked for, nothing is
    /// reported cut and the total is 0.
    pub proof fn lemma_query_inbound_cut(&self, files: &GraphFiles, domain: Seq<char>, o: QueryOptions)
        requires
            self.spec_query(files, domain, o) is Ok,
        ensures
            ({
                let f = self.spec_query(files, domain, o)->Ok_0;
                &&& (!f.found || !o.include_inbound || self.inbound is None)
                    ==> !f.inbound_truncated && f.inbound_total == 0
                &&& (f.found && o.include_inbound && self.inbound is Some) ==> ({
                    let (ids, total) = self.inbound->Some_0.spec_sources_of(files.inbound_offsets@,
                        files.inbound_sources@, f.node_id->Some_0, o.limit as int);
                    &&& f.inbound_total == total
                    &&& f.inbound_truncated == (total > ids.len())
                    &&& ids.len() <= o.limit
                    &&& ids.len() <= total
                    &&& (ids.len() > 0 || total == 0) ==> (f.inbound_truncated <==> total > o.limit)
                })
            }),
    {
    }

    /// The position a query reports is the stored position, under the
    /// metric asked for, of the domain's own rank row: its PageRank position
    /// for PageRank and its harmonic position for harmonic centrality, none
    /// where that position is 0 or the domain has no row.
    pub proof fn lemma_query_position(&self, files: &GraphFiles, domain: Seq<char>, o: QueryOptions)
        requires
            self.spec_query(files, domain, o) is Ok,
        ensures
            ({
                let f = self.spec_query(files, domain, o)->Ok_0;
                &&& f.row is None ==> f.position is None
                &&& f.row is Some && o.metric == RankMetric::Pagerank ==> f.position == (if f.row->Some_0.pagerank_position > 0 {
                    Some(f.row->Some_0.pagerank_position) } else { None::<u32> })
                &&& f.row is Some && o.metric == RankMetric::Harmonic ==> f.position == (if f.row->Some_0.harmonic_position > 0 {
                    Some(f.row->Some_0.harmonic_position) } else { None::<u32> })
                &&& f.found ==> f.row == self.spec_row(files, f.node_id->Some_0)
            }),
    {
    }

    /// The full picture for one domain given in any form.
    #[verifier::rlimit(80)]
    pub fn query(&self, files: &GraphFiles, domain: &str, options: QueryOptions) -> (r: Result<DomainFacts, QueryError>)
        requires
            self.fits(files),
        ensures
            match r {
                Ok(f) => self.spec_query(files, domain@, options) == Ok::<FactsView, QueryError>(facts_view(f)),
                Err(e) => self.spec_query(files, domain@, options) == Err::<FactsView, QueryError>(e),
            },
    {
        let clean = normalize_domain(domain);
        let reverse = to_reverse(clean.as_str());
        if reverse.as_str().is_empty() {
            return Err(QueryError::NotADomain);
        }
        let vertices = match &self.vertices {
            Some(v) => v,
            None => return Err(QueryError::NoLookup),
        };
        let metric = text(options.metric.as_str());
        let mut warnings: Vec<String> = Vec::new();
        let found = match vertices.id_of(files.vertices, reverse.as_str()) {
            Ok(x) => x,
            Err(e) => return Err(QueryError::Lookup(e)),
        };
        let node_id = match found {
            Some(id) => id,
            None => {
                warnings.push(warning_absent(clean.as_str()));
                let f = DomainFacts {
                    domain: clean, reverse_domain: reverse, found: false, node_id: None, metric, row: None,
                    position: None, inbound: Vec::new(), outbound: Vec::new(), inbound_total: 0, outbound_total: 0,
                    inbound_truncated: false, outbound_truncated: false, warnings,
                };
                proof {
                    assert(f.inbound@.map_values(|l: LinkFacts| link_view(l)) =~= Seq::<(Seq<char>, Option<RankRow>, Option<u32>)>::empty());
                    assert(f.outbound@.map_values(|l: LinkFacts| link_view(l)) =~= Seq::<(Seq<char>, Option<RankRow>, Option<u32>)>::empty());
                    assert(f.warnings@.map_values(|w: String| w@) =~= seq![absent_warning(spec_normalize(domain@))]);
                }
                return Ok(f);
            },
        };
        let row = self.row(files, node_id);
        let position = match &row {
            Some(x) => x.position(options.metric),
            None => None,
        };
        let mut w_ranks: Vec<String> = Vec::new();
        if self.ranks.is_none() {
            w_ranks.push(warning_tier(Tier::Ranks, "» не побудований — рейтинги показані як 0."));
        }
        let mut w_in: Vec<String> = Vec::new();
        let mut inbound_ids: Vec<u32> = Vec::new();
        let mut inbound_total: u64 = 0;
        let mut inbound_truncated = false;
        if options.include_inbound {
            match &self.inbound {
                Some(index) => {
                    let (ids, total) = index.sources_of(files.inbound_offsets, files.inbound_sources, node_id, options.limit);
                    inbound_total = total;
                    inbound_truncated = total > ids.len() as u64;
                    inbound_ids = ids;
                },
                None => {
                    w_in.push(warning_tier(Tier::Inbound, "» не побудований — хто посилається на домен, поки невідомо."));
                },
            }
        }
        proof {
            assert((inbound_ids@, inbound_total, w_in@.map_values(|w: String| w@)) == self.spec_inbound_part(files, node_id, options));
        }
        let mut w_out: Vec<String> = Vec::new();
        let mut outbound_ids: Vec<u32> = Vec::new();
        let mut outbound_truncated = false;
        let mut outbound_total: u64 = 0;
        if options.include_outbound {
            let mut used = false;
            match &self.edges {
                Some(edges) => {
                    if self.capabilities.outbound {
                        match edges.outbound(files.edges, node_id, options.limit) {
                            Ok((ids, cut)) => {
                                outbound_truncated = cut;
                                outbound_ids = ids;
                            },
                            Err(e) => return Err(QueryError::Outbound(e)),
                        }
                        match edges.outbound_total(files.edges, node_id) {
                            Ok(t) => {
                                outbound_total = t;
                            },
                            Err(e) => return Err(QueryError::Outbound(e)),
                        }
                        used = true;
                    }
                },
                None => {},
            }
            if !used {
                w_out.push(text("Файл edges не відсортований за from_id — вихідні зв'язки недоступні."));
                proof {
                    assert(w_out@.map_values(|w: String| w@) =~= seq![unsorted_edges_warning()]);
                }
            } else {
                proof {
                    assert(w_out@.map_values(|w: String| w@) =~= Seq::<Seq<char>>::empty());
                }
            }
        } else {
            proof {
                assert(w_out@.map_values(|w: String| w@) =~= Seq::<Seq<char>>::empty());
                assert(outbound_ids@ =~= Seq::<u32>::empty());
            }
        }
        proof {
            assert(self.spec_outbound_part(files, node_id, options)
                == Ok::<(Seq<u32>, bool, nat, Seq<Seq<char>>), OutboundError>((outbound_ids@, outbound_truncated,
                    outbound_total as nat, w_out@.map_values(|w: String| w@))));
        }
        let all_ids = concat_ids(&inbound_ids, &outbound_ids);
        let visits = match vertices.names_of(files.vertices, all_ids.as_slice()) {
            Ok(v) => v,
            Err(e) => return Err(QueryError::Lookup(e)),
        };
        let mut names = id_map_new();
        let ghost pv = pairs_view(visits@);
        let mut k: usize = 0;
        assert(id_map_contents(names) =~= names_by_id(pv.subrange(0, 0)));
        while k < visits.len()
            invariant
                k <= visits@.len(),
                pv == pairs_view(visits@),
                id_map_contents(names) == names_by_id(pv.subrange(0, k as int)),
            decreases visits.len() - k,
        {
            proof {
                assert(pv.subrange(0, k + 1).drop_last() =~= pv.subrange(0, k as int));
            }
            let domain_name = from_reverse(visits[k].1.as_str());
            id_map_insert(&mut names, visits[k].0, domain_name);
            k = k + 1;
        }
        assert(pv.subrange(0, k as int) =~= pv);
        let inbound = self.entries(files, &inbound_ids, &names, options.metric);
        let outbound = self.entries(files, &outbound_ids, &names, options.metric);
        let ghost wr = w_ranks@.map_values(|w: String| w@);
        let ghost wi = w_in@.map_values(|w: String| w@);
        let ghost wo = w_out@.map_values(|w: String| w@);
        let ghost wr_v = w_ranks@;
        let ghost wi_v = w_in@;
        let ghost wo_v = w_out@;
        warnings.append(&mut w_ranks);
        warnings.append(&mut w_in);
        warnings.append(&mut w_out);
        proof {
            assert(warnings@ == wr_v + wi_v + wo_v);
            assert(warnings@.map_values(|w: String| w@) =~= wr + wi + wo);
        }
        let f = DomainFacts {
            domain: clean, reverse_domain: reverse, found: true, node_id: Some(node_id), metric, row, position,
            inbound, outbound, inbound_total, outbound_total, inbound_truncated, outbound_truncated, warnings,
        };
        proof {
            let fv = facts_view(f);
            let names_m = names_by_id(pv);
            assert(wr =~= (if self.ranks is None { seq![no_ranks_warning()] } else { Seq::<Seq<char>>::empty() }));
            assert(fv.warnings == wr + wi + wo);
            assert(fv.inbound == self.spec_entries(files, inbound_ids@, names_m, options.metric));
            assert(fv.outbound == self.spec_entries(files, outbound_ids@, names_m, options.metric));
            assert(fv.metric == metric_name(options.metric));
            assert(fv.domain == spec_normalize(domain@));
            assert(fv.reverse_domain == spec_to_reverse(spec_normalize(domain@)));
            assert(fv.row == self.spec_row(files, node_id));
            assert(vertices.spec_names_of(files.vertices@, inbound_ids@ + outbound_ids@) == Ok::<Seq<(u32, Seq<char>)>, LookupError>(pv));
        }
        Ok(f)
    }
}

} // verus!
