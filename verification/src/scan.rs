//! The streaming passes that answer without an index, one chunk of whole
//! lines at a time: find the targets in vertices, collect their inbound and
//! outbound neighbours from edges, name the neighbours, read the ranks.

use vstd::prelude::*;
use crate::lines::{split_lines, tab_positions, tab_fields};
use crate::vertices::{for_each_vertex, text_view, vertex_texts, lemma_text_views_agree};
use crate::inbound::{edge_pairs, partition_edges, pack, key_of, low_of};
use crate::ranks::{field_of, three_of};
use crate::config::{RankMetric, ResolvedTarget};
use crate::seo::text_le;
use crate::seen::{
    string_set_contains, string_set_contents, id_set_contains, id_set_contents, id_map_insert, id_map_contents,
    id_map_items, pair_set_insert, pair_set_contents, pair_set_items, string_set_new, string_set_insert,
    string_set_len, id_set_new, id_set_insert, id_set_len, id_map_new, id_map_len, pair_set_new,
};
use ahash::{AHashMap, AHashSet, RandomState};

verus! {

/// `id -> name` after the records `rs` whose name `keep` accepts are taken
/// into `m`, a later record overriding an earlier one.
pub open spec fn take_named(rs: Seq<(u32, Seq<char>)>, wanted: Set<Seq<char>>, m: Map<u32, Seq<char>>) -> Map<u32, Seq<char>>
    decreases rs.len(),
{
    if rs.len() == 0 {
        m
    } else {
        let before = take_named(rs.drop_last(), wanted, m);
        if wanted.contains(rs.last().1) { before.insert(rs.last().0, rs.last().1) } else { before }
    }
}

/// The same, with the records chosen by id.
pub open spec fn take_ids(rs: Seq<(u32, Seq<char>)>, needed: Set<u32>, m: Map<u32, Seq<char>>) -> Map<u32, Seq<char>>
    decreases rs.len(),
{
    if rs.len() == 0 {
        m
    } else {
        let before = take_ids(rs.drop_last(), needed, m);
        if needed.contains(rs.last().0) { before.insert(rs.last().0, rs.last().1) } else { before }
    }
}

/// Take the records of one chunk whose reverse domain is a target.
pub fn collect_targets(chunk: &[u8], wanted: &AHashSet<String, RandomState>, found: &mut AHashMap<u32, String, RandomState>)
    ensures
        id_map_contents(*final(found)) == take_named(vertex_texts(chunk@), string_set_contents(*wanted), id_map_contents(*old(found))),
{
    let records = for_each_vertex(chunk);
    let ghost view = text_view(chunk@);
    let ghost m0 = id_map_contents(*found);
    proof {
        lemma_text_views_agree(chunk@);
    }
    let mut k: usize = 0;
    assert(view.subrange(0, 0) =~= Seq::<(u32, Seq<char>)>::empty());
    while k < records.len()
        invariant
            k <= records@.len() == view.len(),
            view == vertex_texts(chunk@),
            forall|j: int| 0 <= j < records@.len() ==> (#[trigger] records@[j]).0 == view[j].0 && records@[j].1@ == view[j].1,
            id_map_contents(*found) == take_named(view.subrange(0, k as int), string_set_contents(*wanted), m0),
        decreases records.len() - k,
    {
        proof {
            assert(view.subrange(0, k + 1).drop_last() =~= view.subrange(0, k as int));
        }
        if string_set_contains(wanted, records[k].1.as_str()) {
            let name = records[k].1.clone();
            id_map_insert(found, records[k].0, name);
        }
        k = k + 1;
    }
    assert(view.subrange(0, k as int) =~= view);
}

/// Take the records of one chunk whose id is a needed neighbour.
pub fn collect_names(chunk: &[u8], needed: &AHashSet<u32, RandomState>, found: &mut AHashMap<u32, String, RandomState>)
    ensures
        id_map_contents(*final(found)) == take_ids(vertex_texts(chunk@), id_set_contents(*needed), id_map_contents(*old(found))),
{
    let records = for_each_vertex(chunk);
    let ghost view = text_view(chunk@);
    let ghost m0 = id_map_contents(*found);
    proof {
        lemma_text_views_agree(chunk@);
    }
    let mut k: usize = 0;
    assert(view.subrange(0, 0) =~= Seq::<(u32, Seq<char>)>::empty());
    while k < records.len()
        invariant
            k <= records@.len() == view.len(),
            view == vertex_texts(chunk@),
            forall|j: int| 0 <= j < records@.len() ==> (#[trigger] records@[j]).0 == view[j].0 && records@[j].1@ == view[j].1,
            id_map_contents(*found) == take_ids(view.subrange(0, k as int), id_set_contents(*needed), m0),
        decreases records.len() - k,
    {
        proof {
            assert(view.subrange(0, k + 1).drop_last() =~= view.subrange(0, k as int));
        }
        if id_set_contains(needed, records[k].0) {
            let name = records[k].1.clone();
            id_map_insert(found, records[k].0, name);
        }
        k = k + 1;
    }
    assert(view.subrange(0, k as int) =~= view);
}

/// The links of the edges `es` that touch a target, self links left out:
/// for each edge into a target `(to, from)`, for each edge out of one
/// `(from, to)`, packed as `first << 32 | second`.
pub open spec fn take_links(es: Seq<(u32, u32)>, targets: Set<u32>, inbound: Set<u64>, outbound: Set<u64>) -> (Set<u64>, Set<u64>)
    decreases es.len(),
{
    if es.len() == 0 {
        (inbound, outbound)
    } else {
        let (i0, o0) = take_links(es.drop_last(), targets, inbound, outbound);
        let (from, to) = es.last();
        if from == to {
            (i0, o0)
        } else {
            (if targets.contains(to) { i0.insert(pack(to, from)) } else { i0 },
             if targets.contains(from) { o0.insert(pack(from, to)) } else { o0 })
        }
    }
}

/// Take the links of one chunk of edges lines that touch a target.
pub fn collect_edges(chunk: &[u8], targets: &AHashSet<u32, RandomState>, inbound: &mut AHashSet<u64, RandomState>,
    outbound: &mut AHashSet<u64, RandomState>)
    ensures
        (pair_set_contents(*final(inbound)), pair_set_contents(*final(outbound)))
            == take_links(edge_pairs(split_lines(chunk@)), id_set_contents(*targets),
                pair_set_contents(*old(inbound)), pair_set_contents(*old(outbound))),
{
    let n = chunk.len();
    let mut cursor: usize = 0;
    let ghost i0 = pair_set_contents(*inbound);
    let ghost o0 = pair_set_contents(*outbound);
    let ghost done: Seq<Seq<u8>> = Seq::empty();
    assert(chunk@.subrange(0, n as int) =~= chunk@);
    assert(split_lines(chunk@) == done + split_lines(chunk@.subrange(0, n as int)));
    while cursor < n
        invariant
            n == chunk@.len(),
            cursor <= n,
            split_lines(chunk@) == done + split_lines(chunk@.subrange(cursor as int, n as int)),
            (pair_set_contents(*inbound), pair_set_contents(*outbound))
                == take_links(edge_pairs(done), id_set_contents(*targets), i0, o0),
        decreases n - cursor,
    {
        let end = crate::lines::next_line_end(chunk, cursor);
        let ghost ls = split_lines(chunk@.subrange(cursor as int, n as int));
        let raw_line = &chunk[cursor..end];
        let ghost nd = done.push(raw_line@);
        proof {
            assert(ls.drop_first() =~= split_lines(chunk@.subrange(end as int, n as int)));
            assert(nd.drop_last() =~= done);
            assert(split_lines(chunk@) == nd + split_lines(chunk@.subrange(end as int, n as int))) by {
                assert(done + ls =~= nd + ls.drop_first());
            }
        }
        let line = crate::lines::trim_eol(raw_line);
        if line.len() > 0 && line[0] != 35u8 {
            match crate::lines::parse_edge_line(line) {
                Some((from, to)) => {
                    proof {
                        assert(edge_pairs(nd).drop_last() =~= edge_pairs(done));
                    }
                    if from != to {
                        if id_set_contains(targets, to) {
                            pair_set_insert(inbound, crate::inbound::pack_pair(to, from));
                        }
                        if id_set_contains(targets, from) {
                            pair_set_insert(outbound, crate::inbound::pack_pair(from, to));
                        }
                    }
                },
                None => {},
            }
        }
        proof {
            done = nd;
        }
        cursor = end;
    }
    proof {
        assert(chunk@.subrange(n as int, n as int) =~= Seq::<u8>::empty());
        crate::lines::lemma_split_lines_empty();
        assert(done + Seq::<Seq<u8>>::empty() =~= done);
    }
}

/// The neighbours of `target` among the packed links: each once, in the
/// order the set walks them.
pub fn neighbours_of(links: &AHashSet<u64, RandomState>, target: u32) -> (r: Vec<u32>)
    ensures
        forall|n: u32| r@.contains(n) <==> pair_set_contents(*links).contains(pack(target, n)),
        r@.no_duplicates(),
{
    let items = pair_set_items(links);
    let mut r: Vec<u32> = Vec::new();
    let mut i: usize = 0;
    while i < items.len()
        invariant
            i <= items@.len(),
            items@.to_set() == pair_set_contents(*links),
            items@.no_duplicates(),
            forall|n: u32| r@.contains(n) <==> exists|j: int| 0 <= j < i && #[trigger] items@[j] == pack(target, n),
            r@.no_duplicates(),
        decreases items.len() - i,
    {
        let x = items[i];
        proof {
            crate::inbound::lemma_unpack_pack(x);
        }
        if crate::inbound::key_of_exec(x) == target {
            let n = crate::inbound::low_of_exec(x);
            proof {
                assert(x == pack(target, n));
                assert forall|m: u32| r@.contains(m) implies m != n by {
                    let j = choose|j: int| 0 <= j < i && #[trigger] items@[j] == pack(target, m);
                    crate::inbound::lemma_pack_injective(target, m, target, n);
                    assert(items@[j] != items@[i as int]);
                }
            }
            let ghost before = r@;
            r.push(n);
            proof {
                assert forall|a: int, b: int| 0 <= a < r@.len() && 0 <= b < r@.len() && a != b implies r@[a] != r@[b] by {
                    if a < before.len() && b < before.len() {
                        assert(before[a] != before[b]);
                    } else if a == before.len() {
                        assert(before.contains(r@[b]));
                    } else {
                        assert(before.contains(r@[a]));
                    }
                }
                assert forall|m: u32| r@.contains(m) <==> exists|j: int| 0 <= j < i + 1 && #[trigger] items@[j] == pack(target, m) by {
                    if r@.contains(m) {
                        let k = choose|k: int| 0 <= k < r@.len() && r@[k] == m;
                        if k < before.len() {
                            assert(before[k] == m);
                            assert(before.contains(m));
                        } else {
                            assert(items@[i as int] == pack(target, m));
                        }
                    }
                    if exists|j: int| 0 <= j < i + 1 && #[trigger] items@[j] == pack(target, m) {
                        let j = choose|j: int| 0 <= j < i + 1 && #[trigger] items@[j] == pack(target, m);
                        if j < i {
                            assert(before.contains(m));
                            let k = choose|k: int| 0 <= k < before.len() && before[k] == m;
                            assert(r@[k] == m);
                        } else {
                            crate::inbound::lemma_pack_injective(target, m, target, n);
                            assert(r@[before.len() as int] == m);
                        }
                    }
                }
            }
        } else {
            proof {
                assert forall|m: u32| r@.contains(m) <==> exists|j: int| 0 <= j < i + 1 && #[trigger] items@[j] == pack(target, m) by {
                    if exists|j: int| 0 <= j < i + 1 && #[trigger] items@[j] == pack(target, m) {
                        let j = choose|j: int| 0 <= j < i + 1 && #[trigger] items@[j] == pack(target, m);
                        if j == i {
                            crate::inbound::lemma_unpack_pack(pack(target, m));
                            crate::inbound::lemma_key_of_pack(target, m);
                        }
                    }
                }
            }
        }
        i = i + 1;
    }
    proof {
        assert forall|n: u32| r@.contains(n) <==> pair_set_contents(*links).contains(pack(target, n)) by {
            if pair_set_contents(*links).contains(pack(target, n)) {
                assert(items@.to_set().contains(pack(target, n)));
                let j = choose|j: int| 0 <= j < items@.len() && items@[j] == pack(target, n);
            }
            if r@.contains(n) {
                let j = choose|j: int| 0 <= j < items@.len() && #[trigger] items@[j] == pack(target, n);
                assert(items@.to_set().contains(items@[j]));
            }
        }
    }
    r
}

/// The ranks file read by the streaming pass: harmonic value, PageRank
/// value and host columns (until a header says otherwise).
pub struct ScanRanks {
    pub harmonic_col: usize,
    pub pagerank_col: usize,
    pub host_col: usize,
    pub header_seen: bool,
}

/// The value column `metric` reads.
pub open spec fn value_col(r: ScanRanks, metric: RankMetric) -> usize {
    match metric {
        RankMetric::Pagerank => r.pagerank_col,
        RankMetric::Harmonic => r.harmonic_col,
    }
}

pub open spec fn highest_col(r: ScanRanks) -> usize {
    let a = if r.host_col > r.pagerank_col { r.host_col } else { r.pagerank_col };
    if a > r.harmonic_col { a } else { r.harmonic_col }
}

/// What a data line gives: the host, when it is valid UTF-8 and needed,
/// with the text of its value under `metric`.
pub open spec fn spec_scan_rank_line(line: Seq<u8>, r: ScanRanks, ends: Seq<usize>, needed: Set<Seq<char>>, metric: RankMetric)
    -> Option<(Seq<char>, Seq<u8>)> {
    if ends.len() < highest_col(r) {
        None
    } else {
        match crate::text::spec_utf8(field_of(line, ends, r.host_col as int)) {
            None => None,
            Some(host) => if needed.contains(host) {
                Some((host, field_of(line, ends, value_col(r, metric) as int)))
            } else {
                None
            },
        }
    }
}

impl ScanRanks {
    /// Common Crawl's column order until a header says otherwise.
    pub fn new() -> (r: ScanRanks)
        ensures
            r.harmonic_col == 1 && r.pagerank_col == 3 && r.host_col == 4 && !r.header_seen,
    {
        ScanRanks { harmonic_col: 1, pagerank_col: 3, host_col: 4, header_seen: false }
    }

    /// One line without its line ending.
    pub fn read_line<'a>(&mut self, line: &'a [u8], needed: &AHashSet<String, RandomState>, metric: RankMetric)
        -> (r: Option<(String, &'a [u8])>)
        ensures
            line@.len() == 0 ==> r is None && *final(self) == *old(self),
            line@.len() > 0 && line@[0] == 35 ==> r is None && final(self).header_seen
                && (final(self).harmonic_col, final(self).pagerank_col, final(self).host_col) == (if !old(self).header_seen {
                    match crate::text::spec_utf8(line@) {
                        Some(text) => three_of(crate::ranks::header_names(text),
                            (old(self).harmonic_col, old(self).pagerank_col, old(self).host_col)),
                        None => (old(self).harmonic_col, old(self).pagerank_col, old(self).host_col),
                    }
                } else {
                    (old(self).harmonic_col, old(self).pagerank_col, old(self).host_col)
                }),
            line@.len() > 0 && line@[0] != 35 ==> *final(self) == *old(self) && (exists|ends: Seq<usize>| tab_positions(line@, ends)
                && match r {
                    Some((host, value)) => spec_scan_rank_line(line@, *old(self), ends, string_set_contents(*needed), metric)
                        == Some((host@, value@)),
                    None => spec_scan_rank_line(line@, *old(self), ends, string_set_contents(*needed), metric) is None,
                }),
    {
        if line.len() == 0 {
            return None;
        }
        if line[0] == 35u8 {
            if !self.header_seen {
                self.header_seen = true;
                match crate::text::utf8_text(line) {
                    Some(text) => {
                        crate::ranks::parse_ranks_header(text, &mut self.harmonic_col, &mut self.pagerank_col, &mut self.host_col);
                    },
                    None => {},
                }
            }
            return None;
        }
        let mut ends: Vec<usize> = Vec::new();
        tab_fields(line, &mut ends);
        let a = if self.host_col > self.pagerank_col { self.host_col } else { self.pagerank_col };
        let highest = if a > self.harmonic_col { a } else { self.harmonic_col };
        if ends.len() < highest {
            return None;
        }
        let host_bytes = crate::ranks::field_bytes(line, &ends, self.host_col);
        let host = match crate::text::utf8_text(host_bytes) {
            Some(h) => h,
            None => return None,
        };
        if !string_set_contains(needed, host) {
            return None;
        }
        let col = match metric {
            RankMetric::Pagerank => self.pagerank_col,
            RankMetric::Harmonic => self.harmonic_col,
        };
        Some((host.to_owned(), crate::ranks::field_bytes(line, &ends, col)))
    }
}

/// Insert `i` into `order` (indices ascending by `keys`), after every
/// index with a key not above its own.
fn insert_sorted(order: &mut Vec<usize>, keys: &Vec<Vec<char>>, i: usize)
    requires
        i < keys@.len(),
        forall|k: int| 0 <= k < old(order)@.len() ==> (#[trigger] old(order)@[k]) < keys@.len(),
        forall|a: int, b: int| 0 <= a < b < old(order)@.len() ==> text_le(keys@[#[trigger] old(order)@[a] as int]@, keys@[#[trigger] old(order)@[b] as int]@),
    ensures
        final(order)@.to_multiset() == old(order)@.to_multiset().insert(i),
        final(order)@.len() == old(order)@.len() + 1,
        forall|k: int| 0 <= k < final(order)@.len() ==> (#[trigger] final(order)@[k]) < keys@.len(),
        forall|a: int, b: int| 0 <= a < b < final(order)@.len() ==> text_le(keys@[#[trigger] final(order)@[a] as int]@, keys@[#[trigger] final(order)@[b] as int]@),
{
    let mut at = order.len();
    while at > 0 && !crate::seo::text_le_chars(&keys[order[at - 1]], &keys[i])
        invariant
            at <= order@.len(),
            i < keys@.len(),
            order@ == old(order)@,
            forall|k: int| 0 <= k < order@.len() ==> (#[trigger] order@[k]) < keys@.len(),
            forall|k: int| at <= k < order@.len() ==> !text_le(keys@[(#[trigger] order@[k]) as int]@, keys@[i as int]@),
        decreases at,
    {
        at = at - 1;
    }
    proof {
        crate::seo::lemma_text_le_facts();
    }
    let ghost before = order@;
    order.insert(at, i);
    proof {
        assert(order@ == before.insert(at as int, i));
        before.insert_ensures(at as int, i);
        assert(order@.to_multiset() =~= before.to_multiset().insert(i)) by {
            broadcast use vstd::seq_lib::group_to_multiset_ensures, vstd::multiset::group_multiset_axioms;
            assert(order@.remove(at as int) =~= before);
            assert(order@[at as int] == i);
            assert(order@.contains(i));
        }
        assert forall|a: int, b: int| 0 <= a < b < order@.len() implies
            text_le(keys@[#[trigger] order@[a] as int]@, keys@[#[trigger] order@[b] as int]@) by {
            crate::seo::lemma_text_le_facts();
            if a < at && b < at {
                assert(order@[a] == before[a] && order@[b] == before[b]);
            } else if a < at && b == at {
                if at > 0 {
                    assert(order@[a] == before[a]);
                    assert(text_le(keys@[before[at - 1] as int]@, keys@[i as int]@));
                    if a < at - 1 {
                        assert(text_le(keys@[before[a] as int]@, keys@[before[at - 1] as int]@));
                    }
                }
            } else if a < at && b > at {
                assert(order@[a] == before[a] && order@[b] == before[b - 1]);
            } else if a == at {
                assert(order@[b] == before[b - 1]);
                assert(!text_le(keys@[before[b - 1] as int]@, keys@[i as int]@));
            } else {
                assert(order@[a] == before[a - 1] && order@[b] == before[b - 1]);
            }
        }
    }
}

/// The targets the vertices file does not hold (no found name is their
/// reverse domain), as indices into `targets`, ordered by reverse domain.
pub fn missing_targets(targets: &Vec<ResolvedTarget>, found: &AHashMap<u32, String, RandomState>) -> (r: Vec<usize>)
    ensures
        forall|k: int| 0 <= k < r@.len() ==> (#[trigger] r@[k]) < targets@.len(),
        forall|i: int| 0 <= i < targets@.len() ==> (r@.contains(i as usize)
            <==> !id_map_contents(*found).values().contains(#[trigger] targets@[i].reverse@)),
        r@.no_duplicates(),
        forall|a: int, b: int| 0 <= a < b < r@.len() ==> text_le(targets@[#[trigger] r@[a] as int].reverse@, targets@[#[trigger] r@[b] as int].reverse@),
{
    let items = id_map_items(found);
    let mut keys: Vec<Vec<char>> = Vec::new();
    let mut t: usize = 0;
    while t < targets.len()
        invariant
            t <= targets@.len(),
            keys@.len() == t,
            forall|k: int| 0 <= k < t ==> (#[trigger] keys@[k])@ == targets@[k].reverse@,
        decreases targets.len() - t,
    {
        keys.push(crate::text::chars_of(targets[t].reverse.as_str()));
        t = t + 1;
    }
    let mut order: Vec<usize> = Vec::new();
    let mut i: usize = 0;
    while i < targets.len()
        invariant
            i <= targets@.len() == keys@.len(),
            forall|k: int| 0 <= k < keys@.len() ==> (#[trigger] keys@[k])@ == targets@[k].reverse@,
            forall|k: int| 0 <= k < order@.len() ==> (#[trigger] order@[k]) < i,
            forall|j: int| 0 <= j < i ==> (order@.to_multiset().count(j as usize) == (if !id_map_contents(*found).values().contains(#[trigger] targets@[j].reverse@) { 1nat } else { 0nat })),
            forall|a: int, b: int| 0 <= a < b < order@.len() ==> text_le(keys@[#[trigger] order@[a] as int]@, keys@[#[trigger] order@[b] as int]@),
            forall|k: int| 0 <= k < items@.len() ==> id_map_contents(*found).dom().contains((#[trigger] items@[k]).0)
                && id_map_contents(*found)[items@[k].0] == items@[k].1@,
            forall|id: u32| #[trigger] id_map_contents(*found).dom().contains(id) ==> exists|k: int| 0 <= k < items@.len() && (#[trigger] items@[k]).0 == id,
        decreases targets.len() - i,
    {
        let mut present = false;
        let mut j: usize = 0;
        while j < items.len()
            invariant
                j <= items@.len(),
                i < targets@.len(),
                present <==> exists|m: int| 0 <= m < j && (#[trigger] items@[m]).1@ == targets@[i as int].reverse@,
            decreases items.len() - j,
        {
            if crate::text::str_eq(items[j].1.as_str(), targets[i].reverse.as_str()) {
                present = true;
            }
            j = j + 1;
        }
        let ghost m = id_map_contents(*found);
        let ghost rev = targets@[i as int].reverse@;
        proof {
            if m.values().contains(rev) {
                let id = choose|id: u32| #[trigger] m.dom().contains(id) && m[id] == rev;
                let k = choose|k: int| 0 <= k < items@.len() && (#[trigger] items@[k]).0 == id;
                assert(items@[k].1@ == rev);
            }
            if present {
                let k = choose|k: int| 0 <= k < j && (#[trigger] items@[k]).1@ == rev;
                assert(m.dom().contains(items@[k].0) && m[items@[k].0] == rev);
            }
            assert(present <==> m.values().contains(rev));
        }
        let ghost before = order@;
        if !present {
            insert_sorted(&mut order, &keys, i);
        }
        proof {
            broadcast use vstd::seq_lib::group_to_multiset_ensures;
            assert(!before.contains(i));
            assert forall|j: int| 0 <= j <= i implies (order@.to_multiset().count(j as usize) == (if !m.values().contains(#[trigger] targets@[j].reverse@) { 1nat } else { 0nat })) by {
                if j < i {
                    assert(before.to_multiset().count(j as usize) == (if !m.values().contains(targets@[j].reverse@) { 1nat } else { 0nat }));
                }
            }
            assert forall|k: int| 0 <= k < order@.len() implies (#[trigger] order@[k]) < i + 1 by {
                if !present {
                    assert(order@.to_multiset().count(order@[k]) > 0);
                    if order@[k] != i {
                        assert(before.to_multiset().count(order@[k]) > 0);
                        assert(before.contains(order@[k]));
                    }
                }
            }
        }
        i = i + 1;
    }
    proof {
        broadcast use vstd::seq_lib::group_to_multiset_ensures;
        assert forall|x: usize| order@.to_multiset().contains(x) implies order@.to_multiset().count(x) == 1 by {
            assert(order@.contains(x));
            let k = choose|k: int| 0 <= k < order@.len() && order@[k] == x;
            assert(order@[k] < targets@.len());
            let j = x as int;
            assert(order@.to_multiset().count(j as usize) == (if !id_map_contents(*found).values().contains(targets@[j].reverse@) { 1nat } else { 0nat }));
        }
        order@.lemma_multiset_has_no_duplicates_conv();
        assert forall|j: int| 0 <= j < targets@.len() implies (order@.contains(j as usize)
            <==> !id_map_contents(*found).values().contains(#[trigger] targets@[j].reverse@)) by {
            assert(order@.to_multiset().count(j as usize) == (if !id_map_contents(*found).values().contains(targets@[j].reverse@) { 1nat } else { 0nat }));
        }
        assert forall|a: int, b: int| 0 <= a < b < order@.len() implies text_le(targets@[#[trigger] order@[a] as int].reverse@, targets@[#[trigger] order@[b] as int].reverse@) by {
            assert(text_le(keys@[order@[a] as int]@, keys@[order@[b] as int]@));
        }
    }
    order
}

/// The found targets `(id, reverse domain)`, each once, ordered by
/// reverse domain.
pub fn found_in_order(found: &AHashMap<u32, String, RandomState>) -> (r: Vec<(u32, String)>)
    ensures
        r@.len() == id_map_contents(*found).dom().len(),
        forall|k: int| 0 <= k < r@.len() ==> id_map_contents(*found).dom().contains((#[trigger] r@[k]).0)
            && id_map_contents(*found)[r@[k].0] == r@[k].1@,
        forall|id: u32| #[trigger] id_map_contents(*found).dom().contains(id) ==> exists|k: int| 0 <= k < r@.len() && (#[trigger] r@[k]).0 == id,
        forall|a: int, b: int| 0 <= a < b < r@.len() ==> (#[trigger] r@[a]).0 != (#[trigger] r@[b]).0,
        forall|a: int, b: int| 0 <= a < b < r@.len() ==> text_le((#[trigger] r@[a]).1@, (#[trigger] r@[b]).1@),
{
    let items = id_map_items(found);
    let n = items.len();
    let mut keys: Vec<Vec<char>> = Vec::new();
    let mut t: usize = 0;
    while t < n
        invariant
            t <= n == items@.len(),
            keys@.len() == t,
            forall|k: int| 0 <= k < t ==> (#[trigger] keys@[k])@ == items@[k].1@,
        decreases n - t,
    {
        keys.push(crate::text::chars_of(items[t].1.as_str()));
        t = t + 1;
    }
    let mut order: Vec<usize> = Vec::new();
    let mut i: usize = 0;
    while i < n
        invariant
            i <= n == keys@.len() == items@.len(),
            order@.len() == i,
            forall|k: int| 0 <= k < order@.len() ==> (#[trigger] order@[k]) < i,
            forall|j: usize| j < i ==> #[trigger] order@.to_multiset().count(j) == 1,
            forall|a: int, b: int| 0 <= a < b < order@.len() ==> text_le(keys@[#[trigger] order@[a] as int]@, keys@[#[trigger] order@[b] as int]@),
        decreases n - i,
    {
        let ghost before = order@;
        insert_sorted(&mut order, &keys, i);
        proof {
            broadcast use vstd::seq_lib::group_to_multiset_ensures;
            assert(!before.contains(i));
            assert forall|j: usize| j <= i implies #[trigger] order@.to_multiset().count(j) == 1 by {
                if j < i {
                    assert(before.to_multiset().count(j) == 1);
                }
            }
            assert forall|k: int| 0 <= k < order@.len() implies (#[trigger] order@[k]) < i + 1 by {
                assert(order@.to_multiset().count(order@[k]) > 0);
                if order@[k] != i {
                    assert(before.to_multiset().count(order@[k]) > 0);
                    assert(before.contains(order@[k]));
                }
            }
        }
        i = i + 1;
    }
    proof {
        broadcast use vstd::seq_lib::group_to_multiset_ensures;
        assert forall|x: usize| order@.to_multiset().contains(x) implies order@.to_multiset().count(x) == 1 by {
            assert(order@.contains(x));
            let k = choose|k: int| 0 <= k < order@.len() && order@[k] == x;
            assert(order@[k] < n);
        }
        order@.lemma_multiset_has_no_duplicates_conv();
    }
    let mut r: Vec<(u32, String)> = Vec::new();
    let mut k: usize = 0;
    while k < n
        invariant
            k <= n == order@.len() == items@.len() == keys@.len(),
            r@.len() == k,
            forall|q: int| 0 <= q < n ==> (#[trigger] order@[q]) < n,
            forall|q: int| 0 <= q < k ==> (#[trigger] r@[q]).0 == items@[order@[q] as int].0 && r@[q].1@ == items@[order@[q] as int].1@,
        decreases n - k,
    {
        let at = order[k];
        let name = items[at].1.clone();
        r.push((items[at].0, name));
        k = k + 1;
    }
    proof {
        broadcast use vstd::seq_lib::group_to_multiset_ensures;
        let m = id_map_contents(*found);
        assert forall|id: u32| #[trigger] m.dom().contains(id) implies exists|q: int| 0 <= q < r@.len() && (#[trigger] r@[q]).0 == id by {
            let j = choose|j: int| 0 <= j < items@.len() && (#[trigger] items@[j]).0 == id;
            assert(order@.to_multiset().count(j as usize) == 1);
            assert(order@.contains(j as usize));
            let q = choose|q: int| 0 <= q < order@.len() && order@[q] == j as usize;
            assert(r@[q].0 == id);
        }
        assert forall|a: int, b: int| 0 <= a < b < r@.len() implies (#[trigger] r@[a]).0 != (#[trigger] r@[b]).0 by {
            assert(order@[a] != order@[b]);
            let x = order@[a] as int;
            let y = order@[b] as int;
            if x < y {
                assert(items@[x].0 != items@[y].0);
            } else {
                assert(items@[y].0 != items@[x].0);
            }
        }
        assert forall|a: int, b: int| 0 <= a < b < r@.len() implies text_le((#[trigger] r@[a]).1@, (#[trigger] r@[b]).1@) by {
            assert(text_le(keys@[order@[a] as int]@, keys@[order@[b] as int]@));
        }
    }
    r
}

/// The links of one direction that have a name, in the order of `ids`:
/// `(domain, reverse domain)` for each id that `names` holds.
pub open spec fn spec_named_links(ids: Seq<u32>, names: Map<u32, Seq<char>>) -> Seq<(Seq<char>, Seq<char>)>
    decreases ids.len(),
{
    if ids.len() == 0 {
        Seq::empty()
    } else {
        let before = spec_named_links(ids.drop_last(), names);
        let id = ids.last();
        if names.dom().contains(id) {
            before.push((crate::reverse::spec_from_reverse(names[id]), names[id]))
        } else {
            before
        }
    }
}

/// Name the neighbours: ids without a name are left out.
pub fn named_links(ids: &Vec<u32>, names: &AHashMap<u32, String, RandomState>) -> (r: Vec<(String, String)>)
    ensures
        r@.len() == spec_named_links(ids@, id_map_contents(*names)).len(),
        forall|k: int| 0 <= k < r@.len() ==> ((#[trigger] r@[k]).0@, r@[k].1@) == spec_named_links(ids@, id_map_contents(*names))[k],
{
    let mut r: Vec<(String, String)> = Vec::new();
    let mut i: usize = 0;
    let ghost m = id_map_contents(*names);
    while i < ids.len()
        invariant
            i <= ids@.len(),
            m == id_map_contents(*names),
            r@.len() == spec_named_links(ids@.subrange(0, i as int), m).len(),
            forall|k: int| 0 <= k < r@.len() ==> ((#[trigger] r@[k]).0@, r@[k].1@) == spec_named_links(ids@.subrange(0, i as int), m)[k],
        decreases ids.len() - i,
    {
        proof {
            assert(ids@.subrange(0, i + 1).drop_last() =~= ids@.subrange(0, i as int));
        }
        match crate::seen::id_map_get(names, ids[i]) {
            Some(rev) => {
                let domain = crate::reverse::from_reverse(rev.as_str());
                r.push((domain, rev));
            },
            None => {},
        }
        i = i + 1;
    }
    assert(ids@.subrange(0, ids@.len() as int) =~= ids@);
    r
}


// ---------------------------------------------------------------------------
// The run: which file to read next, and what each pass leaves behind
// ---------------------------------------------------------------------------

/// The pass a streaming run is in.
#[derive(Debug, Clone, Copy, PartialEq, Eq, Structural)]
pub enum RunPass {
    /// Finding the targets in vertices.
    Targets,
    /// Collecting their links from edges.
    Edges,
    /// Naming the neighbours from vertices.
    Names,
    /// Reading the ranks.
    Ranks,
    Done,
}

/// What the reader hands the run: a chunk of whole lines of the pass's file,
/// the end of that file, or (in the ranks pass) how many ranks it has found.
pub enum RunEvent<'a> {
    Chunk(&'a [u8]),
    End,
    RanksFound(u64),
}

/// What the reader does next.
#[derive(Debug, Clone, Copy, PartialEq, Eq, Structural)]
pub enum RunAction {
    /// Hand over the next chunk of the same file.
    ReadMore,
    /// Start on the file of the new pass.
    NextPass,
    /// Stop reading: the results can be written.
    Finish,
}

/// Everything a streaming run has learnt so far.
pub struct RunState {
    pub pass: RunPass,
    /// Reverse domains of the targets.
    pub wanted: AHashSet<String, RandomState>,
    /// Targets found in vertices: `id -> reverse domain`.
    pub found: AHashMap<u32, String, RandomState>,
    /// The found targets ordered by reverse domain.
    pub ordered: Vec<(u32, String)>,
    /// Ids of the found targets.
    pub targets: AHashSet<u32, RandomState>,
    /// Links into a target, `target << 32 | source`.
    pub inbound: AHashSet<u64, RandomState>,
    /// Links out of a target, `target << 32 | destination`.
    pub outbound: AHashSet<u64, RandomState>,
    /// For each ordered target, its sources and its destinations.
    pub lists: Vec<(Vec<u32>, Vec<u32>)>,
    /// Every neighbour that needs a name.
    pub needed: AHashSet<u32, RandomState>,
    /// Neighbours named so far: `id -> reverse domain`.
    pub names: AHashMap<u32, String, RandomState>,
    /// Reverse domains whose rank is wanted.
    pub needed_revs: AHashSet<String, RandomState>,
}

/// The neighbours of `t` among packed links.
pub open spec fn nbrs(links: Set<u64>, t: u32) -> Set<u32> {
    Set::new(|n: u32| links.contains(pack(t, n)))
}

/// The found targets, each once, ordered by reverse domain.
pub open spec fn ordered_ok(found: Map<u32, Seq<char>>, ordered: Seq<(u32, Seq<char>)>) -> bool {
    &&& ordered.len() == found.dom().len()
    &&& forall|k: int| 0 <= k < ordered.len() ==> found.dom().contains((#[trigger] ordered[k]).0) && found[ordered[k].0] == ordered[k].1
    &&& forall|id: u32| #[trigger] found.dom().contains(id) ==> exists|k: int| 0 <= k < ordered.len() && (#[trigger] ordered[k]).0 == id
    &&& forall|a: int, b: int| 0 <= a < b < ordered.len() ==> (#[trigger] ordered[a]).0 != (#[trigger] ordered[b]).0
    &&& forall|a: int, b: int| 0 <= a < b < ordered.len() ==> text_le((#[trigger] ordered[a]).1, (#[trigger] ordered[b]).1)
}

pub open spec fn ids_of(ordered: Seq<(u32, Seq<char>)>) -> Set<u32> {
    ordered.map_values(|p: (u32, Seq<char>)| p.0).to_set()
}

pub open spec fn revs_of(ordered: Seq<(u32, Seq<char>)>) -> Set<Seq<char>> {
    ordered.map_values(|p: (u32, Seq<char>)| p.1).to_set()
}

/// Every neighbour the lists name.
pub open spec fn union_lists(lists: Seq<(Set<u32>, Set<u32>)>) -> Set<u32>
    decreases lists.len(),
{
    if lists.len() == 0 { Set::empty() } else { union_lists(lists.drop_last()) + lists.last().0 + lists.last().1 }
}

/// Each target's sources and destinations among the links.
pub open spec fn lists_of(ordered: Seq<(u32, Seq<char>)>, inbound: Set<u64>, outbound: Set<u64>) -> Seq<(Set<u32>, Set<u32>)> {
    ordered.map_values(|p: (u32, Seq<char>)| (nbrs(inbound, p.0), nbrs(outbound, p.0)))
}

impl RunState {
    pub open spec fn ordered_view(&self) -> Seq<(u32, Seq<char>)> {
        self.ordered@.map_values(|p: (u32, String)| (p.0, p.1@))
    }

    pub open spec fn lists_view(&self) -> Seq<(Set<u32>, Set<u32>)> {
        self.lists@.map_values(|p: (Vec<u32>, Vec<u32>)| (p.0@.to_set(), p.1@.to_set()))
    }

    /// The fields a pass leaves alone, equal in `self` and `other`.
    pub open spec fn same_targets(&self, other: &RunState) -> bool {
        &&& string_set_contents(self.wanted) == string_set_contents(other.wanted)
        &&& id_map_contents(self.found) == id_map_contents(other.found)
    }

    pub open spec fn same_links(&self, other: &RunState) -> bool {
        &&& self.ordered_view() == other.ordered_view()
        &&& id_set_contents(self.targets) == id_set_contents(other.targets)
        &&& pair_set_contents(self.inbound) == pair_set_contents(other.inbound)
        &&& pair_set_contents(self.outbound) == pair_set_contents(other.outbound)
    }

    /// Everything but the found targets is as in `other`.
    pub open spec fn same_learnt_but_found(&self, other: &RunState) -> bool {
        &&& string_set_contents(self.wanted) == string_set_contents(other.wanted)
        &&& self.same_links(other)
        &&& self.same_names(other)
        &&& string_set_contents(self.needed_revs) == string_set_contents(other.needed_revs)
    }

    pub open spec fn same_names(&self, other: &RunState) -> bool {
        &&& self.lists@ == other.lists@
        &&& id_set_contents(self.needed) == id_set_contents(other.needed)
        &&& id_map_contents(self.names) == id_map_contents(other.names)
    }

    /// A run for `targets`: looking for their reverse domains, nothing
    /// learnt yet.
    pub fn new(targets: &Vec<ResolvedTarget>) -> (r: RunState)
        ensures
            r.pass == RunPass::Targets,
            string_set_contents(r.wanted) == targets@.map_values(|t: ResolvedTarget| t.reverse@).to_set(),
            id_map_contents(r.found).dom() == Set::<u32>::empty(),
            r.ordered@.len() == 0,
            id_set_contents(r.targets) == Set::<u32>::empty(),
            pair_set_contents(r.inbound) == Set::<u64>::empty(),
            pair_set_contents(r.outbound) == Set::<u64>::empty(),
            r.lists@.len() == 0,
            id_set_contents(r.needed) == Set::<u32>::empty(),
            id_map_contents(r.names).dom() == Set::<u32>::empty(),
            string_set_contents(r.needed_revs) == Set::<Seq<char>>::empty(),
    {
        let mut wanted = string_set_new();
        let ghost revs = targets@.map_values(|t: ResolvedTarget| t.reverse@);
        let mut i: usize = 0;
        while i < targets.len()
            invariant
                i <= targets@.len(),
                revs == targets@.map_values(|t: ResolvedTarget| t.reverse@),
                string_set_contents(wanted) == revs.subrange(0, i as int).to_set(),
            decreases targets.len() - i,
        {
            string_set_insert(&mut wanted, targets[i].reverse.clone());
            proof {
                assert(revs.subrange(0, i + 1) =~= revs.subrange(0, i as int).push(revs[i as int]));
                revs.subrange(0, i as int).lemma_push_to_set_commute(revs[i as int]);
            }
            i = i + 1;
        }
        assert(revs.subrange(0, i as int) =~= revs);
        RunState {
            pass: RunPass::Targets,
            wanted,
            found: id_map_new(),
            ordered: Vec::new(),
            targets: id_set_new(),
            inbound: pair_set_new(),
            outbound: pair_set_new(),
            lists: Vec::new(),
            needed: id_set_new(),
            names: id_map_new(),
            needed_revs: string_set_new(),
        }
    }
}

/// Add every id of `v` to `set`.
fn insert_all(set: &mut AHashSet<u32, RandomState>, v: &Vec<u32>)
    ensures
        id_set_contents(*final(set)) == id_set_contents(*old(set)) + v@.to_set(),
{
    let ghost start = id_set_contents(*set);
    let mut i: usize = 0;
    while i < v.len()
        invariant
            i <= v@.len(),
            id_set_contents(*set) == start + v@.subrange(0, i as int).to_set(),
        decreases v.len() - i,
    {
        id_set_insert(set, v[i]);
        proof {
            assert(v@.subrange(0, i + 1) =~= v@.subrange(0, i as int).push(v@[i as int]));
            v@.subrange(0, i as int).lemma_push_to_set_commute(v@[i as int]);
            assert(id_set_contents(*set) =~= start + v@.subrange(0, i + 1).to_set());
        }
        i = i + 1;
    }
    assert(v@.subrange(0, i as int) =~= v@);
}

impl RunState {
    /// The targets pass is over: order what was found; with nothing found the
    /// run is done, else the edges pass starts on the found ids.
    fn begin_edges(&mut self) -> (a: RunAction)
        ensures
            final(self).same_targets(old(self)),
            final(self).same_names(old(self)),
            string_set_contents(final(self).needed_revs) == string_set_contents(old(self).needed_revs),
            pair_set_contents(final(self).inbound) == pair_set_contents(old(self).inbound),
            pair_set_contents(final(self).outbound) == pair_set_contents(old(self).outbound),
            ordered_ok(id_map_contents(final(self).found), final(self).ordered_view()),
            final(self).ordered@.len() == 0 ==> final(self).pass == RunPass::Done && a == RunAction::Finish
                && id_set_contents(final(self).targets) == id_set_contents(old(self).targets),
            final(self).ordered@.len() > 0 ==> final(self).pass == RunPass::Edges && a == RunAction::NextPass
                && id_set_contents(final(self).targets) == ids_of(final(self).ordered_view()),
    {
        self.ordered = found_in_order(&self.found);
        let ghost ov = self.ordered_view();
        proof {
            let f = id_map_contents(self.found);
            let o = self.ordered@;
            assert forall|k: int| 0 <= k < ov.len() implies #[trigger] ov[k] == (o[k].0, o[k].1@) by {}
            assert forall|k: int| 0 <= k < ov.len() implies f.dom().contains((#[trigger] ov[k]).0) && f[ov[k].0] == ov[k].1 by {
                assert(ov[k] == (o[k].0, o[k].1@));
            }
            assert forall|id: u32| #[trigger] f.dom().contains(id) implies exists|k: int| 0 <= k < ov.len() && (#[trigger] ov[k]).0 == id by {
                let k = choose|k: int| 0 <= k < o.len() && (#[trigger] o[k]).0 == id;
                assert(ov[k] == (o[k].0, o[k].1@));
            }
            assert forall|a: int, b: int| 0 <= a < b < ov.len() implies (#[trigger] ov[a]).0 != (#[trigger] ov[b]).0 by {
                assert(ov[a] == (o[a].0, o[a].1@));
                assert(ov[b] == (o[b].0, o[b].1@));
                assert(o[a].0 != o[b].0);
            }
            assert forall|a: int, b: int| 0 <= a < b < ov.len() implies text_le((#[trigger] ov[a]).1, (#[trigger] ov[b]).1) by {
                assert(ov[a] == (o[a].0, o[a].1@));
                assert(ov[b] == (o[b].0, o[b].1@));
                assert(text_le(o[a].1@, o[b].1@));
            }
        }
        if self.ordered.len() == 0 {
            self.pass = RunPass::Done;
            return RunAction::Finish;
        }
        let mut targets = id_set_new();
        let mut i: usize = 0;
        assert(ov.subrange(0, 0).map_values(|p: (u32, Seq<char>)| p.0).to_set() =~= Set::<u32>::empty());
        while i < self.ordered.len()
            invariant
                i <= self.ordered@.len(),
                ov == self.ordered_view(),
                id_set_contents(targets) == ov.subrange(0, i as int).map_values(|p: (u32, Seq<char>)| p.0).to_set(),
            decreases self.ordered.len() - i,
        {
            let id = self.ordered[i].0;
            id_set_insert(&mut targets, id);
            proof {
                let ids = ov.subrange(0, i as int).map_values(|p: (u32, Seq<char>)| p.0);
                assert(ov.subrange(0, i + 1).map_values(|p: (u32, Seq<char>)| p.0) =~= ids.push(id));
                ids.lemma_push_to_set_commute(id);
            }
            i = i + 1;
        }
        assert(ov.subrange(0, i as int) =~= ov);
        self.targets = targets;
        self.pass = RunPass::Edges;
        RunAction::NextPass
    }
}


impl RunState {
    /// The ranks pass starts: the reverse domains of the named neighbours and
    /// of the targets are the ones whose rank is wanted.
    pub open spec fn ranks_begun(&self, before: &RunState, a: RunAction) -> bool {
        &&& self.same_targets(before)
        &&& self.same_links(before)
        &&& self.lists@ == before.lists@
        &&& id_set_contents(self.needed) == id_set_contents(before.needed)
        &&& self.pass == RunPass::Ranks
        &&& a == RunAction::NextPass
        &&& string_set_contents(self.needed_revs) == id_map_contents(self.names).values() + revs_of(self.ordered_view())
    }

    /// The edges pass is over: each target's sources and destinations, each
    /// listed once, and every neighbour to name; with none to name, the ranks
    /// pass starts.
    pub open spec fn names_begun(&self, before: &RunState, a: RunAction) -> bool {
        &&& self.same_targets(before)
        &&& self.same_links(before)
        &&& id_map_contents(self.names) == id_map_contents(before.names)
        &&& self.lists_view() == lists_of(before.ordered_view(), pair_set_contents(before.inbound), pair_set_contents(before.outbound))
        &&& forall|i: int| 0 <= i < self.lists@.len() ==> (#[trigger] self.lists@[i]).0@.no_duplicates() && self.lists@[i].1@.no_duplicates()
        &&& id_set_contents(self.needed) == union_lists(self.lists_view())
        &&& (union_lists(self.lists_view()).len() == 0 ==> self.ranks_begun(self, a))
        &&& (union_lists(self.lists_view()).len() != 0 ==> self.pass == RunPass::Names && a == RunAction::NextPass
            && string_set_contents(self.needed_revs) == string_set_contents(before.needed_revs))
    }

    /// The targets pass is over: the found targets in order; with none found
    /// the run is done, else the edges pass starts on their ids.
    pub open spec fn edges_begun(&self, before: &RunState, a: RunAction) -> bool {
        &&& string_set_contents(self.wanted) == string_set_contents(before.wanted)
        &&& self.same_names(before)
        &&& string_set_contents(self.needed_revs) == string_set_contents(before.needed_revs)
        &&& pair_set_contents(self.inbound) == pair_set_contents(before.inbound)
        &&& pair_set_contents(self.outbound) == pair_set_contents(before.outbound)
        &&& ordered_ok(id_map_contents(self.found), self.ordered_view())
        &&& (self.ordered@.len() == 0 ==> self.pass == RunPass::Done && a == RunAction::Finish
            && id_set_contents(self.targets) == id_set_contents(before.targets))
        &&& (self.ordered@.len() > 0 ==> self.pass == RunPass::Edges && a == RunAction::NextPass
            && id_set_contents(self.targets) == ids_of(self.ordered_view()))
    }

    /// Everything but the pass is as in `before`.
    pub open spec fn same_learnt(&self, before: &RunState) -> bool {
        &&& self.same_targets(before)
        &&& self.same_links(before)
        &&& self.same_names(before)
        &&& string_set_contents(self.needed_revs) == string_set_contents(before.needed_revs)
    }

    fn begin_ranks(&mut self) -> (a: RunAction)
        ensures
            final(self).ranks_begun(old(self), a),
            id_map_contents(final(self).names) == id_map_contents(old(self).names),
    {
        let mut revs = string_set_new();
        let items = id_map_items(&self.names);
        let ghost m = id_map_contents(self.names);
        let ghost iv = items@.map_values(|p: (u32, String)| p.1@);
        let mut i: usize = 0;
        assert(iv.subrange(0, 0).to_set() =~= Set::<Seq<char>>::empty());
        while i < items.len()
            invariant
                i <= items@.len(),
                iv == items@.map_values(|p: (u32, String)| p.1@),
                string_set_contents(revs) == iv.subrange(0, i as int).to_set(),
            decreases items.len() - i,
        {
            string_set_insert(&mut revs, items[i].1.clone());
            proof {
                assert(iv.subrange(0, i + 1) =~= iv.subrange(0, i as int).push(iv[i as int]));
                iv.subrange(0, i as int).lemma_push_to_set_commute(iv[i as int]);
            }
            i = i + 1;
        }
        assert(iv.subrange(0, i as int) =~= iv);
        proof {
            assert forall|v: Seq<char>| iv.to_set().contains(v) <==> m.values().contains(v) by {
                if iv.to_set().contains(v) {
                    let k = choose|k: int| 0 <= k < iv.len() && iv[k] == v;
                    assert(m.dom().contains(items@[k].0) && m[items@[k].0] == items@[k].1@);
                }
                if m.values().contains(v) {
                    let id = choose|id: u32| m.dom().contains(id) && m[id] == v;
                    let k = choose|k: int| 0 <= k < items@.len() && (#[trigger] items@[k]).0 == id;
                    assert(iv[k] == v);
                }
            }
            assert(iv.to_set() =~= m.values());
        }
        let ghost ov = self.ordered_view();
        let ghost rv = ov.map_values(|p: (u32, Seq<char>)| p.1);
        let ghost start = string_set_contents(revs);
        let mut j: usize = 0;
        assert(start + rv.subrange(0, 0).to_set() =~= start);
        while j < self.ordered.len()
            invariant
                j <= self.ordered@.len(),
                ov == self.ordered_view(),
                rv == ov.map_values(|p: (u32, Seq<char>)| p.1),
                string_set_contents(revs) == start + rv.subrange(0, j as int).to_set(),
            decreases self.ordered.len() - j,
        {
            string_set_insert(&mut revs, self.ordered[j].1.clone());
            proof {
                assert(rv[j as int] == self.ordered@[j as int].1@);
                assert(rv.subrange(0, j + 1) =~= rv.subrange(0, j as int).push(rv[j as int]));
                rv.subrange(0, j as int).lemma_push_to_set_commute(rv[j as int]);
                assert(string_set_contents(revs) =~= start + rv.subrange(0, j + 1).to_set());
            }
            j = j + 1;
        }
        assert(rv.subrange(0, j as int) =~= rv);
        self.needed_revs = revs;
        self.pass = RunPass::Ranks;
        RunAction::NextPass
    }

    #[verifier::rlimit(40)]
    fn begin_names(&mut self) -> (a: RunAction)
        ensures
            final(self).names_begun(old(self), a),
    {
        let mut lists: Vec<(Vec<u32>, Vec<u32>)> = Vec::new();
        let mut needed = id_set_new();
        let ghost ov = self.ordered_view();
        let ghost want = lists_of(ov, pair_set_contents(self.inbound), pair_set_contents(self.outbound));
        let mut i: usize = 0;
        assert(union_lists(Seq::<(Set<u32>, Set<u32>)>::empty()) =~= Set::<u32>::empty());
        while i < self.ordered.len()
            invariant
                i <= self.ordered@.len(),
                ov == self.ordered_view(),
                want == lists_of(ov, pair_set_contents(self.inbound), pair_set_contents(self.outbound)),
                lists@.len() == i,
                lists@.map_values(|p: (Vec<u32>, Vec<u32>)| (p.0@.to_set(), p.1@.to_set())) == want.subrange(0, i as int),
                id_set_contents(needed) == union_lists(want.subrange(0, i as int)),
                forall|k: int| 0 <= k < lists@.len() ==> (#[trigger] lists@[k]).0@.no_duplicates() && lists@[k].1@.no_duplicates(),
            decreases self.ordered.len() - i,
        {
            let id = self.ordered[i].0;
            let sources = neighbours_of(&self.inbound, id);
            let destinations = neighbours_of(&self.outbound, id);
            insert_all(&mut needed, &sources);
            insert_all(&mut needed, &destinations);
            let ghost before = lists@;
            lists.push((sources, destinations));
            proof {
                assert(ov[i as int].0 == id);
                assert(sources@.to_set() =~= nbrs(pair_set_contents(self.inbound), id));
                assert(destinations@.to_set() =~= nbrs(pair_set_contents(self.outbound), id));
                assert(want[i as int] == (nbrs(pair_set_contents(self.inbound), id), nbrs(pair_set_contents(self.outbound), id)));
                assert(want.subrange(0, i + 1).drop_last() =~= want.subrange(0, i as int));
                assert(lists@.map_values(|p: (Vec<u32>, Vec<u32>)| (p.0@.to_set(), p.1@.to_set()))
                    =~= want.subrange(0, i + 1));
            }
            i = i + 1;
        }
        assert(want.subrange(0, i as int) =~= want);
        self.lists = lists;
        self.needed = needed;
        if id_set_len(&self.needed) == 0 {
            self.begin_ranks()
        } else {
            self.pass = RunPass::Names;
            RunAction::NextPass
        }
    }

    /// One event of the run: the chunk is taken into the pass's findings,
    /// and the pass ends when its file ends or nothing more is to be found
    /// (every target found, every neighbour named, every rank read).
    #[verifier::rlimit(40)]
    pub fn step(&mut self, event: RunEvent) -> (a: RunAction)
        ensures
            match (old(self).pass, event) {
                (RunPass::Targets, RunEvent::Chunk(c)) => {
                    let f = take_named(vertex_texts(c@), string_set_contents(old(self).wanted), id_map_contents(old(self).found));
                    &&& id_map_contents(final(self).found) == f
                    &&& (f.dom().len() == string_set_contents(old(self).wanted).len() ==> final(self).edges_begun(old(self), a))
                    &&& (f.dom().len() != string_set_contents(old(self).wanted).len() ==> a == RunAction::ReadMore
                        && final(self).pass == RunPass::Targets && final(self).same_learnt_but_found(old(self)))
                },
                (RunPass::Targets, RunEvent::End) =>
                    id_map_contents(final(self).found) == id_map_contents(old(self).found) && final(self).edges_begun(old(self), a),
                (RunPass::Edges, RunEvent::Chunk(c)) => {
                    let l = take_links(edge_pairs(split_lines(c@)), id_set_contents(old(self).targets),
                        pair_set_contents(old(self).inbound), pair_set_contents(old(self).outbound));
                    &&& (pair_set_contents(final(self).inbound), pair_set_contents(final(self).outbound)) == l
                    &&& a == RunAction::ReadMore
                    &&& final(self).pass == RunPass::Edges
                    &&& final(self).same_targets(old(self))
                    &&& final(self).ordered_view() == old(self).ordered_view()
                    &&& id_set_contents(final(self).targets) == id_set_contents(old(self).targets)
                    &&& final(self).same_names(old(self))
                    &&& string_set_contents(final(self).needed_revs) == string_set_contents(old(self).needed_revs)
                },
                (RunPass::Edges, RunEvent::End) => final(self).names_begun(old(self), a),
                (RunPass::Names, RunEvent::Chunk(c)) => {
                    let m = take_ids(vertex_texts(c@), id_set_contents(old(self).needed), id_map_contents(old(self).names));
                    &&& id_map_contents(final(self).names) == m
                    &&& (m.dom().len() == id_set_contents(old(self).needed).len() ==> final(self).ranks_begun(old(self), a))
                    &&& (m.dom().len() != id_set_contents(old(self).needed).len() ==> a == RunAction::ReadMore
                        && final(self).pass == RunPass::Names && final(self).same_targets(old(self))
                        && final(self).same_links(old(self)) && final(self).lists@ == old(self).lists@
                        && id_set_contents(final(self).needed) == id_set_contents(old(self).needed)
                        && string_set_contents(final(self).needed_revs) == string_set_contents(old(self).needed_revs))
                },
                (RunPass::Names, RunEvent::End) =>
                    id_map_contents(final(self).names) == id_map_contents(old(self).names) && final(self).ranks_begun(old(self), a),
                (RunPass::Ranks, RunEvent::RanksFound(n)) => final(self).same_learnt(old(self))
                    && if n == string_set_contents(old(self).needed_revs).len() {
                        final(self).pass == RunPass::Done && a == RunAction::Finish
                    } else {
                        final(self).pass == RunPass::Ranks && a == RunAction::ReadMore
                    },
                (RunPass::Ranks, RunEvent::End) => final(self).same_learnt(old(self)) && final(self).pass == RunPass::Done
                    && a == RunAction::Finish,
                (RunPass::Done, _) => final(self).same_learnt(old(self)) && final(self).pass == RunPass::Done
                    && a == RunAction::Finish,
                _ => final(self).same_learnt(old(self)) && final(self).pass == old(self).pass && a == RunAction::ReadMore,
            },
    {
        match (self.pass, event) {
            (RunPass::Targets, RunEvent::Chunk(c)) => {
                collect_targets(c, &self.wanted, &mut self.found);
                if id_map_len(&self.found) == string_set_len(&self.wanted) {
                    self.begin_edges()
                } else {
                    RunAction::ReadMore
                }
            },
            (RunPass::Targets, RunEvent::End) => self.begin_edges(),
            (RunPass::Edges, RunEvent::Chunk(c)) => {
                collect_edges(c, &self.targets, &mut self.inbound, &mut self.outbound);
                RunAction::ReadMore
            },
            (RunPass::Edges, RunEvent::End) => self.begin_names(),
            (RunPass::Names, RunEvent::Chunk(c)) => {
                collect_names(c, &self.needed, &mut self.names);
                if id_map_len(&self.names) == id_set_len(&self.needed) {
                    self.begin_ranks()
                } else {
                    RunAction::ReadMore
                }
            },
            (RunPass::Names, RunEvent::End) => self.begin_ranks(),
            (RunPass::Ranks, RunEvent::RanksFound(n)) => {
                let len = string_set_len(&self.needed_revs);
                if n == len as u64 {
                    self.pass = RunPass::Done;
                    RunAction::Finish
                } else {
                    RunAction::ReadMore
                }
            },
            (RunPass::Ranks, RunEvent::End) => {
                self.pass = RunPass::Done;
                RunAction::Finish
            },
            (RunPass::Done, _) => RunAction::Finish,
            _ => RunAction::ReadMore,
        }
    }
}


/// The links gathered from chunks of edges, the first chunk first.
pub open spec fn fold_links(chunks: Seq<Seq<u8>>, targets: Set<u32>, inbound: Set<u64>, outbound: Set<u64>) -> (Set<u64>, Set<u64>)
    decreases chunks.len(),
{
    if chunks.len() == 0 {
        (inbound, outbound)
    } else {
        let l = take_links(edge_pairs(split_lines(chunks[0])), targets, inbound, outbound);
        fold_links(chunks.drop_first(), targets, l.0, l.1)
    }
}

proof fn lemma_take_links_add(a: Seq<(u32, u32)>, b: Seq<(u32, u32)>, targets: Set<u32>, inbound: Set<u64>, outbound: Set<u64>)
    ensures
        take_links(a + b, targets, inbound, outbound) == ({
            let l = take_links(a, targets, inbound, outbound);
            take_links(b, targets, l.0, l.1)
        }),
    decreases b.len(),
{
    if b.len() == 0 {
        assert(a + b =~= a);
    } else {
        lemma_take_links_add(a, b.drop_last(), targets, inbound, outbound);
        assert((a + b).drop_last() =~= a + b.drop_last());
        assert((a + b).last() == b.last());
    }
}

/// Chunks of whole lines gather the links of the text they make up.
proof fn lemma_fold_links(chunks: Seq<Seq<u8>>, targets: Set<u32>, inbound: Set<u64>, outbound: Set<u64>)
    requires
        forall|k: int| 0 <= k < chunks.len() - 1 ==> (#[trigger] chunks[k]).len() > 0 && chunks[k].last() == 10,
    ensures
        fold_links(chunks, targets, inbound, outbound)
            == take_links(edge_pairs(split_lines(chunks.flatten())), targets, inbound, outbound),
    decreases chunks.len(),
{
    if chunks.len() == 0 {
        crate::lines::lemma_split_lines_empty();
        assert(edge_pairs(Seq::<Seq<u8>>::empty()) =~= Seq::<(u32, u32)>::empty());
    } else {
        let rest = chunks.drop_first();
        assert forall|k: int| 0 <= k < rest.len() - 1 implies (#[trigger] rest[k]).len() > 0 && rest[k].last() == 10 by {
            assert(rest[k] == chunks[k + 1]);
        }
        let l = take_links(edge_pairs(split_lines(chunks[0])), targets, inbound, outbound);
        lemma_fold_links(rest, targets, l.0, l.1);
        let c0 = chunks[0];
        let rf = rest.flatten();
        assert(chunks.flatten() == c0 + rf);
        if rest.len() == 0 {
            assert(rf =~= Seq::<u8>::empty());
            assert(c0 + rf =~= c0);
            crate::lines::lemma_split_lines_empty();
            assert(edge_pairs(Seq::<Seq<u8>>::empty()) =~= Seq::<(u32, u32)>::empty());
        } else {
            crate::lines::lemma_split_lines_concat(c0, rf);
            crate::inbound::lemma_edge_pairs_add(split_lines(c0), split_lines(rf));
            lemma_take_links_add(edge_pairs(split_lines(c0)), edge_pairs(split_lines(rf)), targets, inbound, outbound);
        }
    }
}

/// Which links the gathering holds: those it started with, and for a target
/// each edge into it and out of it that is no self link.
proof fn lemma_take_links_members(es: Seq<(u32, u32)>, targets: Set<u32>, inbound: Set<u64>, outbound: Set<u64>, t: u32, n: u32)
    ensures
        take_links(es, targets, inbound, outbound).0.contains(pack(t, n))
            <==> inbound.contains(pack(t, n)) || (targets.contains(t) && n != t && es.contains((n, t))),
        take_links(es, targets, inbound, outbound).1.contains(pack(t, n))
            <==> outbound.contains(pack(t, n)) || (targets.contains(t) && n != t && es.contains((t, n))),
    decreases es.len(),
{
    if es.len() > 0 {
        let d = es.drop_last();
        lemma_take_links_members(d, targets, inbound, outbound, t, n);
        let (from, to) = es.last();
        crate::inbound::lemma_pack_injective(to, from, t, n);
        crate::inbound::lemma_pack_injective(from, to, t, n);
        assert forall|e: (u32, u32)| es.contains(e) <==> d.contains(e) || e == es.last() by {
            if es.contains(e) {
                let k = choose|k: int| 0 <= k < es.len() && es[k] == e;
                if k < d.len() {
                    assert(d[k] == e);
                }
            }
            if d.contains(e) {
                let k = choose|k: int| 0 <= k < d.len() && d[k] == e;
                assert(es[k] == e);
            }
            if e == es.last() {
                assert(es[es.len() - 1] == e);
            }
        }
    }
}

/// What the run answers: over chunks of whole lines of the edges file, the
/// edges pass leaves each target `t` exactly the sources `n != t` of the
/// edges `n -> t` and the destinations `n != t` of the edges `t -> n`.
pub proof fn lemma_run_answers(chunks: Seq<Seq<u8>>, targets: Set<u32>, t: u32, n: u32)
    requires
        forall|k: int| 0 <= k < chunks.len() - 1 ==> (#[trigger] chunks[k]).len() > 0 && chunks[k].last() == 10,
        targets.contains(t),
    ensures
        nbrs(fold_links(chunks, targets, Set::empty(), Set::empty()).0, t).contains(n)
            <==> n != t && edge_pairs(split_lines(chunks.flatten())).contains((n, t)),
        nbrs(fold_links(chunks, targets, Set::empty(), Set::empty()).1, t).contains(n)
            <==> n != t && edge_pairs(split_lines(chunks.flatten())).contains((t, n)),
{
    lemma_fold_links(chunks, targets, Set::empty(), Set::empty());
    lemma_take_links_members(edge_pairs(split_lines(chunks.flatten())), targets, Set::empty(), Set::empty(), t, n);
}

} // verus!
