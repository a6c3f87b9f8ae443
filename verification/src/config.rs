//! The configuration: where the graph files are, which rank metric to
//! report, and the target domains.

use vstd::prelude::*;
use crate::text::{chars_of, string_of, same_chars, trim_chars, lower_chars, trim, lower, is_space};
use crate::number::append_str;
use crate::path::{join, spec_join};
use crate::reverse::{normalize_domain, to_reverse, spec_normalize, spec_to_reverse};
use crate::seen::{string_set_new, string_set_insert, string_set_contents};
use crate::index::GraphSources;

verus! {

/// Which centrality metric from the ranks file to export as `rank`.
#[derive(Debug, Clone, Copy, PartialEq, Eq, Structural)]
pub enum RankMetric {
    Pagerank,
    Harmonic,
}

pub open spec fn metric_name(m: RankMetric) -> Seq<char> {
    match m {
        RankMetric::Pagerank => "pagerank"@,
        RankMetric::Harmonic => "harmonic"@,
    }
}

/// The metric a name selects, ignoring surrounding space and letter case.
pub open spec fn spec_parse_metric(value: Seq<char>) -> Option<RankMetric> {
    let v = lower(trim(value));
    if v == "pagerank"@ || v == "pr"@ {
        Some(RankMetric::Pagerank)
    } else if v == "harmonic"@ || v == "harmonicc"@ {
        Some(RankMetric::Harmonic)
    } else {
        None
    }
}

/// A metric's name reads back as that metric.
pub proof fn lemma_metric_name_parses(m: RankMetric)
    ensures
        spec_parse_metric(metric_name(m)) == Some(m),
{
    reveal_strlit("pagerank");
    reveal_strlit("harmonic");
    reveal_strlit("pr");
    reveal_strlit("harmonicc");
    let n = metric_name(m);
    assert(!is_space(n[0]) && !is_space(n.last()));
    assert(trim(n) == n);
    assert(lower(n) =~= n);
    if m == RankMetric::Harmonic {
        assert(n[0] != "pagerank"@[0]);
        assert(n != "pagerank"@);
        assert(n.len() != "pr"@.len());
    }
}

pub open spec fn unknown_metric_message(value: Seq<char>) -> Seq<char> {
    "невідома метрика «"@ + lower(trim(value)) + "» — доступні pagerank і harmonic"@
}

impl Default for RankMetric {
    fn default() -> (r: RankMetric)
        ensures
            r == RankMetric::Pagerank,
    {
        RankMetric::Pagerank
    }
}

impl RankMetric {
    pub fn as_str(self) -> (r: &'static str)
        ensures
            r@ == metric_name(self),
    {
        match self {
            RankMetric::Pagerank => "pagerank",
            RankMetric::Harmonic => "harmonic",
        }
    }

    /// `pagerank`/`pr` or `harmonic`/`harmonicc`, in any case and spacing.
    pub fn parse(value: &str) -> (r: Result<RankMetric, String>)
        ensures
            match r {
                Ok(m) => spec_parse_metric(value@) == Some(m),
                Err(msg) => spec_parse_metric(value@) == None::<RankMetric> && msg@ == unknown_metric_message(value@),
            },
    {
        let v = chars_of(value);
        let v = trim_chars(&v);
        let v = lower_chars(&v);
        if same_chars(&v, &chars_of("pagerank")) || same_chars(&v, &chars_of("pr")) {
            Ok(RankMetric::Pagerank)
        } else if same_chars(&v, &chars_of("harmonic")) || same_chars(&v, &chars_of("harmonicc")) {
            Ok(RankMetric::Harmonic)
        } else {
            let mut msg = chars_of("невідома метрика «");
            crate::number::append_chars(&mut msg, &v);
            append_str(&mut msg, "» — доступні pagerank і harmonic");
            Err(string_of(&msg))
        }
    }
}

/// Where the files are.
pub struct PathsConfig {
    pub vertices: String,
    pub edges: String,
    pub ranks: String,
    pub results_dir: String,
    /// Where the index lives; it can be gigabytes.
    pub index_dir: String,
}

/// Results go to `results/` unless configured otherwise.
pub fn default_results_dir() -> (r: String)
    ensures
        r@ == "results"@,
{
    string_of(&chars_of("results"))
}

/// The index goes to `index/` unless configured otherwise.
pub fn default_index_dir() -> (r: String)
    ensures
        r@ == "index"@,
{
    string_of(&chars_of("index"))
}

pub struct Target {
    pub domain: String,
}

pub struct Config {
    pub paths: PathsConfig,
    pub rank_metric: RankMetric,
    pub targets: Vec<Target>,
    /// Directory that contained the config file (relative paths resolve against it).
    pub config_dir: String,
}

/// Resolved target ready for processing.
pub struct ResolvedTarget {
    /// Clean hostname (`example.com`).
    pub domain: String,
    /// Reverse domain notation (`com.example`).
    pub reverse: String,
}

/// What the file system says is at a configured path.
#[derive(Debug, Clone, Copy, PartialEq, Eq, Structural)]
pub enum PathKind {
    Missing,
    Directory,
    File,
}

pub open spec fn missing_file_message(label: Seq<char>, path: Seq<char>) -> Seq<char> {
    "не знайдено файл "@ + label + ":\n  "@ + path
        + "\n\nПокладіть файли графа доменів Common Crawl поруч із config.toml або виправте шлях у [paths].\nПотрібні три файли: *-domain-vertices.txt, *-domain-edges.txt, *-domain-ranks.txt\n(завантажити: https://commoncrawl.org/web-graphs)\n\nШвидка перевірка без багатогігабайтних завантажень:\n  web-radar run -c testdata/config.toml"@
}

pub open spec fn directory_message(label: Seq<char>, path: Seq<char>) -> Seq<char> {
    "шлях "@ + label + " веде до теки, а не до файла:\n  "@ + path + "\nВкажіть .txt / .txt.gz усередині неї."@
}

/// The complaint about one configured file, if it is not a file.
pub open spec fn file_problem(label: Seq<char>, path: Seq<char>, kind: PathKind) -> Option<Seq<char>> {
    match kind {
        PathKind::Missing => Some(missing_file_message(label, path)),
        PathKind::Directory => Some(directory_message(label, path)),
        PathKind::File => None,
    }
}

pub open spec fn spec_ensure_files(c: Config, kinds: Seq<PathKind>) -> Option<Seq<char>> {
    match file_problem("vertices"@, c.paths.vertices@, kinds[0]) {
        Some(m) => Some(m),
        None => match file_problem("edges"@, c.paths.edges@, kinds[1]) {
            Some(m) => Some(m),
            None => file_problem("ranks"@, c.paths.ranks@, kinds[2]),
        },
    }
}

fn check_one(label: &str, path: &String, kind: PathKind) -> (r: Result<(), String>)
    ensures
        match r {
            Ok(()) => file_problem(label@, path@, kind) == None::<Seq<char>>,
            Err(m) => file_problem(label@, path@, kind) == Some(m@),
        },
{
    match kind {
        PathKind::File => Ok(()),
        PathKind::Missing => {
            let mut m = chars_of("не знайдено файл ");
            append_str(&mut m, label);
            append_str(&mut m, ":\n  ");
            append_str(&mut m, path.as_str());
            append_str(&mut m, "\n\nПокладіть файли графа доменів Common Crawl поруч із config.toml або виправте шлях у [paths].\nПотрібні три файли: *-domain-vertices.txt, *-domain-edges.txt, *-domain-ranks.txt\n(завантажити: https://commoncrawl.org/web-graphs)\n\nШвидка перевірка без багатогігабайтних завантажень:\n  web-radar run -c testdata/config.toml");
            Err(string_of(&m))
        },
        PathKind::Directory => {
            let mut m = chars_of("шлях ");
            append_str(&mut m, label);
            append_str(&mut m, " веде до теки, а не до файла:\n  ");
            append_str(&mut m, path.as_str());
            append_str(&mut m, "\nВкажіть .txt / .txt.gz усередині неї.");
            Err(string_of(&m))
        },
    }
}

/// The configured targets, normalized and deduplicated by reverse domain,
/// first occurrence kept; `Err` carries the first invalid input.
pub open spec fn resolve_targets(ts: Seq<Seq<char>>) -> Result<Seq<(Seq<char>, Seq<char>)>, Seq<char>>
    decreases ts.len(),
{
    if ts.len() == 0 {
        Ok(Seq::empty())
    } else {
        match resolve_targets(ts.drop_last()) {
            Err(e) => Err(e),
            Ok(out) => {
                let d = spec_normalize(ts.last());
                let r = spec_to_reverse(d);
                if r.len() == 0 {
                    Err(ts.last())
                } else if exists|k: int| 0 <= k < out.len() && (#[trigger] out[k]).1 == r {
                    Ok(out)
                } else {
                    Ok(out.push((d, r)))
                }
            },
        }
    }
}

pub open spec fn target_domains(ts: Seq<Target>) -> Seq<Seq<char>> {
    ts.map_values(|t: Target| t.domain@)
}

pub open spec fn invalid_domain_message(d: Seq<char>) -> Seq<char> {
    "некоректний домен: «"@ + d + "»"@
}

pub open spec fn no_targets_message() -> Seq<char> {
    "у конфігурації немає жодного домену — додайте [[targets]]"@
}

impl Config {
    /// Resolve every relative path against `config_dir`.
    pub fn resolve_relative_to(&mut self, config_dir: &str)
        ensures
            final(self).config_dir@ == config_dir@,
            final(self).paths.vertices@ == spec_join(config_dir@, old(self).paths.vertices@),
            final(self).paths.edges@ == spec_join(config_dir@, old(self).paths.edges@),
            final(self).paths.ranks@ == spec_join(config_dir@, old(self).paths.ranks@),
            final(self).paths.results_dir@ == spec_join(config_dir@, old(self).paths.results_dir@),
            final(self).paths.index_dir@ == spec_join(config_dir@, old(self).paths.index_dir@),
            final(self).rank_metric == old(self).rank_metric,
            final(self).targets@ == old(self).targets@,
    {
        self.config_dir = string_of(&chars_of(config_dir));
        self.paths.vertices = join(config_dir, self.paths.vertices.as_str());
        self.paths.edges = join(config_dir, self.paths.edges.as_str());
        self.paths.ranks = join(config_dir, self.paths.ranks.as_str());
        self.paths.results_dir = join(config_dir, self.paths.results_dir.as_str());
        self.paths.index_dir = join(config_dir, self.paths.index_dir.as_str());
    }

    /// The three source files, for the index and query layers.
    pub fn sources(&self) -> (r: GraphSources)
        ensures
            r.vertices@ == self.paths.vertices@,
            r.edges@ == self.paths.edges@,
            r.ranks@ == self.paths.ranks@,
    {
        GraphSources {
            vertices: self.paths.vertices.clone(),
            edges: self.paths.edges.clone(),
            ranks: self.paths.ranks.clone(),
        }
    }

    /// Fail early, and with an actionable message, when a graph file is absent:
    /// `kinds` says what is at the vertices, edges and ranks paths.
    pub fn ensure_files(&self, kinds: [PathKind; 3]) -> (r: Result<(), String>)
        ensures
            match r {
                Ok(()) => spec_ensure_files(*self, kinds@) == None::<Seq<char>>,
                Err(m) => spec_ensure_files(*self, kinds@) == Some(m@),
            },
    {
        check_one("vertices", &self.paths.vertices, kinds[0])?;
        check_one("edges", &self.paths.edges, kinds[1])?;
        check_one("ranks", &self.paths.ranks, kinds[2])?;
        Ok(())
    }

    /// Resolve config targets to reverse-domain form (deduplicated).
    pub fn resolved_targets(&self) -> (r: Result<Vec<ResolvedTarget>, String>)
        ensures
            match resolve_targets(target_domains(self.targets@)) {
                Err(bad) => r is Err && r->Err_0@ == invalid_domain_message(bad),
                Ok(out) => if out.len() == 0 {
                    r is Err && r->Err_0@ == no_targets_message()
                } else {
                    r is Ok && r->Ok_0@.len() == out.len() && forall|k: int| 0 <= k < out.len() ==>
                        (#[trigger] r->Ok_0@[k]).domain@ == out[k].0 && r->Ok_0@[k].reverse@ == out[k].1
                },
            },
    {
        let mut out: Vec<ResolvedTarget> = Vec::new();
        let mut seen = string_set_new();
        let ghost ts = target_domains(self.targets@);
        let mut i: usize = 0;
        assert(ts.subrange(0, 0) =~= Seq::<Seq<char>>::empty());
        while i < self.targets.len()
            invariant
                i <= self.targets@.len() == ts.len(),
                ts == target_domains(self.targets@),
                resolve_targets(ts.subrange(0, i as int)) is Ok,
                ({
                    let spec_out = resolve_targets(ts.subrange(0, i as int))->Ok_0;
                    &&& out@.len() == spec_out.len()
                    &&& forall|k: int| 0 <= k < out@.len() ==> (#[trigger] out@[k]).domain@ == spec_out[k].0
                        && out@[k].reverse@ == spec_out[k].1
                    &&& forall|r: Seq<char>| string_set_contents(seen).contains(r) <==>
                        exists|k: int| 0 <= k < spec_out.len() && (#[trigger] spec_out[k]).1 == r
                }),
            decreases self.targets.len() - i,
        {
            let t = &self.targets[i];
            let ghost prefix = ts.subrange(0, i + 1);
            assert(prefix.drop_last() =~= ts.subrange(0, i as int));
            assert(prefix.last() == t.domain@);
            let domain = normalize_domain(t.domain.as_str());
            let reverse = to_reverse(domain.as_str());
            if reverse.as_str().unicode_len() == 0 {
                let mut m = chars_of("некоректний домен: «");
                append_str(&mut m, t.domain.as_str());
                append_str(&mut m, "»");
                proof {
                    assert(resolve_targets(prefix) == Err::<Seq<(Seq<char>, Seq<char>)>, Seq<char>>(t.domain@));
                    lemma_resolve_err_sticks(ts, i as int + 1);
                    assert(ts.subrange(0, ts.len() as int) =~= ts);
                }
                return Err(string_of(&m));
            }
            let ghost spec_out = resolve_targets(ts.subrange(0, i as int))->Ok_0;
            let added = string_set_insert(&mut seen, reverse.clone());
            if added {
                out.push(ResolvedTarget { domain, reverse });
                proof {
                    let nx = resolve_targets(prefix)->Ok_0;
                    assert(nx == spec_out.push((spec_normalize(t.domain@), spec_to_reverse(spec_normalize(t.domain@)))));
                    assert forall|r: Seq<char>| string_set_contents(seen).contains(r) <==>
                        exists|k: int| 0 <= k < nx.len() && (#[trigger] nx[k]).1 == r by {
                        if string_set_contents(seen).contains(r) {
                            if r == reverse@ {
                                let k = spec_out.len() as int;
                                assert(nx[k].1 == r);
                            } else {
                                let k = choose|k: int| 0 <= k < spec_out.len() && (#[trigger] spec_out[k]).1 == r;
                                assert(nx[k] == spec_out[k]);
                            }
                        }
                        if exists|k: int| 0 <= k < nx.len() && (#[trigger] nx[k]).1 == r {
                            let k = choose|k: int| 0 <= k < nx.len() && (#[trigger] nx[k]).1 == r;
                            if k < spec_out.len() {
                                assert(spec_out[k] == nx[k]);
                            }
                        }
                    }
                }
            } else {
                proof {
                    let k = choose|k: int| 0 <= k < spec_out.len() && (#[trigger] spec_out[k]).1 == reverse@;
                    assert(resolve_targets(prefix)->Ok_0 == spec_out);
                    assert(string_set_contents(seen) =~= string_set_contents(seen).insert(reverse@));
                }
            }
            i = i + 1;
        }
        assert(ts.subrange(0, i as int) =~= ts);
        if out.len() == 0 {
            return Err(string_of(&chars_of("у конфігурації немає жодного домену — додайте [[targets]]")));
        }
        Ok(out)
    }
}

proof fn lemma_resolve_err_sticks(ts: Seq<Seq<char>>, i: int)
    requires
        0 <= i <= ts.len(),
        resolve_targets(ts.subrange(0, i)) is Err,
    ensures
        resolve_targets(ts) == resolve_targets(ts.subrange(0, i)),
    decreases ts.len() - i,
{
    if i < ts.len() {
        let p = ts.subrange(0, i + 1);
        assert(p.drop_last() =~= ts.subrange(0, i));
        lemma_resolve_err_sticks(ts, i + 1);
    } else {
        assert(ts.subrange(0, i) =~= ts);
    }
}

/// The only name among `names` whose lower-cased form contains `hint`, if
/// exactly one does: a directory holding one extracted graph file stands for it.
pub fn single_match(names: &Vec<String>, hint: &str) -> (r: Option<usize>)
    ensures
        match r {
            Some(i) => i < names@.len() && crate::text::contains_seq(lower(names@[i as int]@), hint@)
                && forall|j: int| 0 <= j < names@.len() && j != i ==> !crate::text::contains_seq(lower(#[trigger] names@[j]@), hint@),
            None => forall|i: int| 0 <= i < names@.len() && crate::text::contains_seq(lower(#[trigger] names@[i]@), hint@)
                ==> exists|j: int| 0 <= j < names@.len() && j != i && crate::text::contains_seq(lower(#[trigger] names@[j]@), hint@),
        },
{
    let h = chars_of(hint);
    let mut found: Option<usize> = None;
    let mut count: usize = 0;
    let mut i: usize = 0;
    while i < names.len()
        invariant
            i <= names@.len(),
            h@ == hint@,
            count <= i,
            count == 0 ==> found is None && forall|j: int| 0 <= j < i ==> !crate::text::contains_seq(lower(#[trigger] names@[j]@), hint@),
            count >= 1 ==> found is Some && found->0 < i && crate::text::contains_seq(lower(names@[found->0 as int]@), hint@),
            count == 1 ==> forall|j: int| 0 <= j < i && j != found->0 ==> !crate::text::contains_seq(lower(#[trigger] names@[j]@), hint@),
            count >= 2 ==> exists|a: int, b: int| 0 <= a < i && 0 <= b < i && a != b
                && crate::text::contains_seq(lower(#[trigger] names@[a]@), hint@) && crate::text::contains_seq(lower(#[trigger] names@[b]@), hint@),
        decreases names.len() - i,
    {
        let low = lower_chars(&chars_of(names[i].as_str()));
        if crate::text::contains_chars(&low, &h) {
            if count == 1 {
                let a = found.unwrap();
                assert(crate::text::contains_seq(lower(names@[a as int]@), hint@));
                assert(crate::text::contains_seq(lower(names@[i as int]@), hint@));
            }
            if count == 0 {
                found = Some(i);
            }
            if count < 2 {
                count = count + 1;
            }
        }
        i = i + 1;
    }
    if count == 1 {
        found
    } else {
        proof {
            if count >= 2 {
                let (a, b) = choose|a: int, b: int| 0 <= a < i && 0 <= b < i && a != b
                    && crate::text::contains_seq(lower(#[trigger] names@[a]@), hint@) && crate::text::contains_seq(lower(#[trigger] names@[b]@), hint@);
                assert forall|x: int| 0 <= x < names@.len() && crate::text::contains_seq(lower(#[trigger] names@[x]@), hint@)
                    implies exists|j: int| 0 <= j < names@.len() && j != x && crate::text::contains_seq(lower(#[trigger] names@[j]@), hint@) by {
                    if x == a {
                        assert(crate::text::contains_seq(lower(names@[b]@), hint@));
                    } else {
                        assert(crate::text::contains_seq(lower(names@[a]@), hint@));
                    }
                }
            }
        }
        None
    }
}


proof fn lemma_resolved_ok(ts: Seq<Seq<char>>)
    ensures
        resolve_targets(ts) is Ok <==> forall|k: int| 0 <= k < ts.len() ==> spec_to_reverse(spec_normalize(#[trigger] ts[k])).len() > 0,
    decreases ts.len(),
{
    if ts.len() > 0 {
        let d0 = ts.drop_last();
        lemma_resolved_ok(d0);
        if resolve_targets(d0) is Err {
            let k = choose|k: int| 0 <= k < d0.len() && !(spec_to_reverse(spec_normalize(#[trigger] d0[k])).len() > 0);
            assert(ts[k] == d0[k]);
        }
        if forall|k: int| 0 <= k < ts.len() ==> spec_to_reverse(spec_normalize(#[trigger] ts[k])).len() > 0 {
            assert forall|k: int| 0 <= k < d0.len() implies spec_to_reverse(spec_normalize(#[trigger] d0[k])).len() > 0 by {
                assert(ts[k] == d0[k]);
            }
            assert(ts[ts.len() - 1] == ts.last());
        } else {
            let k = choose|k: int| 0 <= k < ts.len() && !(spec_to_reverse(spec_normalize(#[trigger] ts[k])).len() > 0);
            if k < d0.len() {
                assert(ts[k] == d0[k]);
            }
        }
    }
}

#[verifier::spinoff_prover]
#[verifier::rlimit(40)]
proof fn lemma_resolved_entries(ts: Seq<Seq<char>>)
    ensures
        resolve_targets(ts) matches Ok(out) ==> {
            &&& forall|i: int, j: int| 0 <= i < j < out.len() ==> (#[trigger] out[i]).1 != (#[trigger] out[j]).1
            &&& forall|i: int| 0 <= i < out.len() ==> (#[trigger] out[i]).1 == spec_to_reverse(out[i].0) && out[i].1.len() > 0
                && exists|k: int| 0 <= k < ts.len() && out[i].0 == spec_normalize(#[trigger] ts[k])
        },
    decreases ts.len(),
{
    if ts.len() > 0 {
        let d0 = ts.drop_last();
        lemma_resolved_entries(d0);
        let d = spec_normalize(ts.last());
        let r = spec_to_reverse(d);
        if resolve_targets(d0) is Ok && r.len() > 0 {
            let out = resolve_targets(d0)->Ok_0;
            let res = resolve_targets(ts)->Ok_0;
            assert forall|i: int| 0 <= i < out.len() implies exists|k: int| 0 <= k < ts.len() && (#[trigger] out[i]).0 == spec_normalize(#[trigger] ts[k]) by {
                let k = choose|k: int| 0 <= k < d0.len() && out[i].0 == spec_normalize(#[trigger] d0[k]);
                assert(ts[k] == d0[k]);
            }
            if !(exists|k: int| 0 <= k < out.len() && (#[trigger] out[k]).1 == r) {
                assert(res == out.push((d, r)));
                assert(ts[ts.len() - 1] == ts.last());
                assert forall|i: int| 0 <= i < res.len() implies (#[trigger] res[i]).1 == spec_to_reverse(res[i].0) && res[i].1.len() > 0
                    && exists|k: int| 0 <= k < ts.len() && res[i].0 == spec_normalize(#[trigger] ts[k]) by {
                    if i < out.len() {
                        assert(res[i] == out[i]);
                    } else {
                        assert(res[i].0 == spec_normalize(ts[ts.len() - 1]));
                    }
                }
                assert forall|i: int, j: int| 0 <= i < j < res.len() implies (#[trigger] res[i]).1 != (#[trigger] res[j]).1 by {
                    assert(res[i] == out[i]);
                    if j < out.len() {
                        assert(res[j] == out[j]);
                    }
                }
            }
        }
    }
}

#[verifier::spinoff_prover]
#[verifier::rlimit(40)]
proof fn lemma_resolved_covers(ts: Seq<Seq<char>>)
    ensures
        resolve_targets(ts) matches Ok(out) ==> forall|k: int| 0 <= k < ts.len() ==> exists|i: int| 0 <= i < out.len()
            && (#[trigger] out[i]).1 == spec_to_reverse(spec_normalize(#[trigger] ts[k])),
    decreases ts.len(),
{
    if ts.len() > 0 {
        let d0 = ts.drop_last();
        lemma_resolved_covers(d0);
        let d = spec_normalize(ts.last());
        let r = spec_to_reverse(d);
        if resolve_targets(d0) is Ok && r.len() > 0 {
            let out = resolve_targets(d0)->Ok_0;
            let res = resolve_targets(ts)->Ok_0;
            assert forall|k: int| 0 <= k < ts.len() implies exists|i: int| 0 <= i < res.len()
                && (#[trigger] res[i]).1 == spec_to_reverse(spec_normalize(#[trigger] ts[k])) by {
                if k < d0.len() {
                    assert(ts[k] == d0[k]);
                    let i = choose|i: int| 0 <= i < out.len() && (#[trigger] out[i]).1 == spec_to_reverse(spec_normalize(#[trigger] d0[k]));
                    if !(exists|k2: int| 0 <= k2 < out.len() && (#[trigger] out[k2]).1 == r) {
                        assert(res[i] == out[i]);
                    }
                } else {
                    assert(ts[k] == ts.last());
                    if exists|k2: int| 0 <= k2 < out.len() && (#[trigger] out[k2]).1 == r {
                        let i = choose|i: int| 0 <= i < out.len() && (#[trigger] out[i]).1 == r;
                    } else {
                        assert(res[out.len() as int] == (d, r));
                    }
                }
            }
        }
    }
}

/// What resolving the targets promises: it succeeds exactly when every
/// target reduces to a non-empty reverse domain, and then every target's
/// reverse domain is listed exactly once, each entry being a normalized
/// target with its reverse domain.
pub proof fn lemma_resolved_targets(ts: Seq<Seq<char>>)
    ensures
        resolve_targets(ts) is Ok <==> forall|k: int| 0 <= k < ts.len() ==> spec_to_reverse(spec_normalize(#[trigger] ts[k])).len() > 0,
        resolve_targets(ts) matches Ok(out) ==> {
            &&& forall|i: int, j: int| 0 <= i < j < out.len() ==> (#[trigger] out[i]).1 != (#[trigger] out[j]).1
            &&& forall|i: int| 0 <= i < out.len() ==> (#[trigger] out[i]).1 == spec_to_reverse(out[i].0) && out[i].1.len() > 0
                && exists|k: int| 0 <= k < ts.len() && out[i].0 == spec_normalize(#[trigger] ts[k])
            &&& forall|k: int| 0 <= k < ts.len() ==> exists|i: int| 0 <= i < out.len()
                && (#[trigger] out[i]).1 == spec_to_reverse(spec_normalize(#[trigger] ts[k]))
        },
{
    lemma_resolved_ok(ts);
    lemma_resolved_entries(ts);
    lemma_resolved_covers(ts);
}


/// `i` is the only name among `names` whose lower-cased form holds `hint`.
pub open spec fn only_match(names: Seq<Seq<char>>, hint: Seq<char>, i: int) -> bool {
    &&& 0 <= i < names.len()
    &&& crate::text::contains_seq(lower(names[i]), hint)
    &&& forall|j: int| 0 <= j < names.len() && j != i ==> !crate::text::contains_seq(lower(#[trigger] names[j]), hint)
}

/// The one name that matches, when there is one.
pub open spec fn the_match(names: Seq<Seq<char>>, hint: Seq<char>) -> int {
    choose|i: int| #[trigger] only_match(names, hint, i)
}

/// A configured source path after a directory holding its file is looked
/// into: `listing` holds the names of the files of `path` when `path` is a
/// directory; when exactly one of them names the file, that file is used.
pub open spec fn spec_unwrapped(path: Seq<char>, listing: Option<Seq<Seq<char>>>, hint: Seq<char>) -> Seq<char> {
    match listing {
        Some(names) => unwrapped_in(path, names, hint),
        None => path,
    }
}

/// `path` with the one file among `names` that names the kind, if there is one.
pub open spec fn unwrapped_in(path: Seq<char>, names: Seq<Seq<char>>, hint: Seq<char>) -> Seq<char> {
    if has_match(names, hint) { spec_join(path, names[the_match(names, hint)]) } else { path }
}

/// Exactly one of `names` names the kind.
pub open spec fn has_match(names: Seq<Seq<char>>, hint: Seq<char>) -> bool {
    exists|i: int| #[trigger] only_match(names, hint, i)
}

pub open spec fn listing_view(listing: Option<Vec<String>>) -> Option<Seq<Seq<char>>> {
    match listing {
        Some(v) => Some(v@.map_values(|s: String| s@)),
        None => None,
    }
}

/// A configured source path as it is read in the end: joined to the
/// configuration's directory, then, when that is a directory holding one
/// file that names the kind, that file.
pub open spec fn spec_source_path(config_dir: Seq<char>, path: Seq<char>, listing: Option<Seq<Seq<char>>>, hint: Seq<char>) -> Seq<char> {
    spec_unwrapped(spec_join(config_dir, path), listing, hint)
}

fn unwrap_one(path: &String, listing: &Option<Vec<String>>, hint: &str) -> (r: String)
    ensures
        r@ == spec_unwrapped(path@, listing_view(*listing), hint@),
{
    match listing {
        None => string_of(&chars_of(path.as_str())),
        Some(names) => {
            let ghost nv = names@.map_values(|s: String| s@);
            match single_match(names, hint) {
                Some(i) => {
                    proof {
                        assert(only_match(nv, hint@, i as int)) by {
                            assert(nv[i as int] == names@[i as int]@);
                            assert forall|j: int| 0 <= j < nv.len() && j != i implies !crate::text::contains_seq(lower(#[trigger] nv[j]), hint@) by {
                                assert(nv[j] == names@[j]@);
                            }
                        }
                        let c = the_match(nv, hint@);
                        assert(c == i as int) by {
                            if c != i as int {
                                assert(!crate::text::contains_seq(lower(nv[c]), hint@));
                            }
                        }
                    }
                    proof {
                        assert(has_match(nv, hint@));
                    }
                    join(path.as_str(), names[i].as_str())
                },
                None => {
                    proof {
                        assert(!has_match(nv, hint@)) by {
                            if has_match(nv, hint@) {
                                let k = choose|k: int| only_match(nv, hint@, k);
                                assert(nv[k] == names@[k]@);
                                assert(crate::text::contains_seq(lower(names@[k]@), hint@));
                                let j = choose|j: int| 0 <= j < names@.len() && j != k && crate::text::contains_seq(lower(#[trigger] names@[j]@), hint@);
                                assert(nv[j] == names@[j]@);
                            }
                        }
                    }
                    string_of(&chars_of(path.as_str()))
                },
            }
        },
    }
}

impl Config {
    /// Look into the source paths that name directories: `vertices`, `edges`
    /// and `ranks` hold the names of the files in the directory at each path,
    /// when it is one; a directory with exactly one file naming the kind
    /// stands for that file. After `resolve_relative_to`, each source path is
    /// `spec_source_path` of the configured one.
    pub fn unwrap_source_dirs(&mut self, vertices: Option<Vec<String>>, edges: Option<Vec<String>>, ranks: Option<Vec<String>>)
        ensures
            final(self).paths.vertices@ == spec_unwrapped(old(self).paths.vertices@, listing_view(vertices), "vertices"@),
            final(self).paths.edges@ == spec_unwrapped(old(self).paths.edges@, listing_view(edges), "edges"@),
            final(self).paths.ranks@ == spec_unwrapped(old(self).paths.ranks@, listing_view(ranks), "ranks"@),
            final(self).paths.results_dir@ == old(self).paths.results_dir@,
            final(self).paths.index_dir@ == old(self).paths.index_dir@,
            final(self).config_dir@ == old(self).config_dir@,
            final(self).rank_metric == old(self).rank_metric,
            final(self).targets@ == old(self).targets@,
    {
        self.paths.vertices = unwrap_one(&self.paths.vertices, &vertices, "vertices");
        self.paths.edges = unwrap_one(&self.paths.edges, &edges, "edges");
        self.paths.ranks = unwrap_one(&self.paths.ranks, &ranks, "ranks");
    }
}

/// Resolving the paths of a configuration: after `resolve_relative_to` with
/// the configuration's directory and `unwrap_source_dirs` with the listings of
/// the joined paths, every source path is the configured one joined to that
/// directory and, when it names a directory with one matching file, that file;
/// the result and index directories are only joined.
pub proof fn lemma_paths_resolved(before: Config, joined: Config, after: Config, config_dir: Seq<char>,
    vertices: Option<Seq<Seq<char>>>, edges: Option<Seq<Seq<char>>>, ranks: Option<Seq<Seq<char>>>)
    requires
        joined.paths.vertices@ == spec_join(config_dir, before.paths.vertices@),
        joined.paths.edges@ == spec_join(config_dir, before.paths.edges@),
        joined.paths.ranks@ == spec_join(config_dir, before.paths.ranks@),
        joined.paths.results_dir@ == spec_join(config_dir, before.paths.results_dir@),
        joined.paths.index_dir@ == spec_join(config_dir, before.paths.index_dir@),
        after.paths.vertices@ == spec_unwrapped(joined.paths.vertices@, vertices, "vertices"@),
        after.paths.edges@ == spec_unwrapped(joined.paths.edges@, edges, "edges"@),
        after.paths.ranks@ == spec_unwrapped(joined.paths.ranks@, ranks, "ranks"@),
        after.paths.results_dir@ == joined.paths.results_dir@,
        after.paths.index_dir@ == joined.paths.index_dir@,
    ensures
        after.paths.vertices@ == spec_source_path(config_dir, before.paths.vertices@, vertices, "vertices"@),
        after.paths.edges@ == spec_source_path(config_dir, before.paths.edges@, edges, "edges"@),
        after.paths.ranks@ == spec_source_path(config_dir, before.paths.ranks@, ranks, "ranks"@),
        after.paths.results_dir@ == spec_join(config_dir, before.paths.results_dir@),
        after.paths.index_dir@ == spec_join(config_dir, before.paths.index_dir@),
{
}


} // verus!
