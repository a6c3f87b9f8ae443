//! The configuration as the desktop window edits it, and the `config.toml`
//! it is saved as.

use vstd::prelude::*;
use crate::config::{Config, PathsConfig, RankMetric, Target, metric_name, spec_parse_metric, unknown_metric_message};
use crate::text::{chars_of, string_of, trim, trim_chars};
use crate::number::{append_str, append_chars};
use crate::index::{Tier, tier_key};

verus! {

/// The config as the window edits it: flat, all paths as strings.
pub struct UiConfig {
    pub vertices: String,
    pub edges: String,
    pub ranks: String,
    pub results_dir: String,
    pub index_dir: String,
    pub rank_metric: String,
    pub targets: Vec<String>,
}

pub open spec fn target_domain_views(ts: Seq<Target>) -> Seq<Seq<char>> {
    ts.map_values(|t: Target| t.domain@)
}

/// The rows of `rows` that hold more than white space.
pub open spec fn non_blank(rows: Seq<Seq<char>>) -> Seq<Seq<char>>
    decreases rows.len(),
{
    if rows.len() == 0 {
        Seq::empty()
    } else {
        let before = non_blank(rows.drop_last());
        if trim(rows.last()).len() == 0 { before } else { before.push(rows.last()) }
    }
}

fn copy_text(s: &String) -> (r: String)
    ensures
        r@ == s@,
{
    string_of(&chars_of(s.as_str()))
}

impl UiConfig {
    /// The window's view of a loaded config.
    pub fn from_config(cfg: &Config) -> (u: UiConfig)
        ensures
            u.vertices@ == cfg.paths.vertices@,
            u.edges@ == cfg.paths.edges@,
            u.ranks@ == cfg.paths.ranks@,
            u.results_dir@ == cfg.paths.results_dir@,
            u.index_dir@ == cfg.paths.index_dir@,
            u.rank_metric@ == metric_name(cfg.rank_metric),
            u.targets@.map_values(|t: String| t@) == target_domain_views(cfg.targets@),
    {
        let mut targets: Vec<String> = Vec::new();
        let mut i: usize = 0;
        while i < cfg.targets.len()
            invariant
                i <= cfg.targets@.len(),
                targets@.map_values(|t: String| t@) == target_domain_views(cfg.targets@.subrange(0, i as int)),
            decreases cfg.targets.len() - i,
        {
            let ghost before = targets@;
            let t = copy_text(&cfg.targets[i].domain);
            targets.push(t);
            proof {
                let a = cfg.targets@.subrange(0, i as int);
                let b = cfg.targets@.subrange(0, i + 1);
                assert(b =~= a.push(cfg.targets@[i as int]));
                assert(target_domain_views(b) =~= target_domain_views(a).push(cfg.targets@[i as int].domain@));
                assert(targets@ == before.push(t));
                assert(targets@.map_values(|t: String| t@) =~= before.map_values(|t: String| t@).push(t@));
            }
            i = i + 1;
        }
        assert(cfg.targets@.subrange(0, i as int) =~= cfg.targets@);
        UiConfig {
            vertices: copy_text(&cfg.paths.vertices),
            edges: copy_text(&cfg.paths.edges),
            ranks: copy_text(&cfg.paths.ranks),
            results_dir: copy_text(&cfg.paths.results_dir),
            index_dir: copy_text(&cfg.paths.index_dir),
            rank_metric: string_of(&chars_of(cfg.rank_metric.as_str())),
            targets,
        }
    }

    /// The engine's config: the metric must be one it knows, blank target
    /// rows are dropped, and there is no config directory yet.
    pub fn into_engine_config(self) -> (r: Result<Config, String>)
        ensures
            match r {
                Ok(cfg) => spec_parse_metric(self.rank_metric@) == Some(cfg.rank_metric)
                    && cfg.paths.vertices@ == self.vertices@
                    && cfg.paths.edges@ == self.edges@
                    && cfg.paths.ranks@ == self.ranks@
                    && cfg.paths.results_dir@ == self.results_dir@
                    && cfg.paths.index_dir@ == self.index_dir@
                    && target_domain_views(cfg.targets@) == non_blank(self.targets@.map_values(|t: String| t@))
                    && cfg.config_dir@.len() == 0,
                Err(m) => spec_parse_metric(self.rank_metric@) is None && m@ == unknown_metric_message(self.rank_metric@),
            },
    {
        let rank_metric = RankMetric::parse(self.rank_metric.as_str())?;
        let ghost rows = self.targets@.map_values(|t: String| t@);
        let mut targets: Vec<Target> = Vec::new();
        let mut i: usize = 0;
        while i < self.targets.len()
            invariant
                i <= self.targets@.len(),
                rows == self.targets@.map_values(|t: String| t@),
                target_domain_views(targets@) == non_blank(rows.subrange(0, i as int)),
            decreases self.targets.len() - i,
        {
            let row = &self.targets[i];
            proof {
                assert(rows.subrange(0, i + 1).drop_last() =~= rows.subrange(0, i as int));
                assert(rows.subrange(0, i + 1).last() == row@);
            }
            let trimmed = trim_chars(&chars_of(row.as_str()));
            if trimmed.len() > 0 {
                let ghost before = targets@;
                targets.push(Target { domain: copy_text(row) });
                proof {
                    assert(target_domain_views(targets@) =~= target_domain_views(before).push(row@));
                }
            }
            i = i + 1;
        }
        assert(rows.subrange(0, i as int) =~= rows);
        Ok(Config {
            paths: PathsConfig {
                vertices: self.vertices,
                edges: self.edges,
                ranks: self.ranks,
                results_dir: self.results_dir,
                index_dir: self.index_dir,
            },
            rank_metric,
            targets,
            config_dir: string_of(&Vec::new()),
        })
    }
}

/// A TOML basic string: quoted, with `\` and `"` escaped.
pub open spec fn spec_toml_string(value: Seq<char>) -> Seq<char> {
    seq!['"'] + escape_toml(value) + seq!['"']
}

pub open spec fn escape_toml(value: Seq<char>) -> Seq<char>
    decreases value.len(),
{
    if value.len() == 0 {
        Seq::empty()
    } else {
        let before = escape_toml(value.drop_last());
        let c = value.last();
        if c == '\\' { before + seq!['\\', '\\'] } else if c == '"' { before + seq!['\\', '"'] } else { before.push(c) }
    }
}

/// `value` as a TOML basic string.
pub fn toml_string(value: &str) -> (r: String)
    ensures
        r@ == spec_toml_string(value@),
{
    let v = chars_of(value);
    let mut out: Vec<char> = Vec::new();
    out.push('"');
    let mut i: usize = 0;
    while i < v.len()
        invariant
            i <= v@.len(),
            out@ == seq!['"'] + escape_toml(v@.subrange(0, i as int)),
        decreases v.len() - i,
    {
        let c = v[i];
        proof {
            assert(v@.subrange(0, i + 1).drop_last() =~= v@.subrange(0, i as int));
        }
        if c == '\\' {
            out.push('\\');
            out.push('\\');
        } else if c == '"' {
            out.push('\\');
            out.push('"');
        } else {
            out.push(c);
        }
        assert(out@ =~= seq!['"'] + escape_toml(v@.subrange(0, i + 1)));
        i = i + 1;
    }
    assert(v@.subrange(0, i as int) =~= v@);
    out.push('"');
    string_of(&out)
}

pub open spec fn toml_line(key: Seq<char>, value: Seq<char>) -> Seq<char> {
    key + " = "@ + spec_toml_string(value) + "\n"@
}

pub open spec fn toml_targets(ts: Seq<Target>) -> Seq<char>
    decreases ts.len(),
{
    if ts.len() == 0 {
        Seq::empty()
    } else {
        toml_targets(ts.drop_last()) + "\n[[targets]]\ndomain = "@ + spec_toml_string(ts.last().domain@) + "\n"@
    }
}

/// The `config.toml` text for `cfg`: the metric first (a top-level key after
/// a table header would belong to the table), then the paths, then one
/// `[[targets]]` table per domain.
pub open spec fn spec_toml_for(cfg: Config) -> Seq<char> {
    "# === web-radar ===\n# Paths are relative to THIS file.\n\nrank_metric = \""@ + metric_name(cfg.rank_metric)
        + "\"\n\n[paths]\n"@
        + toml_line("vertices"@, cfg.paths.vertices@)
        + toml_line("edges"@, cfg.paths.edges@)
        + toml_line("ranks"@, cfg.paths.ranks@)
        + toml_line("results_dir"@, cfg.paths.results_dir@)
        + toml_line("index_dir"@, cfg.paths.index_dir@)
        + toml_targets(cfg.targets@)
}

fn push_line(out: &mut Vec<char>, key: &str, value: &String)
    ensures
        final(out)@ == old(out)@ + toml_line(key@, value@),
{
    append_str(out, key);
    append_str(out, " = ");
    let quoted = toml_string(value.as_str());
    append_str(out, quoted.as_str());
    append_str(out, "\n");
    assert(final(out)@ =~= old(out)@ + toml_line(key@, value@));
}

/// The `config.toml` text for `cfg`.
pub fn toml_for(cfg: &Config) -> (r: String)
    ensures
        r@ == spec_toml_for(*cfg),
{
    let mut out: Vec<char> = Vec::new();
    append_str(&mut out, "# === web-radar ===\n# Paths are relative to THIS file.\n\nrank_metric = \"");
    append_str(&mut out, cfg.rank_metric.as_str());
    append_str(&mut out, "\"\n\n[paths]\n");
    push_line(&mut out, "vertices", &cfg.paths.vertices);
    push_line(&mut out, "edges", &cfg.paths.edges);
    push_line(&mut out, "ranks", &cfg.paths.ranks);
    push_line(&mut out, "results_dir", &cfg.paths.results_dir);
    push_line(&mut out, "index_dir", &cfg.paths.index_dir);
    let ghost head = out@;
    let mut i: usize = 0;
    while i < cfg.targets.len()
        invariant
            i <= cfg.targets@.len(),
            out@ == head + toml_targets(cfg.targets@.subrange(0, i as int)),
        decreases cfg.targets.len() - i,
    {
        append_str(&mut out, "\n[[targets]]\ndomain = ");
        let quoted = toml_string(cfg.targets[i].domain.as_str());
        append_str(&mut out, quoted.as_str());
        append_str(&mut out, "\n");
        proof {
            assert(cfg.targets@.subrange(0, i + 1).drop_last() =~= cfg.targets@.subrange(0, i as int));
            assert(out@ =~= head + toml_targets(cfg.targets@.subrange(0, i + 1)));
        }
        i = i + 1;
    }
    assert(cfg.targets@.subrange(0, i as int) =~= cfg.targets@);
    assert(out@ =~= spec_toml_for(*cfg));
    string_of(&out)
}

/// The window's config survives the trip through the engine's shape and
/// back: the same paths, the same metric, and the non-blank target rows.
pub proof fn lemma_ui_config_round_trip(u: UiConfig, cfg: Config, back: UiConfig)
    requires
        spec_parse_metric(u.rank_metric@) == Some(cfg.rank_metric),
        cfg.paths.vertices@ == u.vertices@,
        cfg.paths.edges@ == u.edges@,
        cfg.paths.ranks@ == u.ranks@,
        cfg.paths.results_dir@ == u.results_dir@,
        cfg.paths.index_dir@ == u.index_dir@,
        target_domain_views(cfg.targets@) == non_blank(u.targets@.map_values(|t: String| t@)),
        back.vertices@ == cfg.paths.vertices@,
        back.edges@ == cfg.paths.edges@,
        back.ranks@ == cfg.paths.ranks@,
        back.results_dir@ == cfg.paths.results_dir@,
        back.index_dir@ == cfg.paths.index_dir@,
        back.rank_metric@ == metric_name(cfg.rank_metric),
        back.targets@.map_values(|t: String| t@) == target_domain_views(cfg.targets@),
    ensures
        back.vertices@ == u.vertices@ && back.edges@ == u.edges@ && back.ranks@ == u.ranks@,
        back.results_dir@ == u.results_dir@ && back.index_dir@ == u.index_dir@,
        spec_parse_metric(back.rank_metric@) == spec_parse_metric(u.rank_metric@),
        back.targets@.map_values(|t: String| t@) == non_blank(u.targets@.map_values(|t: String| t@)),
{
    crate::config::lemma_metric_name_parses(cfg.rank_metric);
}

/// The tiers named by `keys`, in order; unknown keys are skipped.
pub open spec fn named_tiers(keys: Seq<Seq<char>>) -> Seq<Tier>
    decreases keys.len(),
{
    if keys.len() == 0 {
        Seq::empty()
    } else {
        let before = named_tiers(keys.drop_last());
        if keys.last() == tier_key(Tier::Lookup) {
            before.push(Tier::Lookup)
        } else if keys.last() == tier_key(Tier::Ranks) {
            before.push(Tier::Ranks)
        } else if keys.last() == tier_key(Tier::Inbound) {
            before.push(Tier::Inbound)
        } else {
            before
        }
    }
}

/// The tiers the window asked to build; it must name at least one.
pub fn selected_tiers(keys: &Vec<String>) -> (r: Result<Vec<Tier>, String>)
    ensures
        match r {
            Ok(v) => v@ == named_tiers(keys@.map_values(|k: String| k@)) && v@.len() > 0,
            Err(m) => named_tiers(keys@.map_values(|k: String| k@)).len() == 0 && m@ == "не вибрано жодного рівня індексу"@,
        },
{
    let ghost ks = keys@.map_values(|k: String| k@);
    let mut v: Vec<Tier> = Vec::new();
    let mut i: usize = 0;
    while i < keys.len()
        invariant
            i <= keys@.len(),
            ks == keys@.map_values(|k: String| k@),
            v@ == named_tiers(ks.subrange(0, i as int)),
        decreases keys.len() - i,
    {
        proof {
            assert(ks.subrange(0, i + 1).drop_last() =~= ks.subrange(0, i as int));
            crate::index::lemma_tier_keys_differ();
        }
        match Tier::parse(keys[i].as_str()) {
            Some(t) => {
                v.push(t);
            },
            None => {},
        }
        i = i + 1;
    }
    assert(ks.subrange(0, keys@.len() as int) =~= ks);
    if v.len() == 0 {
        Err("не вибрано жодного рівня індексу".to_owned())
    } else {
        Ok(v)
    }
}

pub open spec fn busy_message() -> Seq<char> {
    "інша операція вже виконується — зупиніть її або дочекайтесь завершення"@
}

/// A long job may start only when none runs: two builds writing the same
/// files would corrupt both.
pub fn may_start(jobs: &crate::jobs::JobManager) -> (r: Result<(), String>)
    ensures
        r is Ok <==> !jobs.spec_running(),
        r matches Err(m) ==> m@ == busy_message(),
{
    if jobs.is_running() {
        Err("інша операція вже виконується — зупиніть її або дочекайтесь завершення".to_owned())
    } else {
        Ok(())
    }
}

/// A full scan needs at least one target.
pub fn check_scan_targets(cfg: &Config) -> (r: Result<(), String>)
    ensures
        r is Ok <==> cfg.targets@.len() > 0,
        r matches Err(m) ==> m@ == "додайте принаймні один домен"@,
{
    if cfg.targets.len() == 0 {
        Err("додайте принаймні один домен".to_owned())
    } else {
        Ok(())
    }
}

} // verus!
