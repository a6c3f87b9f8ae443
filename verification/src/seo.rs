//! SEO discovery: the search queries that find pages mentioning a domain,
//! and what the results are taken to mean.

use vstd::prelude::*;
use crate::text::{
    chars_of, string_of, trim, trim_chars, same_chars, slice_chars, trim_start_matches, trim_start_matches_chars,
    trim_end_char, trim_end_char_chars, before_char, before_char_chars, lemma_before_char, unicode_lower,
    to_lowercase, unicode_upper, to_uppercase, ends_with_seq,
};
use crate::number::{append_str, append_chars, decimal, decimal_chars};
use crate::seen::{string_set_new, string_set_insert, string_set_contents};
use ahash::{AHashSet, RandomState};

verus! {

/// A domain to discover mentions of, and the brand it goes by (may be empty).
pub struct SeoTarget {
    pub domain: String,
    pub brand: String,
}

/// One search query: its kind, its text and what it is for.
pub struct SeoQuery {
    pub kind: String,
    pub query: String,
    pub purpose: String,
}

pub open spec fn is_word_break(c: char) -> bool {
    c == '-' || c == '_'
}

/// The pieces of `s` between `-` and `_` characters (empty ones included).
pub open spec fn split_words(s: Seq<char>) -> Seq<Seq<char>>
    decreases s.len(),
{
    if s.len() == 0 {
        seq![Seq::empty()]
    } else {
        let t = split_words(s.drop_last());
        if is_word_break(s.last()) { t.push(Seq::empty()) } else { t.update(t.len() - 1, t.last().push(s.last())) }
    }
}

proof fn lemma_split_words_len(s: Seq<char>)
    ensures
        split_words(s).len() >= 1,
    decreases s.len(),
{
    if s.len() > 0 {
        lemma_split_words_len(s.drop_last());
    }
}

/// A word with its first character in upper case.
pub open spec fn capitalized(w: Seq<char>) -> Seq<char> {
    if w.len() == 0 { w } else { unicode_upper(w[0]) + w.drop_first() }
}

/// The non-empty words, capitalized and joined by spaces.
pub open spec fn join_words(ws: Seq<Seq<char>>) -> Seq<char>
    decreases ws.len(),
{
    if ws.len() == 0 {
        Seq::empty()
    } else {
        let before = join_words(ws.drop_last());
        let w = ws.last();
        if w.len() == 0 { before } else if before.len() == 0 { capitalized(w) } else { before + seq![' '] + capitalized(w) }
    }
}

/// The first label of the host in `domain`, without scheme or `www.`.
pub open spec fn brand_label(domain: Seq<char>) -> Seq<char> {
    let host = trim_start_matches(trim_start_matches(trim(domain), "https://"@), "http://"@);
    before_char(trim_start_matches(before_char(host, '/'), "www."@), '.')
}

/// A brand name made of a domain: its first label, split at `-` and `_`,
/// each word capitalized.
pub open spec fn spec_derive_brand(domain: Seq<char>) -> Seq<char> {
    join_words(split_words(brand_label(domain)))
}

fn words_of(v: &Vec<char>) -> (r: Vec<Vec<char>>)
    ensures
        r@.len() == split_words(v@).len(),
        forall|k: int| 0 <= k < r@.len() ==> (#[trigger] r@[k])@ == split_words(v@)[k],
{
    let mut pieces: Vec<Vec<char>> = Vec::new();
    pieces.push(Vec::new());
    let mut i: usize = 0;
    assert(v@.subrange(0, 0) =~= Seq::<char>::empty());
    while i < v.len()
        invariant
            i <= v@.len(),
            pieces@.len() == split_words(v@.subrange(0, i as int)).len(),
            pieces@.len() >= 1,
            forall|k: int| 0 <= k < pieces@.len() ==> (#[trigger] pieces@[k])@ == split_words(v@.subrange(0, i as int))[k],
        decreases v.len() - i,
    {
        let ghost pre = v@.subrange(0, i as int);
        let ghost nxt = v@.subrange(0, i + 1);
        assert(nxt.drop_last() =~= pre);
        assert(nxt.last() == v@[i as int]);
        let ghost before = pieces@;
        let ghost t = split_words(pre);
        if v[i] == '-' || v[i] == '_' {
            pieces.push(Vec::new());
            proof {
                assert(split_words(nxt) == t.push(Seq::<char>::empty()));
                assert forall|k: int| 0 <= k < pieces@.len() implies (#[trigger] pieces@[k])@ == split_words(nxt)[k] by {
                    if k < before.len() {
                        assert(pieces@[k] == before[k]);
                    }
                }
            }
        } else {
            let last = pieces.len() - 1;
            let mut piece = pieces.remove(last);
            piece.push(v[i]);
            pieces.push(piece);
            proof {
                lemma_split_words_len(pre);
                assert(split_words(nxt) == t.update(t.len() - 1, t.last().push(v@[i as int])));
                assert forall|k: int| 0 <= k < pieces@.len() implies (#[trigger] pieces@[k])@ == split_words(nxt)[k] by {
                    if k < before.len() - 1 {
                        assert(pieces@[k] == before[k]);
                    }
                }
            }
        }
        i = i + 1;
    }
    assert(v@.subrange(0, i as int) =~= v@);
    pieces
}

fn capitalize(w: &Vec<char>) -> (r: Vec<char>)
    ensures
        r@ == capitalized(w@),
{
    if w.len() == 0 {
        return slice_chars(w, 0, 0);
    }
    let mut r = chars_of(to_uppercase(w[0]).as_str());
    let rest = slice_chars(w, 1, w.len());
    assert(rest@ =~= w@.drop_first());
    append_chars(&mut r, &rest);
    r
}

/// A human brand name made of a domain: `https://my-transfer.com.ua/`
/// gives `My Transfer`.
pub fn derive_brand(domain: &str) -> (r: String)
    ensures
        r@ == spec_derive_brand(domain@),
{
    let host = trim_start_matches_chars(&trim_start_matches_chars(&trim_chars(&chars_of(domain)), "https://"), "http://");
    let label = before_char_chars(&trim_start_matches_chars(&before_char_chars(&host, '/'), "www."), '.');
    let words = words_of(&label);
    let ghost ws = split_words(label@);
    let mut out: Vec<char> = Vec::new();
    let mut i: usize = 0;
    assert(ws.subrange(0, 0) =~= Seq::<Seq<char>>::empty());
    while i < words.len()
        invariant
            i <= words@.len() == ws.len(),
            forall|k: int| 0 <= k < words@.len() ==> (#[trigger] words@[k])@ == ws[k],
            out@ == join_words(ws.subrange(0, i as int)),
        decreases words.len() - i,
    {
        proof {
            assert(ws.subrange(0, i + 1).drop_last() =~= ws.subrange(0, i as int));
            assert(ws.subrange(0, i + 1).last() == words@[i as int]@);
        }
        let w = &words[i];
        if w.len() > 0 {
            let c = capitalize(w);
            if out.len() > 0 {
                out.push(' ');
            }
            append_chars(&mut out, &c);
        }
        i = i + 1;
    }
    assert(ws.subrange(0, i as int) =~= ws);
    string_of(&out)
}

/// The domain a query names: trimmed, without scheme or trailing slashes,
/// lowered.
pub open spec fn query_domain(domain: Seq<char>) -> Seq<char> {
    unicode_lower(trim_end_char(trim_start_matches(trim_start_matches(trim(domain), "https://"@), "http://"@), '/'))
}

/// The brand a query names: the one given, or one made of the domain.
pub open spec fn query_brand(target_brand: Seq<char>, domain: Seq<char>) -> Seq<char> {
    if trim(target_brand).len() == 0 { spec_derive_brand(domain) } else { trim(target_brand) }
}

pub open spec fn quoted(s: Seq<char>) -> Seq<char> {
    seq!['"'] + s + seq!['"']
}

/// The six discovery queries for a domain `d` and brand `b`, as
/// `(kind, query, purpose)`; every one excludes the target's own site.
pub open spec fn spec_queries(d: Seq<char>, b: Seq<char>) -> Seq<(Seq<char>, Seq<char>, Seq<char>)> {
    seq![
        ("potential_backlink"@, quoted(d) + " -site:"@ + d, "Pages mentioning the exact domain outside the target site"@),
        ("brand_mention"@, quoted(b) + " -site:"@ + d, "Unlinked and linked brand mentions"@),
        ("url_mention"@, quoted("https://"@ + d) + " -site:"@ + d, "Pages containing the canonical URL"@),
        ("inpage_domain"@, "inpage:"@ + quoted(d) + " NOT site:"@ + d, "Domain text found in page content"@),
        ("reputation"@, quoted(b) + " (review OR reviews OR відгуки OR скарги OR scam) -site:"@ + d,
            "Reviews, complaints and reputation signals"@),
        ("documents"@, quoted(d) + " (filetype:pdf OR filetype:doc OR filetype:xls) -site:"@ + d,
            "Documents and citations mentioning the domain"@),
    ]
}

proof fn lemma_suffix_occurs(a: Seq<char>, t: Seq<char>)
    ensures
        crate::text::contains_seq(a + t, t),
{
    let s = a + t;
    assert(s.subrange(a.len() as int, (a.len() + t.len()) as int) =~= t);
    assert(crate::text::occurs_at(s, t, a.len() as int));
}

/// Every discovery query leaves the target's own site out: it ends with
/// ` -site:` or ` NOT site:` and the domain.
pub proof fn lemma_queries_exclude_own_site(d: Seq<char>, b: Seq<char>)
    ensures
        forall|k: int| 0 <= k < spec_queries(d, b).len() ==>
            crate::text::contains_seq(#[trigger] spec_queries(d, b)[k].1, " -site:"@ + d)
            || crate::text::contains_seq(spec_queries(d, b)[k].1, " NOT site:"@ + d),
{
    let qs = spec_queries(d, b);
    let ex = " -site:"@ + d;
    let not = " NOT site:"@ + d;
    let p4 = " (review OR reviews OR відгуки OR скарги OR scam)"@;
    let p5 = " (filetype:pdf OR filetype:doc OR filetype:xls)"@;
    assert(crate::text::contains_seq(qs[0].1, ex)) by {
        assert(qs[0].1 =~= quoted(d) + ex);
        lemma_suffix_occurs(quoted(d), ex);
    }
    assert(crate::text::contains_seq(qs[1].1, ex)) by {
        assert(qs[1].1 =~= quoted(b) + ex);
        lemma_suffix_occurs(quoted(b), ex);
    }
    assert(crate::text::contains_seq(qs[2].1, ex)) by {
        assert(qs[2].1 =~= quoted("https://"@ + d) + ex);
        lemma_suffix_occurs(quoted("https://"@ + d), ex);
    }
    assert(crate::text::contains_seq(qs[3].1, not)) by {
        assert(qs[3].1 =~= ("inpage:"@ + quoted(d)) + not);
        lemma_suffix_occurs("inpage:"@ + quoted(d), not);
    }
    assert(crate::text::contains_seq(qs[4].1, ex)) by {
        reveal_strlit(" (review OR reviews OR відгуки OR скарги OR scam) -site:");
        reveal_strlit(" (review OR reviews OR відгуки OR скарги OR scam)");
        reveal_strlit(" -site:");
        assert(" (review OR reviews OR відгуки OR скарги OR scam) -site:"@ =~= p4 + " -site:"@);
        assert(qs[4].1 =~= (quoted(b) + p4) + ex);
        lemma_suffix_occurs(quoted(b) + p4, ex);
    }
    assert(crate::text::contains_seq(qs[5].1, ex)) by {
        reveal_strlit(" (filetype:pdf OR filetype:doc OR filetype:xls) -site:");
        reveal_strlit(" (filetype:pdf OR filetype:doc OR filetype:xls)");
        reveal_strlit(" -site:");
        assert(" (filetype:pdf OR filetype:doc OR filetype:xls) -site:"@ =~= p5 + " -site:"@);
        assert(qs[5].1 =~= (quoted(d) + p5) + ex);
        lemma_suffix_occurs(quoted(d) + p5, ex);
    }
    assert forall|k: int| 0 <= k < qs.len() implies
        crate::text::contains_seq(#[trigger] qs[k].1, ex) || crate::text::contains_seq(qs[k].1, not) by {
        assert(k == 0 || k == 1 || k == 2 || k == 3 || k == 4 || k == 5);
    }
}

pub open spec fn query_view(q: SeoQuery) -> (Seq<char>, Seq<char>, Seq<char>) {
    (q.kind@, q.query@, q.purpose@)
}

fn text(s: &str) -> (r: String)
    ensures
        r@ == s@,
{
    string_of(&chars_of(s))
}

fn quote_into(out: &mut Vec<char>, s: &Vec<char>)
    ensures
        final(out)@ == old(out)@ + quoted(s@),
{
    out.push('"');
    append_chars(out, s);
    out.push('"');
    assert(final(out)@ =~= old(out)@ + quoted(s@));
}

/// The discovery queries for one target.
pub fn build_queries(target: &SeoTarget) -> (r: Vec<SeoQuery>)
    ensures
        r@.map_values(|q: SeoQuery| query_view(q))
            == spec_queries(query_domain(target.domain@), query_brand(target.brand@, query_domain(target.domain@))),
{
    let stripped = trim_end_char_chars(&trim_start_matches_chars(&trim_start_matches_chars(
        &trim_chars(&chars_of(target.domain.as_str())), "https://"), "http://"), '/');
    let domain = to_lowercase(string_of(&stripped).as_str());
    let d = chars_of(domain.as_str());
    let bt = trim_chars(&chars_of(target.brand.as_str()));
    let b = if bt.len() == 0 { chars_of(derive_brand(domain.as_str()).as_str()) } else { bt };

    let mut q1: Vec<char> = Vec::new();
    quote_into(&mut q1, &d);
    append_str(&mut q1, " -site:");
    append_chars(&mut q1, &d);

    let mut q2: Vec<char> = Vec::new();
    quote_into(&mut q2, &b);
    append_str(&mut q2, " -site:");
    append_chars(&mut q2, &d);

    let mut url: Vec<char> = chars_of("https://");
    append_chars(&mut url, &d);
    let mut q3: Vec<char> = Vec::new();
    quote_into(&mut q3, &url);
    append_str(&mut q3, " -site:");
    append_chars(&mut q3, &d);

    let mut q4: Vec<char> = chars_of("inpage:");
    quote_into(&mut q4, &d);
    append_str(&mut q4, " NOT site:");
    append_chars(&mut q4, &d);

    let mut q5: Vec<char> = Vec::new();
    quote_into(&mut q5, &b);
    append_str(&mut q5, " (review OR reviews OR відгуки OR скарги OR scam) -site:");
    append_chars(&mut q5, &d);

    let mut q6: Vec<char> = Vec::new();
    quote_into(&mut q6, &d);
    append_str(&mut q6, " (filetype:pdf OR filetype:doc OR filetype:xls) -site:");
    append_chars(&mut q6, &d);

    let mut r: Vec<SeoQuery> = Vec::new();
    r.push(SeoQuery { kind: text("potential_backlink"), query: string_of(&q1),
        purpose: text("Pages mentioning the exact domain outside the target site") });
    r.push(SeoQuery { kind: text("brand_mention"), query: string_of(&q2), purpose: text("Unlinked and linked brand mentions") });
    r.push(SeoQuery { kind: text("url_mention"), query: string_of(&q3), purpose: text("Pages containing the canonical URL") });
    r.push(SeoQuery { kind: text("inpage_domain"), query: string_of(&q4), purpose: text("Domain text found in page content") });
    r.push(SeoQuery { kind: text("reputation"), query: string_of(&q5),
        purpose: text("Reviews, complaints and reputation signals") });
    r.push(SeoQuery { kind: text("documents"), query: string_of(&q6),
        purpose: text("Documents and citations mentioning the domain") });
    assert(r@.map_values(|q: SeoQuery| query_view(q))
        =~= spec_queries(query_domain(target.domain@), query_brand(target.brand@, query_domain(target.domain@))));
    r
}

/// What a result found by a query of `kind` is evidence of, and how sure.
pub open spec fn spec_classify(kind: Seq<char>) -> (Seq<char>, Seq<char>) {
    if kind == "potential_backlink"@ || kind == "url_mention"@ || kind == "inpage_domain"@ {
        ("potential_backlink"@, "medium"@)
    } else if kind == "reputation"@ {
        ("reputation_mention"@, "medium"@)
    } else if kind == "documents"@ {
        ("document_citation"@, "medium"@)
    } else {
        ("brand_mention"@, "low"@)
    }
}

pub fn classify(kind: &str) -> (r: (&'static str, &'static str))
    ensures
        (r.0@, r.1@) == spec_classify(kind@),
{
    let k = chars_of(kind);
    if same_chars(&k, &chars_of("potential_backlink")) || same_chars(&k, &chars_of("url_mention"))
        || same_chars(&k, &chars_of("inpage_domain")) {
        ("potential_backlink", "medium")
    } else if same_chars(&k, &chars_of("reputation")) {
        ("reputation_mention", "medium")
    } else if same_chars(&k, &chars_of("documents")) {
        ("document_citation", "medium")
    } else {
        ("brand_mention", "low")
    }
}

/// Why a discovery request is refused before any search is made.
pub open spec fn spec_validate_request(provider: Seq<char>, api_key: Seq<char>, google_cx: Seq<char>, targets: int) -> Option<Seq<char>> {
    if trim(api_key).len() == 0 {
        Some("API key is required"@)
    } else if targets == 0 {
        Some("At least one target is required"@)
    } else if provider == "google"@ && trim(google_cx).len() == 0 {
        Some("Google Search Engine ID (cx) is required"@)
    } else if provider != "brave"@ && provider != "google"@ {
        Some("Unsupported provider: "@ + provider)
    } else {
        None
    }
}

pub fn validate_request(provider: &str, api_key: &str, google_cx: &str, targets: usize) -> (r: Result<(), String>)
    ensures
        match r {
            Ok(()) => spec_validate_request(provider@, api_key@, google_cx@, targets as int) is None,
            Err(m) => spec_validate_request(provider@, api_key@, google_cx@, targets as int) == Some(m@),
        },
{
    let p = chars_of(provider);
    if trim_chars(&chars_of(api_key)).len() == 0 {
        return Err(text("API key is required"));
    }
    if targets == 0 {
        return Err(text("At least one target is required"));
    }
    let google = same_chars(&p, &chars_of("google"));
    if google && trim_chars(&chars_of(google_cx)).len() == 0 {
        return Err(text("Google Search Engine ID (cx) is required"));
    }
    if !same_chars(&p, &chars_of("brave")) && !google {
        let mut m = chars_of("Unsupported provider: ");
        append_str(&mut m, provider);
        return Err(string_of(&m));
    }
    Ok(())
}

/// Results asked for per query: between 1 and 20 (Google serves at most 10).
pub fn result_limit(results_per_query: u8, google: bool) -> (r: u8)
    ensures
        r == (if google {
            if results_per_query < 1 { 1 } else if results_per_query > 10 { 10 } else { results_per_query }
        } else {
            if results_per_query < 1 { 1 } else if results_per_query > 20 { 20 } else { results_per_query }
        }),
{
    let limit = if results_per_query < 1 { 1 } else if results_per_query > 20 { 20 } else { results_per_query };
    if google && limit > 10 { 10 } else { limit }
}

/// The target's host as results are compared with it: trimmed, without
/// scheme, trailing slashes or `www.` (letter case kept).
pub open spec fn target_host(domain: Seq<char>) -> Seq<char> {
    trim_start_matches(trim_end_char(trim_start_matches(trim_start_matches(trim(domain), "https://"@), "http://"@), '/'), "www."@)
}

pub fn target_host_of(domain: &str) -> (r: String)
    ensures
        r@ == target_host(domain@),
{
    let v = trim_start_matches_chars(&trim_start_matches_chars(&trim_chars(&chars_of(domain)), "https://"), "http://");
    let v = trim_start_matches_chars(&trim_end_char_chars(&v, '/'), "www.");
    string_of(&v)
}

/// One piece of evidence: a search result on another site.
pub struct SeoEvidence {
    pub target_domain: String,
    pub query_kind: String,
    pub query: String,
    pub title: String,
    pub url: String,
    pub source_domain: String,
    pub snippet: String,
    pub evidence_type: String,
    pub confidence: String,
}

/// One search result: title, URL, snippet, and the host of its URL
/// (without `www.`, lowered; empty when the URL has none).
pub struct SearchItem {
    pub title: String,
    pub url: String,
    pub snippet: String,
    pub host: String,
}

/// A result is evidence when it is on another site than the target's.
pub open spec fn is_foreign(host: Seq<char>, target: Seq<char>) -> bool {
    host.len() > 0 && host != target && !ends_with_seq(host, seq!['.'] + target)
}

/// The key results are deduplicated by: target and URL without trailing
/// slashes.
pub open spec fn evidence_key(target: Seq<char>, url: Seq<char>) -> Seq<char> {
    target + seq!['|'] + trim_end_char(url, '/')
}

/// The evidence gathered over a discovery run.
pub struct Discovery {
    pub seen: AHashSet<String, RandomState>,
    pub evidence: Vec<SeoEvidence>,
}

impl Discovery {
    pub fn new() -> (d: Discovery)
        ensures
            string_set_contents(d.seen) == Set::<Seq<char>>::empty(),
            d.evidence@.len() == 0,
    {
        Discovery { seen: string_set_new(), evidence: Vec::new() }
    }

    /// Take in the results of one query for one target, in order: results
    /// on the target's own site and repeats of a URL already taken are left
    /// out; each other result becomes a piece of evidence.
    pub fn accept(&mut self, target_domain: &str, query: &SeoQuery, items: Vec<SearchItem>)
        ensures
            final(self).evidence@.len() >= old(self).evidence@.len(),
            final(self).evidence@.subrange(0, old(self).evidence@.len() as int) == old(self).evidence@,
            (string_set_contents(final(self).seen),
                final(self).evidence@.subrange(old(self).evidence@.len() as int, final(self).evidence@.len() as int)
                    .map_values(|e: SeoEvidence| evidence_of(e)))
                == spec_accept(string_set_contents(old(self).seen), items@.map_values(|x: SearchItem| item_of(x)),
                    target_host(target_domain@), query.kind@, query.query@),
    {
        let target = target_host_of(target_domain);
        let t = chars_of(target.as_str());
        let mut dotted: Vec<char> = Vec::new();
        dotted.push('.');
        append_chars(&mut dotted, &t);
        assert(dotted@ =~= seq!['.'] + t@);
        let (evidence_type, confidence) = classify(query.kind.as_str());
        let ghost start = self.evidence@;
        let ghost seen0 = string_set_contents(self.seen);
        let mut items = items;
        let ghost all = items@;
        let ghost views = all.map_values(|x: SearchItem| item_of(x));
        let n = items.len();
        let mut i: usize = 0;
        proof {
            assert(views.subrange(0, 0) =~= Seq::<(Seq<char>, Seq<char>, Seq<char>, Seq<char>)>::empty());
            assert(self.evidence@.subrange(start.len() as int, self.evidence@.len() as int)
                .map_values(|e: SeoEvidence| evidence_of(e)) =~= Seq::<EvidenceView>::empty());
        }
        while i < n
            invariant
                i <= n == all.len() == views.len(),
                views == all.map_values(|x: SearchItem| item_of(x)),
                items@ == all.subrange(i as int, all.len() as int),
                t@ == target@,
                target@ == target_host(target_domain@),
                dotted@ == seq!['.'] + t@,
                (evidence_type@, confidence@) == spec_classify(query.kind@),
                self.evidence@.len() >= start.len(),
                self.evidence@.subrange(0, start.len() as int) == start,
                (string_set_contents(self.seen),
                    self.evidence@.subrange(start.len() as int, self.evidence@.len() as int)
                        .map_values(|e: SeoEvidence| evidence_of(e)))
                    == spec_accept(seen0, views.subrange(0, i as int), target@, query.kind@, query.query@),
            decreases n - i,
        {
            let item = items.remove(0);
            let ghost before_seen = string_set_contents(self.seen);
            let ghost before_ev = self.evidence@;
            proof {
                assert(item == all[i as int]);
                assert(items@ =~= all.subrange(i + 1, all.len() as int));
                assert(views.subrange(0, i + 1).drop_last() =~= views.subrange(0, i as int));
                assert(views.subrange(0, i + 1).last() == item_of(item));
            }
            let h = chars_of(item.host.as_str());
            let foreign = h.len() > 0 && !same_chars(&h, &t) && !crate::text::ends_with_chars(&h, &dotted);
            if foreign {
                let mut key = chars_of(target.as_str());
                key.push('|');
                let u = trim_end_char_chars(&chars_of(item.url.as_str()), '/');
                append_chars(&mut key, &u);
                let key = string_of(&key);
                assert(key@ =~= evidence_key(target@, item.url@));
                let added = string_set_insert(&mut self.seen, key);
                if added {
                    let e = SeoEvidence {
                        target_domain: text(target.as_str()),
                        query_kind: text(query.kind.as_str()),
                        query: text(query.query.as_str()),
                        title: item.title,
                        url: item.url,
                        source_domain: item.host,
                        snippet: item.snippet,
                        evidence_type: text(evidence_type),
                        confidence: text(confidence),
                    };
                    let ghost ev = evidence_of(e);
                    self.evidence.push(e);
                    proof {
                        assert(self.evidence@.subrange(0, start.len() as int) =~= start) by {
                            assert forall|k: int| 0 <= k < start.len() implies self.evidence@[k] == start[k] by {
                                assert(self.evidence@[k] == before_ev[k]);
                                assert(before_ev.subrange(0, start.len() as int)[k] == before_ev[k]);
                            }
                        }
                        assert(self.evidence@.subrange(start.len() as int, self.evidence@.len() as int)
                            .map_values(|e: SeoEvidence| evidence_of(e))
                            =~= before_ev.subrange(start.len() as int, before_ev.len() as int)
                                .map_values(|e: SeoEvidence| evidence_of(e)).push(ev));
                    }
                }
            }
            i = i + 1;
        }
        proof {
            assert(views.subrange(0, n as int) =~= views);
        }
    }
}

/// What a piece of evidence holds, as values: target, query kind, query,
/// title, URL, source domain, snippet, evidence type and confidence.
pub type EvidenceView = (Seq<char>, Seq<char>, Seq<char>, Seq<char>, Seq<char>, Seq<char>, Seq<char>, Seq<char>, Seq<char>);

pub open spec fn evidence_of(e: SeoEvidence) -> EvidenceView {
    (e.target_domain@, e.query_kind@, e.query@, e.title@, e.url@, e.source_domain@, e.snippet@, e.evidence_type@, e.confidence@)
}

/// A search result as values: title, URL, snippet and host.
pub open spec fn item_of(x: SearchItem) -> (Seq<char>, Seq<char>, Seq<char>, Seq<char>) {
    (x.title@, x.url@, x.snippet@, x.host@)
}

/// The URL keys seen and the evidence added after taking `items` in order
/// for `target`, from a query of `kind`.
pub open spec fn spec_accept(seen: Set<Seq<char>>, items: Seq<(Seq<char>, Seq<char>, Seq<char>, Seq<char>)>, target: Seq<char>,
    kind: Seq<char>, query: Seq<char>) -> (Set<Seq<char>>, Seq<EvidenceView>)
    decreases items.len(),
{
    if items.len() == 0 {
        (seen, Seq::empty())
    } else {
        let (s, es) = spec_accept(seen, items.drop_last(), target, kind, query);
        let (title, url, snippet, host) = items.last();
        let key = evidence_key(target, url);
        if !is_foreign(host, target) || s.contains(key) {
            (s, es)
        } else {
            let (ty, confidence) = spec_classify(kind);
            (s.insert(key), es.push((target, kind, query, title, url, host, snippet, ty, confidence)))
        }
    }
}

/// Counts over the gathered evidence.
pub open spec fn count_type(es: Seq<SeoEvidence>, t: Seq<char>) -> int
    decreases es.len(),
{
    if es.len() == 0 {
        0
    } else {
        count_type(es.drop_last(), t) + if es.last().evidence_type@ == t { 1int } else { 0 }
    }
}

pub fn count_evidence(es: &Vec<SeoEvidence>, t: &str) -> (n: usize)
    ensures
        n == count_type(es@, t@),
{
    let mut n: usize = 0;
    let mut i: usize = 0;
    while i < es.len()
        invariant
            i <= es@.len(),
            n <= i,
            n == count_type(es@.subrange(0, i as int), t@),
        decreases es.len() - i,
    {
        proof {
            assert(es@.subrange(0, i + 1).drop_last() =~= es@.subrange(0, i as int));
        }
        if crate::text::str_eq(es[i].evidence_type.as_str(), t) {
            n = n + 1;
        }
        i = i + 1;
    }
    assert(es@.subrange(0, i as int) =~= es@);
    n
}

/// `a <= b` in the order `String` compares in (code point by code point).
pub open spec fn text_le(a: Seq<char>, b: Seq<char>) -> bool
    decreases a.len(),
{
    if a.len() == 0 {
        true
    } else if b.len() == 0 {
        false
    } else if a[0] < b[0] {
        true
    } else if a[0] > b[0] {
        false
    } else {
        text_le(a.drop_first(), b.drop_first())
    }
}

pub fn text_le_chars(a: &Vec<char>, b: &Vec<char>) -> (r: bool)
    ensures
        r == text_le(a@, b@),
{
    let mut i: usize = 0;
    assert(a@.subrange(0, a@.len() as int) =~= a@);
    assert(b@.subrange(0, b@.len() as int) =~= b@);
    while i < a.len() && i < b.len() && a[i] == b[i]
        invariant
            i <= a@.len(),
            i <= b@.len(),
            text_le(a@, b@) == text_le(a@.subrange(i as int, a@.len() as int), b@.subrange(i as int, b@.len() as int)),
        decreases a.len() - i,
    {
        proof {
            let x = a@.subrange(i as int, a@.len() as int);
            let y = b@.subrange(i as int, b@.len() as int);
            assert(x.drop_first() =~= a@.subrange(i + 1, a@.len() as int));
            assert(y.drop_first() =~= b@.subrange(i + 1, b@.len() as int));
            assert(x[0] == y[0]);
        }
        i = i + 1;
    }
    proof {
        let x = a@.subrange(i as int, a@.len() as int);
        let y = b@.subrange(i as int, b@.len() as int);
        if i < a.len() && i < b.len() {
            assert(x[0] == a@[i as int] && y[0] == b@[i as int]);
        }
    }
    if i == a.len() {
        true
    } else if i == b.len() {
        false
    } else {
        a[i] < b[i]
    }
}

/// How many pieces of evidence come from `domain`.
pub open spec fn count_domain(es: Seq<SeoEvidence>, domain: Seq<char>) -> int
    decreases es.len(),
{
    if es.len() == 0 {
        0
    } else {
        count_domain(es.drop_last(), domain) + if es.last().source_domain@ == domain { 1int } else { 0 }
    }
}

/// The source domains of the evidence.
pub open spec fn evidence_domains(es: Seq<SeoEvidence>) -> Set<Seq<char>> {
    Set::new(|d: Seq<char>| exists|k: int| 0 <= k < es.len() && (#[trigger] es[k]).source_domain@ == d)
}

/// The most frequent source domain with its count; among equals, the one
/// that sorts last.
pub open spec fn is_strongest(es: Seq<SeoEvidence>, d: Seq<char>, c: int) -> bool {
    &&& evidence_domains(es).contains(d)
    &&& c == count_domain(es, d)
    &&& forall|e: Seq<char>| #[trigger] evidence_domains(es).contains(e) ==>
            count_domain(es, e) < c || (count_domain(es, e) == c && text_le(e, d))
}

proof fn lemma_count_domain_push(es: Seq<SeoEvidence>, x: SeoEvidence, d: Seq<char>)
    ensures
        count_domain(es.push(x), d) == count_domain(es, d) + if x.source_domain@ == d { 1int } else { 0 },
{
    assert(es.push(x).drop_last() =~= es);
}

proof fn lemma_count_domain_nonneg(es: Seq<SeoEvidence>, d: Seq<char>)
    ensures
        count_domain(es, d) >= 0,
        count_domain(es, d) <= es.len(),
    decreases es.len(),
{
    if es.len() > 0 {
        lemma_count_domain_nonneg(es.drop_last(), d);
    }
}

/// Distinct source domains, each with its count, in order of first sight.
fn domain_counts(es: &Vec<SeoEvidence>) -> (r: (Vec<Vec<char>>, Vec<usize>))
    ensures
        r.0@.len() == r.1@.len(),
        forall|k: int| 0 <= k < r.1@.len() ==> (#[trigger] r.1@[k]) == count_domain(es@, r.0@[k]@),
        forall|d: Seq<char>| evidence_domains(es@).contains(d) <==> exists|k: int| 0 <= k < r.0@.len() && (#[trigger] r.0@[k])@ == d,
        forall|j: int, k: int| 0 <= j < k < r.0@.len() ==> (#[trigger] r.0@[j])@ != (#[trigger] r.0@[k])@,
{
    let mut names: Vec<Vec<char>> = Vec::new();
    let mut counts: Vec<usize> = Vec::new();
    let mut i: usize = 0;
    while i < es.len()
        invariant
            i <= es@.len(),
            names@.len() == counts@.len(),
            forall|k: int| 0 <= k < counts@.len() ==> (#[trigger] counts@[k]) == count_domain(es@.subrange(0, i as int), names@[k]@),
            forall|k: int| 0 <= k < counts@.len() ==> (#[trigger] counts@[k]) <= i,
            forall|d: Seq<char>| evidence_domains(es@.subrange(0, i as int)).contains(d)
                <==> exists|k: int| 0 <= k < names@.len() && (#[trigger] names@[k])@ == d,
            forall|j: int, k: int| 0 <= j < k < names@.len() ==> (#[trigger] names@[j])@ != (#[trigger] names@[k])@,
        decreases es.len() - i,
    {
        let d = chars_of(es[i].source_domain.as_str());
        let ghost pre = es@.subrange(0, i as int);
        let ghost nxt = es@.subrange(0, i + 1);
        proof {
            assert(nxt =~= pre.push(es@[i as int]));
        }
        let mut j: usize = 0;
        let mut at: Option<usize> = None;
        while j < names.len()
            invariant
                j <= names@.len(),
                at matches Some(x) ==> x < names@.len() && names@[x as int]@ == d@,
                at is None ==> forall|m: int| 0 <= m < j ==> names@[m]@ != d@,
            decreases names.len() - j,
        {
            if at.is_none() && same_chars(&names[j], &d) {
                at = Some(j);
            }
            j = j + 1;
        }
        let ghost old_names = names@;
        let ghost old_counts = counts@;
        match at {
            Some(x) => {
                let c = counts[x];
                counts.set(x, c + 1);
                proof {
                    assert forall|k: int| 0 <= k < counts@.len() implies (#[trigger] counts@[k]) == count_domain(nxt, names@[k]@) by {
                        lemma_count_domain_push(pre, es@[i as int], names@[k]@);
                        if k != x {
                            assert(names@[k]@ != d@) by {
                                if names@[k]@ == d@ {
                                    if k < x { assert(names@[k]@ != names@[x as int]@); } else { assert(names@[x as int]@ != names@[k]@); }
                                }
                            }
                        }
                    }
                    assert forall|dd: Seq<char>| evidence_domains(nxt).contains(dd)
                        <==> exists|k: int| 0 <= k < names@.len() && (#[trigger] names@[k])@ == dd by {
                        if evidence_domains(nxt).contains(dd) {
                            let w = choose|w: int| 0 <= w < nxt.len() && (#[trigger] nxt[w]).source_domain@ == dd;
                            if w < pre.len() {
                                assert(pre[w] == nxt[w]);
                                assert(evidence_domains(pre).contains(dd));
                            } else {
                                assert(names@[x as int]@ == dd);
                            }
                        }
                        if exists|k: int| 0 <= k < names@.len() && (#[trigger] names@[k])@ == dd {
                            assert(evidence_domains(pre).contains(dd));
                            let w = choose|w: int| 0 <= w < pre.len() && (#[trigger] pre[w]).source_domain@ == dd;
                            assert(nxt[w] == pre[w]);
                        }
                    }
                }
            },
            None => {
                names.push(d);
                counts.push(1);
                proof {
                    assert forall|k: int| 0 <= k < counts@.len() implies (#[trigger] counts@[k]) == count_domain(nxt, names@[k]@) by {
                        lemma_count_domain_push(pre, es@[i as int], names@[k]@);
                        if k < old_names.len() {
                            assert(names@[k] == old_names[k]);
                        } else {
                            assert(!evidence_domains(pre).contains(d@));
                            assert(count_domain(pre, d@) == 0) by {
                                lemma_count_zero(pre, d@);
                            }
                        }
                    }
                    assert forall|dd: Seq<char>| evidence_domains(nxt).contains(dd)
                        <==> exists|k: int| 0 <= k < names@.len() && (#[trigger] names@[k])@ == dd by {
                        if evidence_domains(nxt).contains(dd) {
                            let w = choose|w: int| 0 <= w < nxt.len() && (#[trigger] nxt[w]).source_domain@ == dd;
                            if w < pre.len() {
                                assert(pre[w] == nxt[w]);
                                assert(evidence_domains(pre).contains(dd));
                                let k = choose|k: int| 0 <= k < old_names.len() && (#[trigger] old_names[k])@ == dd;
                                assert(names@[k] == old_names[k]);
                            } else {
                                assert(names@[old_names.len() as int]@ == dd);
                            }
                        }
                        if exists|k: int| 0 <= k < names@.len() && (#[trigger] names@[k])@ == dd {
                            let k = choose|k: int| 0 <= k < names@.len() && (#[trigger] names@[k])@ == dd;
                            if k < old_names.len() {
                                assert(old_names[k]@ == dd);
                                assert(evidence_domains(pre).contains(dd));
                                let w = choose|w: int| 0 <= w < pre.len() && (#[trigger] pre[w]).source_domain@ == dd;
                                assert(nxt[w] == pre[w]);
                            } else {
                                assert(nxt[i as int].source_domain@ == dd);
                            }
                        }
                    }
                    assert forall|a: int, b: int| 0 <= a < b < names@.len() implies (#[trigger] names@[a])@ != (#[trigger] names@[b])@ by {
                        if b == old_names.len() {
                            assert(names@[a] == old_names[a]);
                        } else {
                            assert(names@[a] == old_names[a] && names@[b] == old_names[b]);
                        }
                    }
                }
            },
        }
        i = i + 1;
    }
    assert(es@.subrange(0, i as int) =~= es@);
    (names, counts)
}

proof fn lemma_count_zero(es: Seq<SeoEvidence>, d: Seq<char>)
    requires
        !evidence_domains(es).contains(d),
    ensures
        count_domain(es, d) == 0,
    decreases es.len(),
{
    if es.len() > 0 {
        let t = es.drop_last();
        assert(!evidence_domains(t).contains(d)) by {
            if evidence_domains(t).contains(d) {
                let w = choose|w: int| 0 <= w < t.len() && (#[trigger] t[w]).source_domain@ == d;
                assert(es[w] == t[w]);
            }
        }
        lemma_count_zero(t, d);
        if es.last().source_domain@ == d {
            assert(es[es.len() - 1].source_domain@ == d);
        }
    }
}

/// How many distinct source domains the evidence comes from.
pub fn unique_sources(es: &Vec<SeoEvidence>) -> (n: usize)
    ensures
        n == evidence_domains(es@).len(),
{
    let (names, _counts) = domain_counts(es);
    proof {
        let v = names@.map_values(|x: Vec<char>| x@);
        assert(v.no_duplicates()) by {
            assert forall|i: int, j: int| (0 <= i < v.len() && 0 <= j < v.len() && i != j) implies v[i] != v[j] by {
                if i < j {
                    assert(names@[i]@ != names@[j]@);
                } else {
                    assert(names@[j]@ != names@[i]@);
                }
            }
        }
        v.unique_seq_to_set();
        assert(v.to_set() =~= evidence_domains(es@)) by {
            assert forall|d: Seq<char>| v.to_set().contains(d) <==> evidence_domains(es@).contains(d) by {
                if v.to_set().contains(d) {
                    let k = choose|k: int| 0 <= k < v.len() && v[k] == d;
                    assert(names@[k]@ == d);
                }
                if evidence_domains(es@).contains(d) {
                    let k = choose|k: int| 0 <= k < names@.len() && (#[trigger] names@[k])@ == d;
                    assert(v[k] == d);
                }
            }
        }
    }
    names.len()
}

/// The most frequent source domain and its count (among equals, the one
/// that sorts last), if there is any evidence.
pub fn strongest_source(es: &Vec<SeoEvidence>) -> (r: Option<(String, usize)>)
    ensures
        match r {
            None => evidence_domains(es@) == Set::<Seq<char>>::empty(),
            Some((d, c)) => is_strongest(es@, d@, c as int),
        },
{
    let (names, counts) = domain_counts(es);
    if names.len() == 0 {
        assert(evidence_domains(es@) =~= Set::<Seq<char>>::empty());
        return None;
    }
    let mut best: usize = 0;
    let mut k: usize = 1;
    proof {
        lemma_text_le_total(names@[0]@, names@[0]@);
    }
    while k < names.len()
        invariant
            1 <= k <= names@.len() == counts@.len(),
            best < k,
            forall|j: int| 0 <= j < counts@.len() ==> (#[trigger] counts@[j]) == count_domain(es@, names@[j]@),
            forall|j: int| 0 <= j < k ==> counts@[j] < counts@[best as int]
                || (counts@[j] == counts@[best as int] && text_le(#[trigger] names@[j]@, names@[best as int]@)),
        decreases names.len() - k,
    {
        if counts[k] > counts[best] || (counts[k] == counts[best] && text_le_chars(&names[best], &names[k])) {
            proof {
                lemma_text_le_total_trans();
            }
            best = k;
        } else {
            proof {
                lemma_text_le_total_trans();
            }
        }
        k = k + 1;
    }
    let d = string_of(&names[best]);
    proof {
        assert(names@[best as int]@ == d@);
        assert(evidence_domains(es@).contains(d@));
        assert forall|e: Seq<char>| #[trigger] evidence_domains(es@).contains(e) implies
            count_domain(es@, e) < counts@[best as int] || (count_domain(es@, e) == counts@[best as int] && text_le(e, d@)) by {
            let j = choose|j: int| 0 <= j < names@.len() && (#[trigger] names@[j])@ == e;
            assert(counts@[j] == count_domain(es@, e));
        }
    }
    Some((d, counts[best]))
}

/// `text_le` is a total order: every two texts compare, and the order is
/// reflexive and transitive.
pub proof fn lemma_text_le_facts()
    ensures
        forall|a: Seq<char>| #[trigger] text_le(a, a),
        forall|a: Seq<char>, b: Seq<char>| text_le(a, b) || text_le(b, a),
        forall|a: Seq<char>, b: Seq<char>, c: Seq<char>| text_le(a, b) && text_le(b, c) ==> text_le(a, c),
{
    lemma_text_le_total_trans();
    assert forall|a: Seq<char>| #[trigger] text_le(a, a) by {
        lemma_text_le_total(a, a);
    }
}

/// `text_le` is a total order.
proof fn lemma_text_le_total_trans()
    ensures
        forall|a: Seq<char>, b: Seq<char>| text_le(a, b) || text_le(b, a),
        forall|a: Seq<char>, b: Seq<char>, c: Seq<char>| text_le(a, b) && text_le(b, c) ==> text_le(a, c),
{
    assert forall|a: Seq<char>, b: Seq<char>| text_le(a, b) || text_le(b, a) by {
        lemma_text_le_total(a, b);
    }
    assert forall|a: Seq<char>, b: Seq<char>, c: Seq<char>| text_le(a, b) && text_le(b, c) implies text_le(a, c) by {
        lemma_text_le_trans(a, b, c);
    }
}

proof fn lemma_text_le_total(a: Seq<char>, b: Seq<char>)
    ensures
        text_le(a, b) || text_le(b, a),
    decreases a.len(),
{
    if a.len() > 0 && b.len() > 0 && a[0] == b[0] {
        lemma_text_le_total(a.drop_first(), b.drop_first());
    }
}

proof fn lemma_text_le_trans(a: Seq<char>, b: Seq<char>, c: Seq<char>)
    requires
        text_le(a, b),
        text_le(b, c),
    ensures
        text_le(a, c),
    decreases a.len(),
{
    if a.len() > 0 && b.len() > 0 && c.len() > 0 && a[0] == b[0] && b[0] == c[0] {
        lemma_text_le_trans(a.drop_first(), b.drop_first(), c.drop_first());
    }
}

/// One conclusion drawn from the evidence.
pub struct SeoInsight {
    pub level: String,
    pub title: String,
    pub detail: String,
}

pub open spec fn insight_view(i: SeoInsight) -> (Seq<char>, Seq<char>, Seq<char>) {
    (i.level@, i.title@, i.detail@)
}

/// What the report concludes: always that discovery is not verification;
/// then the backlink prospects, the reputation results and the most
/// visible source, each only when there is any.
pub open spec fn spec_insights(potential: int, reputation: int, strongest: Option<(Seq<char>, int)>) -> Seq<(Seq<char>, Seq<char>, Seq<char>)> {
    let first = seq![("info"@, "Discovery, not link verification"@,
        "Search results prove index visibility or a mention. Open the source page before treating it as a confirmed live backlink."@)];
    let a = if potential > 0 {
        first.push(("positive"@, "Backlink prospects found"@,
            decimal(potential as nat) + " external pages are candidates for manual or automated link verification."@))
    } else {
        first
    };
    let b = if reputation > 0 {
        a.push(("warning"@, "Reputation results need review"@, decimal(reputation as nat)
            + " review/complaint-oriented results were found; sentiment is not inferred from snippets alone."@))
    } else {
        a
    };
    match strongest {
        Some((d, c)) => b.push(("info"@, "Most visible source"@,
            "The most frequently discovered external domain is "@ + d + " ("@ + decimal(c as nat) + ")."@)),
        None => b,
    }
}

fn insight(level: &str, title: &str, detail: Vec<char>) -> (i: SeoInsight)
    ensures
        insight_view(i) == (level@, title@, detail@),
{
    SeoInsight { level: text(level), title: text(title), detail: string_of(&detail) }
}

pub fn insights(potential: usize, reputation: usize, strongest: &Option<(String, usize)>) -> (r: Vec<SeoInsight>)
    ensures
        r@.map_values(|i: SeoInsight| insight_view(i)) == spec_insights(potential as int, reputation as int,
            match strongest { Some((d, c)) => Some((d@, *c as int)), None => None }),
{
    let mut r: Vec<SeoInsight> = Vec::new();
    r.push(insight("info", "Discovery, not link verification", chars_of(
        "Search results prove index visibility or a mention. Open the source page before treating it as a confirmed live backlink.")));
    let ghost v1 = r@.map_values(|i: SeoInsight| insight_view(i));
    if potential > 0 {
        let mut d = decimal_chars(potential as u128);
        append_str(&mut d, " external pages are candidates for manual or automated link verification.");
        r.push(insight("positive", "Backlink prospects found", d));
    }
    let ghost v2 = r@.map_values(|i: SeoInsight| insight_view(i));
    if reputation > 0 {
        let mut d = decimal_chars(reputation as u128);
        append_str(&mut d, " review/complaint-oriented results were found; sentiment is not inferred from snippets alone.");
        r.push(insight("warning", "Reputation results need review", d));
    }
    match strongest {
        Some((name, count)) => {
            let mut d = chars_of("The most frequently discovered external domain is ");
            append_str(&mut d, name.as_str());
            append_str(&mut d, " (");
            append_chars(&mut d, &decimal_chars(*count as u128));
            append_str(&mut d, ").");
            r.push(insight("info", "Most visible source", d));
        },
        None => {},
    }
    assert(r@.map_values(|i: SeoInsight| insight_view(i)) =~= spec_insights(potential as int, reputation as int,
        match strongest { Some((d, c)) => Some((d@, *c as int)), None => None }));
    r
}

/// A discovery run as the window asks for it.
pub struct SeoDiscoveryRequest {
    pub provider: String,
    pub api_key: String,
    pub google_cx: String,
    pub targets: Vec<SeoTarget>,
    pub country: String,
    pub results_per_query: u8,
}

impl SeoDiscoveryRequest {
    /// Refuse the request before any search, as `validate_request` says.
    pub fn check(&self) -> (r: Result<(), String>)
        ensures
            match r {
                Ok(()) => spec_validate_request(self.provider@, self.api_key@, self.google_cx@, self.targets@.len() as int) is None,
                Err(m) => spec_validate_request(self.provider@, self.api_key@, self.google_cx@, self.targets@.len() as int) == Some(m@),
            },
    {
        validate_request(self.provider.as_str(), self.api_key.as_str(), self.google_cx.as_str(), self.targets.len())
    }
}

/// What a discovery run reports.
pub struct SeoDiscoveryReport {
    pub provider: String,
    pub generated_at: String,
    pub queries: Vec<SeoQuery>,
    pub evidence: Vec<SeoEvidence>,
    pub insights: Vec<SeoInsight>,
    pub unique_source_domains: usize,
    pub potential_backlinks: usize,
    pub brand_mentions: usize,
    pub reputation_mentions: usize,
}

/// The report over the queries made and the evidence taken: the counts by
/// kind, the distinct sources, and the insights drawn from them.
pub fn discovery_report(provider: String, generated_at: String, queries: Vec<SeoQuery>, evidence: Vec<SeoEvidence>)
    -> (r: SeoDiscoveryReport)
    ensures
        r.provider@ == provider@,
        r.generated_at@ == generated_at@,
        r.queries@ == queries@,
        r.evidence@ == evidence@,
        r.unique_source_domains == evidence_domains(evidence@).len(),
        r.potential_backlinks == count_type(evidence@, "potential_backlink"@),
        r.brand_mentions == count_type(evidence@, "brand_mention"@),
        r.reputation_mentions == count_type(evidence@, "reputation_mention"@),
        (evidence_domains(evidence@) == Set::<Seq<char>>::empty()
            && r.insights@.map_values(|i: SeoInsight| insight_view(i))
                == spec_insights(r.potential_backlinks as int, r.reputation_mentions as int, None))
        || (exists|d: Seq<char>, c: int| is_strongest(evidence@, d, c)
            && r.insights@.map_values(|i: SeoInsight| insight_view(i))
                == spec_insights(r.potential_backlinks as int, r.reputation_mentions as int, Some((d, c)))),
{
    let unique_source_domains = unique_sources(&evidence);
    let potential_backlinks = count_evidence(&evidence, "potential_backlink");
    let brand_mentions = count_evidence(&evidence, "brand_mention");
    let reputation_mentions = count_evidence(&evidence, "reputation_mention");
    let strongest = strongest_source(&evidence);
    let insights = insights(potential_backlinks, reputation_mentions, &strongest);
    proof {
        match strongest {
            Some((d, c)) => {
                assert(is_strongest(evidence@, d@, c as int));
            },
            None => {},
        }
    }
    SeoDiscoveryReport {
        provider, generated_at, queries, evidence, insights,
        unique_source_domains, potential_backlinks, brand_mentions, reputation_mentions,
    }
}

} // verus!
