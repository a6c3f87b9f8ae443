//! Reverse domain name notation: Common Crawl stores `example.com` as
//! `com.example`. Also the clean-up of messy user input down to a hostname.

use vstd::prelude::*;
use crate::text::{is_space, chars_of, string_of, lower_chars, first_in, last_in, lemma_first_in, lemma_last_in, trim, lower, slice_chars, trim_chars,
    lemma_first_in_found, lemma_last_in_found, lemma_trim_piece, is_ascii_upper, ascii_lower};

verus! {

// ---------------------------------------------------------------------------
// Predicates on positions of a character sequence
// ---------------------------------------------------------------------------

pub open spec fn scheme_sep_at(s: Seq<char>) -> spec_fn(int) -> bool {
    |i: int| 0 <= i && i + 2 < s.len() && s[i] == ':' && s[i + 1] == '/' && s[i + 2] == '/'
}

pub open spec fn path_start_at(s: Seq<char>) -> spec_fn(int) -> bool {
    |i: int| 0 <= i < s.len() && (s[i] == '/' || s[i] == '?' || s[i] == '#' || s[i] == '\\')
}

pub open spec fn char_at(s: Seq<char>, c: char) -> spec_fn(int) -> bool {
    |i: int| 0 <= i < s.len() && s[i] == c
}

// ---------------------------------------------------------------------------
// The steps of `normalize_domain`, each on the result of the previous one
// ---------------------------------------------------------------------------

pub open spec fn is_quote(c: char) -> bool {
    c == '"' || c == '\''
}

/// Surrounding quotes dropped (and what they enclosed trimmed again).
/// A lone quote leaves nothing.
pub open spec fn unquote(s: Seq<char>) -> Seq<char> {
    if s.len() >= 2 && ((s[0] == '"' && s.last() == '"') || (s[0] == '\'' && s.last() == '\'')) {
        trim(s.subrange(1, s.len() - 1))
    } else if s.len() == 1 && is_quote(s[0]) {
        Seq::empty()
    } else {
        s
    }
}

/// Everything up to the first `://` dropped, or a leading `//`.
pub open spec fn strip_scheme(s: Seq<char>) -> Seq<char> {
    match first_in(0, s.len() as int, scheme_sep_at(s)) {
        Some(p) => s.subrange(p + 3, s.len() as int),
        None => if s.len() >= 2 && s[0] == '/' && s[1] == '/' {
            s.subrange(2, s.len() as int)
        } else {
            s
        },
    }
}

/// Path, query and fragment dropped: cut at the first `/`, `?`, `#` or `\`.
pub open spec fn cut_path(s: Seq<char>) -> Seq<char> {
    match first_in(0, s.len() as int, path_start_at(s)) {
        Some(p) => s.subrange(0, p),
        None => s,
    }
}

/// `user:pass@` dropped: everything up to the last `@`.
pub open spec fn drop_userinfo(s: Seq<char>) -> Seq<char> {
    match last_in(0, s.len() as int, char_at(s, '@')) {
        Some(p) => s.subrange(p + 1, s.len() as int),
        None => s,
    }
}

/// `:443` dropped, but only when there is exactly one colon (IPv6 is left alone).
pub open spec fn drop_port(s: Seq<char>) -> Seq<char> {
    match last_in(0, s.len() as int, char_at(s, ':')) {
        Some(p) => if first_in(0, s.len() as int, char_at(s, ':')) == Some(p) {
            s.subrange(0, p)
        } else {
            s
        },
        None => s,
    }
}

/// Trailing dots dropped.
pub open spec fn trim_dots(s: Seq<char>) -> Seq<char>
    decreases s.len(),
{
    if s.len() > 0 && s.last() == '.' { trim_dots(s.drop_last()) } else { s }
}

/// One leading `www.` dropped.
pub open spec fn strip_www(s: Seq<char>) -> Seq<char> {
    if s.len() >= 4 && s[0] == 'w' && s[1] == 'w' && s[2] == 'w' && s[3] == '.' {
        s.subrange(4, s.len() as int)
    } else {
        s
    }
}

/// The bare hostname `normalize_domain` makes of `input`.
pub open spec fn spec_normalize(input: Seq<char>) -> Seq<char> {
    strip_www(trim_dots(drop_port(drop_userinfo(cut_path(strip_scheme(unquote(lower(trim(input)))))))))
}

fn unquote_chars(v: Vec<char>) -> (r: Vec<char>)
    ensures
        r@ == unquote(v@),
{
    let n = v.len();
    if n == 1 && (v[0] == '"' || v[0] == '\'') {
        Vec::new()
    } else if n >= 2 && ((v[0] == '"' && v[n - 1] == '"') || (v[0] == '\'' && v[n - 1] == '\'')) {
        let inner = slice_chars(&v, 1, n - 1);
        trim_chars(&inner)
    } else {
        v
    }
}

fn strip_scheme_chars(v: Vec<char>) -> (r: Vec<char>)
    ensures
        r@ == strip_scheme(v@),
{
    let n = v.len();
    let ghost p = scheme_sep_at(v@);
    let mut i: usize = 0;
    while n - i > 2 && !(v[i] == ':' && v[i + 1] == '/' && v[i + 2] == '/')
        invariant
            i <= n == v@.len(),
            p == scheme_sep_at(v@),
            forall|j: int| 0 <= j < i ==> !#[trigger] p(j),
        decreases n - i,
    {
        i = i + 1;
    }
    if n - i > 2 {
        proof {
            lemma_first_in(0, n as int, p, i as int);
        }
        slice_chars(&v, i + 3, n)
    } else {
        proof {
            assert forall|j: int| 0 <= j < n implies !#[trigger] p(j) by {}
            lemma_first_in(0, n as int, p, n as int);
        }
        if n >= 2 && v[0] == '/' && v[1] == '/' {
            slice_chars(&v, 2, n)
        } else {
            v
        }
    }
}

fn cut_path_chars(v: Vec<char>) -> (r: Vec<char>)
    ensures
        r@ == cut_path(v@),
{
    let n = v.len();
    let ghost p = path_start_at(v@);
    let mut i: usize = 0;
    while i < n && !(v[i] == '/' || v[i] == '?' || v[i] == '#' || v[i] == '\\')
        invariant
            i <= n == v@.len(),
            p == path_start_at(v@),
            forall|j: int| 0 <= j < i ==> !#[trigger] p(j),
        decreases n - i,
    {
        i = i + 1;
    }
    proof {
        lemma_first_in(0, n as int, p, i as int);
    }
    if i < n {
        slice_chars(&v, 0, i)
    } else {
        v
    }
}

/// Last position of `c` in `v`, as `last_in` finds it.
fn last_of(v: &Vec<char>, c: char) -> (r: Option<usize>)
    ensures
        match r {
            Some(i) => i < v@.len() && last_in(0, v@.len() as int, char_at(v@, c)) == Some(i as int),
            None => last_in(0, v@.len() as int, char_at(v@, c)) == None::<int>,
        },
{
    let n = v.len();
    let ghost p = char_at(v@, c);
    let mut i: usize = n;
    while i > 0 && v[i - 1] != c
        invariant
            i <= n == v@.len(),
            p == char_at(v@, c),
            forall|j: int| i <= j < n ==> !#[trigger] p(j),
        decreases i,
    {
        i = i - 1;
    }
    proof {
        lemma_last_in(0, n as int, p, i - 1);
    }
    if i > 0 { Some(i - 1) } else { None }
}

/// First position of `c` in `v`, as `first_in` finds it.
fn first_of(v: &Vec<char>, c: char) -> (r: Option<usize>)
    ensures
        match r {
            Some(i) => i < v@.len() && first_in(0, v@.len() as int, char_at(v@, c)) == Some(i as int),
            None => first_in(0, v@.len() as int, char_at(v@, c)) == None::<int>,
        },
{
    let n = v.len();
    let ghost p = char_at(v@, c);
    let mut i: usize = 0;
    while i < n && v[i] != c
        invariant
            i <= n == v@.len(),
            p == char_at(v@, c),
            forall|j: int| 0 <= j < i ==> !#[trigger] p(j),
        decreases n - i,
    {
        i = i + 1;
    }
    proof {
        lemma_first_in(0, n as int, p, i as int);
    }
    if i < n { Some(i) } else { None }
}

fn drop_userinfo_chars(v: Vec<char>) -> (r: Vec<char>)
    ensures
        r@ == drop_userinfo(v@),
{
    match last_of(&v, '@') {
        Some(p) => {
            let n = v.len();
            assert(p < n);
            slice_chars(&v, p + 1, n)
        },
        None => v,
    }
}

fn drop_port_chars(v: Vec<char>) -> (r: Vec<char>)
    ensures
        r@ == drop_port(v@),
{
    match last_of(&v, ':') {
        Some(p) => {
            match first_of(&v, ':') {
                Some(q) => if q == p { slice_chars(&v, 0, p) } else { v },
                None => v,
            }
        },
        None => v,
    }
}

fn trim_dots_chars(v: Vec<char>) -> (r: Vec<char>)
    ensures
        r@ == trim_dots(v@),
{
    let ghost orig = v@;
    let mut v = v;
    while v.len() > 0 && v[v.len() - 1] == '.'
        invariant
            trim_dots(v@) == trim_dots(orig),
        decreases v.len(),
    {
        v.pop();
    }
    v
}


fn strip_www_chars(v: Vec<char>) -> (r: Vec<char>)
    ensures
        r@ == strip_www(v@),
{
    if v.len() >= 4 && v[0] == 'w' && v[1] == 'w' && v[2] == 'w' && v[3] == '.' {
        slice_chars(&v, 4, v.len())
    } else {
        v
    }
}

/// Strip a messy user input down to a bare hostname:
/// `https://www.Example.com/path?q=1` becomes `example.com`,
/// `example.com.` becomes `example.com`, `//cdn.example.com` becomes `cdn.example.com`.
pub fn normalize_domain(input: &str) -> (r: String)
    ensures
        r@ == spec_normalize(input@),
{
    let v = chars_of(input);
    let v = trim_chars(&v);
    let v = lower_chars(&v);
    let v = unquote_chars(v);
    let v = strip_scheme_chars(v);
    let v = cut_path_chars(v);
    let v = drop_userinfo_chars(v);
    let v = drop_port_chars(v);
    let v = trim_dots_chars(v);
    let v = strip_www_chars(v);
    string_of(&v)
}

// ---------------------------------------------------------------------------
// Labels
// ---------------------------------------------------------------------------

/// `str::split(c)`: the pieces between occurrences of `c`, empty ones included.
pub open spec fn split_by(s: Seq<char>, c: char) -> Seq<Seq<char>>
    decreases s.len(),
{
    if s.len() == 0 {
        seq![Seq::empty()]
    } else {
        let r = split_by(s.drop_last(), c);
        if s.last() == c {
            r.push(Seq::empty())
        } else {
            r.update(r.len() - 1, r.last().push(s.last()))
        }
    }
}

pub open spec fn is_label() -> spec_fn(Seq<char>) -> bool {
    |l: Seq<char>| l.len() > 0
}

/// The non-empty pieces of `s` between dots.
pub open spec fn labels(s: Seq<char>) -> Seq<Seq<char>> {
    split_by(s, '.').filter(is_label())
}

/// `parts` joined with `c` between neighbours.
pub open spec fn join(parts: Seq<Seq<char>>, c: char) -> Seq<char>
    decreases parts.len(),
{
    if parts.len() == 0 {
        Seq::empty()
    } else if parts.len() == 1 {
        parts[0]
    } else {
        join(parts.drop_last(), c).push(c) + parts.last()
    }
}

/// The non-empty labels of `s` in reverse order, joined with dots.
pub open spec fn reversed_labels(s: Seq<char>) -> Seq<char> {
    join(labels(s).reverse(), '.')
}

/// What `to_reverse` returns for `domain`.
pub open spec fn spec_to_reverse(domain: Seq<char>) -> Seq<char> {
    reversed_labels(spec_normalize(domain))
}

/// What `from_reverse` returns for `rev`.
pub open spec fn spec_from_reverse(rev: Seq<char>) -> Seq<char> {
    reversed_labels(trim_dots(trim(rev)))
}

proof fn lemma_split_nonempty(s: Seq<char>, c: char)
    ensures
        split_by(s, c).len() >= 1,
    decreases s.len(),
{
    if s.len() > 0 {
        lemma_split_nonempty(s.drop_last(), c);
    }
}

/// Labels of `v`, reversed and joined with dots.
fn reverse_labels_chars(v: &Vec<char>) -> (r: Vec<char>)
    ensures
        r@ == reversed_labels(v@),
{
    let n = v.len();
    let mut found: Vec<Vec<char>> = Vec::new();
    let ghost mut g: Seq<Seq<char>> = Seq::empty();
    let ghost mut f: Seq<Seq<char>> = Seq::empty();
    let mut cur: Vec<char> = Vec::new();
    let mut i: usize = 0;
    assert(v@.subrange(0, 0) =~= Seq::<char>::empty());
    assert(split_by(Seq::<char>::empty(), '.') =~= g.push(cur@));
    while i < n
        invariant
            i <= n == v@.len(),
            split_by(v@.subrange(0, i as int), '.') == g.push(cur@),
            f == g.filter(is_label()),
            found@.len() == f.len(),
            forall|k: int| 0 <= k < f.len() ==> (#[trigger] found@[k])@ == f[k],
        decreases n - i,
    {
        let ch = v[i];
        let ghost prefix = v@.subrange(0, i + 1);
        assert(prefix.drop_last() =~= v@.subrange(0, i as int));
        if ch == '.' {
            proof {
                g.lemma_filter_push(cur@, is_label());
            }
            if cur.len() > 0 {
                proof {
                    f = f.push(cur@);
                }
                found.push(cur);
            }
            proof {
                g = g.push(cur@);
            }
            cur = Vec::new();
            assert(split_by(prefix, '.') =~= g.push(cur@));
        } else {
            cur.push(ch);
            assert(split_by(prefix, '.') =~= g.push(cur@));
        }
        i = i + 1;
    }
    proof {
        assert(v@.subrange(0, n as int) =~= v@);
        g.lemma_filter_push(cur@, is_label());
    }
    if cur.len() > 0 {
        proof {
            f = f.push(cur@);
        }
        found.push(cur);
    }
    assert(labels(v@) == f);
    // join the labels back to front
    let mut out: Vec<char> = Vec::new();
    let m = found.len();
    let ghost rf = f.reverse();
    let mut k: usize = 0;
    assert(join(rf.subrange(0, 0), '.') =~= Seq::<char>::empty());
    while k < m
        invariant
            k <= m == found@.len() == f.len() == rf.len(),
            rf == f.reverse(),
            forall|j: int| 0 <= j < f.len() ==> (#[trigger] found@[j])@ == f[j],
            out@ == join(rf.subrange(0, k as int), '.'),
        decreases m - k,
    {
        let piece = &found[m - 1 - k];
        assert(piece@ == rf[k as int]);
        if k > 0 {
            out.push('.');
        }
        let mut t: usize = 0;
        let ghost base = out@;
        while t < piece.len()
            invariant
                t <= piece@.len(),
                out@ == base + piece@.subrange(0, t as int),
            decreases piece.len() - t,
        {
            out.push(piece[t]);
            proof {
                assert(base + piece@.subrange(0, t + 1) =~= (base + piece@.subrange(0, t as int)).push(piece@[t as int]));
            }
            t = t + 1;
        }
        proof {
            assert(piece@.subrange(0, t as int) =~= piece@);
            let nx = rf.subrange(0, k + 1);
            assert(nx.drop_last() =~= rf.subrange(0, k as int));
            if k == 0 {
                assert(out@ =~= nx[0]);
            } else {
                assert(out@ =~= join(nx.drop_last(), '.').push('.') + nx.last());
            }
        }
        k = k + 1;
    }
    assert(rf.subrange(0, m as int) =~= rf);
    out
}

/// Convert a normal domain (`example.com`) to reverse notation (`com.example`).
/// The input may be a full URL: it is normalized first.
pub fn to_reverse(domain: &str) -> (r: String)
    ensures
        r@ == spec_to_reverse(domain@),
{
    let n = normalize_domain(domain);
    let v = chars_of(n.as_str());
    let r = reverse_labels_chars(&v);
    string_of(&r)
}

/// What `to_reverse_keeping_www` returns for `domain`.
pub open spec fn spec_to_reverse_keeping_www(domain: Seq<char>) -> Seq<char> {
    reversed_labels(lower(trim_dots(trim(domain))))
}

/// Reverse notation of a plain host name taken as it stands: trimmed,
/// trailing dots dropped, ASCII lowered, labels reversed, empty labels
/// dropped, and nothing else removed, so a `www.` label is kept
/// (`WWW.Example.COM` becomes `com.example.www`).
pub fn to_reverse_keeping_www(domain: &str) -> (r: String)
    ensures
        r@ == spec_to_reverse_keeping_www(domain@),
{
    let v = chars_of(domain);
    let v = trim_chars(&v);
    let v = trim_dots_chars(v);
    let v = lower_chars(&v);
    let r = reverse_labels_chars(&v);
    string_of(&r)
}

/// Convert reverse notation (`com.example`) back to a normal domain (`example.com`).
pub fn from_reverse(rev: &str) -> (r: String)
    ensures
        r@ == spec_from_reverse(rev@),
{
    let v = chars_of(rev);
    let v = trim_chars(&v);
    let v = trim_dots_chars(v);
    let r = reverse_labels_chars(&v);
    string_of(&r)
}

pub open spec fn unsafe_in_file_name(c: char) -> bool {
    c == '/' || c == '\\' || c == ':' || c == '*' || c == '?' || c == '"' || c == '<' || c == '>' || c == '|'
}

/// The file name stem made of a reverse domain: every character awkward in a
/// file name becomes `_`.
pub open spec fn spec_reverse_to_filename(rev: Seq<char>) -> Seq<char> {
    rev.map_values(|c: char| if unsafe_in_file_name(c) { '_' } else { c })
}

/// Safe filename stem from a reverse domain.
pub fn reverse_to_filename(rev: &str) -> (r: String)
    ensures
        r@ == spec_reverse_to_filename(rev@),
{
    let v = chars_of(rev);
    let mut out: Vec<char> = Vec::new();
    let mut i: usize = 0;
    while i < v.len()
        invariant
            i <= v@.len(),
            out@ == spec_reverse_to_filename(v@.subrange(0, i as int)),
        decreases v.len() - i,
    {
        let c = v[i];
        let d = if c == '/' || c == '\\' || c == ':' || c == '*' || c == '?' || c == '"' || c == '<'
            || c == '>' || c == '|' {
            '_'
        } else {
            c
        };
        out.push(d);
        proof {
            assert(spec_reverse_to_filename(v@.subrange(0, i + 1)) =~= spec_reverse_to_filename(v@.subrange(0, i as int)).push(d));
        }
        i = i + 1;
    }
    assert(v@.subrange(0, i as int) =~= v@);
    string_of(&out)
}


// ---------------------------------------------------------------------------
// The round trip: from_reverse undoes to_reverse
// ---------------------------------------------------------------------------

/// A piece that neither contains `c` nor any white space.
pub open spec fn clean_piece(p: Seq<char>, c: char) -> bool {
    forall|j: int| 0 <= j < p.len() ==> p[j] != c && !is_space(#[trigger] p[j])
}

proof fn lemma_split_clean(s: Seq<char>, c: char)
    requires
        forall|i: int| 0 <= i < s.len() ==> !is_space(#[trigger] s[i]),
    ensures
        forall|k: int| 0 <= k < split_by(s, c).len() ==> clean_piece(#[trigger] split_by(s, c)[k], c),
    decreases s.len(),
{
    lemma_split_nonempty(s, c);
    if s.len() > 0 {
        let t = s.drop_last();
        assert forall|i: int| 0 <= i < t.len() implies !is_space(#[trigger] t[i]) by {
            assert(t[i] == s[i]);
        }
        lemma_split_clean(t, c);
        lemma_split_nonempty(t, c);
        let r = split_by(t, c);
        if s.last() != c {
            let last = r.last().push(s.last());
            assert(clean_piece(r[r.len() - 1], c));
            assert forall|j: int| 0 <= j < last.len() implies last[j] != c && !is_space(#[trigger] last[j]) by {
                if j < last.len() - 1 {
                    assert(last[j] == r[r.len() - 1][j]);
                }
            }
        }
    }
}

proof fn lemma_filter_keeps(ps: Seq<Seq<char>>, c: char)
    requires
        forall|k: int| 0 <= k < ps.len() ==> clean_piece(#[trigger] ps[k], c),
    ensures
        forall|k: int| 0 <= k < ps.filter(is_label()).len() ==> clean_piece(#[trigger] ps.filter(is_label())[k], c)
            && ps.filter(is_label())[k].len() > 0,
    decreases ps.len(),
{
    if ps.len() > 0 {
        let t = ps.drop_last();
        assert(t.push(ps.last()) =~= ps);
        assert forall|k: int| 0 <= k < t.len() implies clean_piece(#[trigger] t[k], c) by {
            assert(t[k] == ps[k]);
        }
        lemma_filter_keeps(t, c);
        t.lemma_filter_push(ps.last(), is_label());
        assert(clean_piece(ps[ps.len() - 1], c));
    } else {
        assert(ps.filter(is_label()) =~= Seq::<Seq<char>>::empty()) by {
            reveal(Seq::filter);
        }
    }
}

proof fn lemma_filter_all_labels(ps: Seq<Seq<char>>)
    requires
        forall|k: int| 0 <= k < ps.len() ==> (#[trigger] ps[k]).len() > 0,
    ensures
        ps.filter(is_label()) == ps,
    decreases ps.len(),
{
    if ps.len() > 0 {
        let t = ps.drop_last();
        assert(t.push(ps.last()) =~= ps);
        assert forall|k: int| 0 <= k < t.len() implies (#[trigger] t[k]).len() > 0 by {
            assert(t[k] == ps[k]);
        }
        lemma_filter_all_labels(t);
        t.lemma_filter_push(ps.last(), is_label());
    } else {
        assert(ps.filter(is_label()) =~= ps) by {
            reveal(Seq::filter);
        }
    }
}

proof fn lemma_split_append(x: Seq<char>, y: Seq<char>, c: char)
    requires
        forall|j: int| 0 <= j < y.len() ==> y[j] != c,
    ensures
        split_by(x + y, c) == split_by(x, c).update(split_by(x, c).len() - 1, split_by(x, c).last() + y),
    decreases y.len(),
{
    lemma_split_nonempty(x, c);
    let sx = split_by(x, c);
    if y.len() == 0 {
        assert(x + y =~= x);
        assert(sx.last() + y =~= sx.last());
        assert(sx.update(sx.len() - 1, sx.last()) =~= sx);
    } else {
        let y0 = y.drop_last();
        lemma_split_append(x, y0, c);
        assert((x + y).drop_last() =~= x + y0);
        assert((x + y).last() == y.last());
        lemma_split_nonempty(x + y0, c);
        let r = split_by(x + y0, c);
        assert(r.last() == sx.last() + y0);
        assert(r.last().push(y.last()) =~= sx.last() + y);
        assert(r.update(r.len() - 1, r.last().push(y.last())) =~= sx.update(sx.len() - 1, sx.last() + y));
    }
}

proof fn lemma_split_join(ps: Seq<Seq<char>>, c: char)
    requires
        ps.len() >= 1,
        forall|k: int| 0 <= k < ps.len() ==> clean_piece(#[trigger] ps[k], c),
    ensures
        split_by(join(ps, c), c) == ps,
    decreases ps.len(),
{
    if ps.len() == 1 {
        let e = Seq::<char>::empty();
        assert(clean_piece(ps[0], c));
        lemma_split_append(e, ps[0], c);
        assert(e + ps[0] =~= ps[0]);
        assert(split_by(e, c) =~= seq![e]);
        assert(seq![e].update(0, e + ps[0]) =~= ps);
    } else {
        let t = ps.drop_last();
        assert forall|k: int| 0 <= k < t.len() implies clean_piece(#[trigger] t[k], c) by {
            assert(t[k] == ps[k]);
        }
        lemma_split_join(t, c);
        let jt = join(t, c).push(c);
        assert(jt.drop_last() =~= join(t, c));
        assert(split_by(jt, c) == t.push(Seq::<char>::empty()));
        assert(clean_piece(ps[ps.len() - 1], c));
        lemma_split_append(jt, ps.last(), c);
        let st = t.push(Seq::<char>::empty());
        assert(st.last() + ps.last() =~= ps.last());
        assert(st.update(st.len() - 1, ps.last()) =~= ps);
    }
}

proof fn lemma_join_ends(ps: Seq<Seq<char>>, c: char)
    requires
        ps.len() >= 1,
        forall|k: int| 0 <= k < ps.len() ==> (#[trigger] ps[k]).len() > 0,
    ensures
        join(ps, c).len() > 0,
        join(ps, c)[0] == ps[0][0],
        join(ps, c).last() == ps.last().last(),
    decreases ps.len(),
{
    if ps.len() > 1 {
        let t = ps.drop_last();
        assert forall|k: int| 0 <= k < t.len() implies (#[trigger] t[k]).len() > 0 by {
            assert(t[k] == ps[k]);
        }
        lemma_join_ends(t, c);
        assert(ps[ps.len() - 1].len() > 0);
    }
}

proof fn lemma_trim_clean(s: Seq<char>)
    requires
        s.len() == 0 || (!is_space(s[0]) && !is_space(s.last())),
    ensures
        trim(s) == s,
{
}

/// Reversing the labels of a reversed name gives back the labels joined in
/// the order they came in, for any name free of white space.
pub proof fn lemma_reversed_labels_twice(s: Seq<char>)
    requires
        forall|i: int| 0 <= i < s.len() ==> !is_space(#[trigger] s[i]),
    ensures
        spec_from_reverse(reversed_labels(s)) == join(labels(s), '.'),
{
    let ls = labels(s);
    lemma_split_clean(s, '.');
    lemma_filter_keeps(split_by(s, '.'), '.');
    let rl = ls.reverse();
    assert forall|k: int| 0 <= k < rl.len() implies clean_piece(#[trigger] rl[k], '.') && rl[k].len() > 0 by {
        assert(rl[k] == ls[ls.len() - 1 - k]);
    }
    let r = join(rl, '.');
    if ls.len() == 0 {
        assert(r =~= Seq::<char>::empty());
        assert(trim(r) =~= r);
        assert(split_by(r, '.') =~= seq![Seq::<char>::empty()]);
        let e = seq![Seq::<char>::empty()];
        assert(e.filter(is_label()) =~= Seq::<Seq<char>>::empty()) by {
            Seq::<Seq<char>>::empty().lemma_filter_push(Seq::<char>::empty(), is_label());
            assert(Seq::<Seq<char>>::empty().push(Seq::<char>::empty()) =~= e);
            reveal(Seq::filter);
        }
        assert(ls.reverse() =~= Seq::<Seq<char>>::empty());
    } else {
        assert forall|k: int| 0 <= k < rl.len() implies (#[trigger] rl[k]).len() > 0 by {}
        lemma_join_ends(rl, '.');
        assert(clean_piece(rl[0], '.'));
        assert(clean_piece(rl[rl.len() - 1], '.'));
        assert(rl[0].len() > 0 && rl[rl.len() - 1].len() > 0);
        assert(!is_space(rl[0][0]));
        assert(!is_space(rl.last()[rl.last().len() - 1]));
        lemma_trim_clean(r);
        assert(r.last() != '.');
        assert(trim_dots(r) == r);
        lemma_split_join(rl, '.');
        assert forall|k: int| 0 <= k < rl.len() implies (#[trigger] rl[k]).len() > 0 by {}
        lemma_filter_all_labels(rl);
        assert(labels(r) == rl);
        assert(rl.reverse() =~= ls);
    }
}

/// Lengthening the last piece lengthens the joined text by the same.
proof fn lemma_join_extend(ps: Seq<Seq<char>>, y: Seq<char>, c: char)
    requires
        ps.len() >= 1,
    ensures
        join(ps.update(ps.len() - 1, ps.last() + y), c) == join(ps, c) + y,
{
    let qs = ps.update(ps.len() - 1, ps.last() + y);
    if ps.len() == 1 {
        assert(qs[0] == ps[0] + y);
    } else {
        assert(qs.drop_last() =~= ps.drop_last());
        assert(qs.last() == ps.last() + y);
        assert(join(ps.drop_last(), c).push(c) + (ps.last() + y) =~= (join(ps.drop_last(), c).push(c) + ps.last()) + y);
    }
}

/// Joining the pieces between the occurrences of `c` with `c` gives the
/// text back.
proof fn lemma_join_split(s: Seq<char>, c: char)
    ensures
        join(split_by(s, c), c) == s,
    decreases s.len(),
{
    if s.len() == 0 {
        assert(split_by(s, c) =~= seq![Seq::<char>::empty()]);
        assert(s =~= Seq::<char>::empty());
    } else {
        let t = s.drop_last();
        lemma_join_split(t, c);
        lemma_split_nonempty(t, c);
        let r = split_by(t, c);
        if s.last() == c {
            let q = r.push(Seq::<char>::empty());
            assert(q.drop_last() =~= r);
            assert(join(q, c) =~= join(r, c).push(c) + Seq::<char>::empty());
            assert(t.push(c) =~= s);
        } else {
            lemma_join_extend(r, seq![s.last()], c);
            assert(r.last().push(s.last()) =~= r.last() + seq![s.last()]);
            assert(t + seq![s.last()] =~= s);
        }
    }
}

/// `from_reverse(to_reverse(d)) == d` for a name already normalized, free
/// of white space and without empty labels; and `from_reverse("")` is empty.
pub proof fn lemma_reverse_round_trip_exact(d: Seq<char>)
    requires
        spec_normalize(d) == d,
        forall|i: int| 0 <= i < d.len() ==> !is_space(#[trigger] d[i]),
        forall|k: int| 0 <= k < split_by(d, '.').len() ==> (#[trigger] split_by(d, '.')[k]).len() > 0,
    ensures
        spec_from_reverse(spec_to_reverse(d)) == d,
        spec_from_reverse(Seq::empty()) == Seq::<char>::empty(),
{
    lemma_reversed_labels_twice(d);
    lemma_filter_all_labels(split_by(d, '.'));
    lemma_join_split(d, '.');
    assert(spec_from_reverse(Seq::empty()) =~= Seq::<char>::empty()) by {
        let e = Seq::<char>::empty();
        assert(trim(e) =~= e);
        assert(trim_dots(e) =~= e);
        lemma_reversed_labels_twice(e);
        assert(split_by(e, '.') =~= seq![e]);
        assert(seq![e].filter(is_label()) =~= Seq::<Seq<char>>::empty()) by {
            Seq::<Seq<char>>::empty().lemma_filter_push(e, is_label());
            assert(Seq::<Seq<char>>::empty().push(e) =~= seq![e]);
            reveal(Seq::filter);
        }
        assert(labels(e) =~= Seq::<Seq<char>>::empty());
        assert(labels(e).reverse() =~= Seq::<Seq<char>>::empty());
    }
}

/// `from_reverse(to_reverse(d))` is the normalized `d` with empty labels
/// dropped, whenever the normalized name holds no white space.
pub proof fn lemma_reverse_round_trip(domain: Seq<char>)
    requires
        forall|i: int| 0 <= i < spec_normalize(domain).len() ==> !is_space(#[trigger] spec_normalize(domain)[i]),
    ensures
        spec_from_reverse(spec_to_reverse(domain)) == join(labels(spec_normalize(domain)), '.'),
{
    lemma_reversed_labels_twice(spec_normalize(domain));
}


// ---------------------------------------------------------------------------
// What a normalized name looks like
// ---------------------------------------------------------------------------

/// `x` is a run of consecutive characters of `y`.
pub open spec fn is_piece(x: Seq<char>, y: Seq<char>) -> bool {
    exists|a: int, b: int| 0 <= a <= b <= y.len() && x == y.subrange(a, b)
}

/// `s` holds `c` at `i`.
pub open spec fn holds_at(s: Seq<char>, c: char, i: int) -> bool {
    0 <= i < s.len() && s[i] == c
}

/// `s` holds `c` at `j` too.
pub open spec fn also_at(s: Seq<char>, c: char, j: int) -> bool {
    0 <= j < s.len() && s[j] == c
}

/// Every `c` of `s` has a second one beside it: `s` does not hold exactly one.
pub open spec fn no_lone(s: Seq<char>, c: char) -> bool {
    forall|i: int| #[trigger] holds_at(s, c, i) ==> exists|j: int| j != i && #[trigger] also_at(s, c, j)
}

/// A name as `normalize_domain` leaves it: a run of the lowered input, with
/// no upper-case ASCII letter, no `/`, `?`, `#`, `\` or `@`, no trailing dot,
/// and not exactly one colon.
pub open spec fn normalized_shape(r: Seq<char>, input: Seq<char>) -> bool {
    &&& is_piece(r, lower(input))
    &&& forall|i: int| 0 <= i < r.len() ==> !is_ascii_upper(#[trigger] r[i])
    &&& forall|i: int| 0 <= i < r.len() ==> {
        let c = #[trigger] r[i];
        c != '/' && c != '?' && c != '#' && c != '\\' && c != '@'
    }
    &&& !(r.len() > 0 && r.last() == '.')
    &&& no_lone(r, ':')
}

proof fn lemma_piece_trans(x: Seq<char>, y: Seq<char>, z: Seq<char>)
    requires
        is_piece(x, y),
        is_piece(y, z),
    ensures
        is_piece(x, z),
{
    let (a, b) = choose|a: int, b: int| 0 <= a <= b <= y.len() && x == y.subrange(a, b);
    let (c, d) = choose|c: int, d: int| 0 <= c <= d <= z.len() && y == z.subrange(c, d);
    assert(x =~= z.subrange(c + a, c + b));
}

proof fn lemma_piece_of(y: Seq<char>, a: int, b: int)
    requires
        0 <= a <= b <= y.len(),
    ensures
        is_piece(y.subrange(a, b), y),
{
}

proof fn lemma_piece_self(y: Seq<char>)
    ensures
        is_piece(y, y),
{
    assert(y =~= y.subrange(0, y.len() as int));
}

/// Dropping trailing dots keeps a prefix and drops only dots.
proof fn lemma_trim_dots_prefix(s: Seq<char>) -> (k: int)
    ensures
        0 <= k <= s.len(),
        trim_dots(s) == s.subrange(0, k),
        forall|j: int| k <= j < s.len() ==> s[j] == '.',
        k > 0 ==> s[k - 1] != '.',
    decreases s.len(),
{
    if s.len() > 0 && s.last() == '.' {
        let k = lemma_trim_dots_prefix(s.drop_last());
        assert(s.drop_last().subrange(0, k) =~= s.subrange(0, k));
        assert forall|j: int| k <= j < s.len() implies s[j] == '.' by {
            if j < s.len() - 1 {
                assert(s.drop_last()[j] == s[j]);
            }
        }
        k
    } else {
        assert(s.subrange(0, s.len() as int) =~= s);
        s.len() as int
    }
}

/// A run that leaves out no colon keeps the colons paired.
proof fn lemma_no_lone_piece(s: Seq<char>, a: int, b: int)
    requires
        0 <= a <= b <= s.len(),
        no_lone(s, ':'),
        forall|j: int| 0 <= j < a ==> s[j] != ':',
        forall|j: int| b <= j < s.len() ==> s[j] != ':',
    ensures
        no_lone(s.subrange(a, b), ':'),
{
    let t = s.subrange(a, b);
    assert forall|i: int| #[trigger] holds_at(t, ':', i) implies exists|j: int| j != i && #[trigger] also_at(t, ':', j) by {
        assert(t[i] == s[a + i]);
        assert(holds_at(s, ':', a + i));
        let j = choose|j: int| j != a + i && #[trigger] also_at(s, ':', j);
        assert(t[j - a] == s[j]);
        assert(also_at(t, ':', j - a));
    }
}

/// A name with no colon has none alone.
proof fn lemma_no_colon(s: Seq<char>)
    requires
        forall|j: int| 0 <= j < s.len() ==> s[j] != ':',
    ensures
        no_lone(s, ':'),
{
    assert forall|i: int| #[trigger] holds_at(s, ':', i) implies exists|j: int| j != i && #[trigger] also_at(s, ':', j) by {
        assert(s[i] != ':');
    }
}

/// After the port is dropped no colon stands alone.
proof fn lemma_drop_port_shape(s: Seq<char>)
    ensures
        is_piece(drop_port(s), s),
        no_lone(drop_port(s), ':'),
        drop_port(s) == s.subrange(0, drop_port(s).len() as int),
{
    let p = char_at(s, ':');
    lemma_last_in_found(0, s.len() as int, p);
    lemma_first_in_found(0, s.len() as int, p);
    match last_in(0, s.len() as int, p) {
        Some(l) => {
            if first_in(0, s.len() as int, p) == Some(l) {
                assert forall|j: int| 0 <= j < l implies #[trigger] s.subrange(0, l)[j] != ':' by {
                    assert(!p(j));
                }
                lemma_no_colon(s.subrange(0, l));
                lemma_piece_of(s, 0, l);
            } else {
                let f = first_in(0, s.len() as int, p)->Some_0;
                assert forall|i: int| #[trigger] holds_at(s, ':', i) implies exists|j: int| j != i && #[trigger] also_at(s, ':', j) by {
                    assert(p(i));
                    if i == l {
                        assert(also_at(s, ':', f));
                    } else {
                        assert(also_at(s, ':', l));
                    }
                }
                lemma_piece_self(s);
                assert(s.subrange(0, s.len() as int) =~= s);
            }
        },
        None => {
            assert forall|j: int| 0 <= j < s.len() implies s[j] != ':' by {
                assert(!p(j));
            }
            lemma_no_colon(s);
            lemma_piece_self(s);
            assert(s.subrange(0, s.len() as int) =~= s);
        },
    }
}

/// Every character of a run satisfies what every character of the whole does.
proof fn lemma_piece_chars(x: Seq<char>, y: Seq<char>, good: spec_fn(char) -> bool)
    requires
        is_piece(x, y),
        forall|i: int| 0 <= i < y.len() ==> good(#[trigger] y[i]),
    ensures
        forall|i: int| 0 <= i < x.len() ==> good(#[trigger] x[i]),
{
    let (a, b) = choose|a: int, b: int| 0 <= a <= b <= y.len() && x == y.subrange(a, b);
    assert forall|i: int| 0 <= i < x.len() implies good(#[trigger] x[i]) by {
        assert(x[i] == y[a + i]);
    }
}

pub open spec fn not_path_char() -> spec_fn(char) -> bool {
    |c: char| c != '/' && c != '?' && c != '#' && c != '\\'
}

pub open spec fn not_upper() -> spec_fn(char) -> bool {
    |c: char| !is_ascii_upper(c)
}

/// Up to the path cut: a run of the lowered input, without upper-case ASCII
/// letters or path characters.
#[verifier::spinoff_prover]
#[verifier::rlimit(40)]
proof fn lemma_normalize_front(input: Seq<char>)
    ensures
        is_piece(cut_path(strip_scheme(unquote(lower(trim(input))))), lower(input)),
        forall|i: int| 0 <= i < cut_path(strip_scheme(unquote(lower(trim(input))))).len()
            ==> not_upper()(#[trigger] cut_path(strip_scheme(unquote(lower(trim(input)))))[i]),
        forall|i: int| 0 <= i < cut_path(strip_scheme(unquote(lower(trim(input))))).len()
            ==> not_path_char()(#[trigger] cut_path(strip_scheme(unquote(lower(trim(input)))))[i]),
{
    let t = trim(input);
    lemma_trim_piece(input);
    let (a0, b0) = choose|a: int, b: int| 0 <= a <= b <= input.len() && t == input.subrange(a, b);
    let s0 = lower(t);
    assert(s0 =~= lower(input).subrange(a0, b0));
    lemma_piece_of(lower(input), a0, b0);
    assert forall|i: int| 0 <= i < s0.len() implies not_upper()(#[trigger] s0[i]) by {
        assert(s0[i] == ascii_lower(t[i]));
    }
    let s1 = unquote(s0);
    if s0.len() >= 2 && ((s0[0] == '"' && s0.last() == '"') || (s0[0] == '\'' && s0.last() == '\'')) {
        let inner = s0.subrange(1, s0.len() - 1);
        lemma_trim_piece(inner);
        lemma_piece_of(s0, 1, s0.len() - 1);
        lemma_piece_trans(s1, inner, s0);
    } else if s0.len() == 1 && is_quote(s0[0]) {
        assert(s1 =~= s0.subrange(0, 0));
    } else {
        lemma_piece_self(s0);
    }
    let s2 = strip_scheme(s1);
    lemma_first_in_found(0, s1.len() as int, scheme_sep_at(s1));
    if first_in(0, s1.len() as int, scheme_sep_at(s1)) is Some {
        lemma_piece_of(s1, first_in(0, s1.len() as int, scheme_sep_at(s1))->Some_0 + 3, s1.len() as int);
    } else if s1.len() >= 2 && s1[0] == '/' && s1[1] == '/' {
        lemma_piece_of(s1, 2, s1.len() as int);
    } else {
        lemma_piece_self(s1);
    }
    let s3 = cut_path(s2);
    let pp = path_start_at(s2);
    lemma_first_in_found(0, s2.len() as int, pp);
    let e3: int = match first_in(0, s2.len() as int, pp) { Some(q) => q, None => s2.len() as int };
    assert(s3 == s2.subrange(0, e3));
    lemma_piece_of(s2, 0, e3);
    assert forall|i: int| 0 <= i < s3.len() implies not_path_char()(#[trigger] s3[i]) by {
        assert(!pp(i));
    }
    lemma_piece_trans(s3, s2, s1);
    lemma_piece_trans(s3, s1, s0);
    lemma_piece_chars(s3, s0, not_upper());
    lemma_piece_trans(s3, s0, lower(input));
}

/// The user part and the port dropped: a run without `@`, never with
/// exactly one colon.
#[verifier::spinoff_prover]
#[verifier::rlimit(40)]
proof fn lemma_normalize_host(s3: Seq<char>)
    ensures
        is_piece(drop_port(drop_userinfo(s3)), s3),
        forall|i: int| 0 <= i < drop_port(drop_userinfo(s3)).len() ==> #[trigger] drop_port(drop_userinfo(s3))[i] != '@',
        no_lone(drop_port(drop_userinfo(s3)), ':'),
{
    let s4 = drop_userinfo(s3);
    let pa = char_at(s3, '@');
    lemma_last_in_found(0, s3.len() as int, pa);
    let a4: int = match last_in(0, s3.len() as int, pa) { Some(q) => q + 1, None => 0 };
    assert(s4 == s3.subrange(a4, s3.len() as int));
    lemma_piece_of(s3, a4, s3.len() as int);
    assert forall|i: int| 0 <= i < s4.len() implies #[trigger] s4[i] != '@' by {
        assert(s4[i] == s3[a4 + i]);
        assert(!pa(a4 + i));
    }
    let s5 = drop_port(s4);
    lemma_drop_port_shape(s4);
    lemma_piece_chars(s5, s4, |c: char| c != '@');
    lemma_piece_trans(s5, s4, s3);
}

/// Trailing dots and `www.` dropped: a run without a trailing dot that
/// keeps the colons paired.
#[verifier::spinoff_prover]
#[verifier::rlimit(40)]
proof fn lemma_normalize_tail(s5: Seq<char>)
    requires
        no_lone(s5, ':'),
    ensures
        is_piece(strip_www(trim_dots(s5)), s5),
        !(strip_www(trim_dots(s5)).len() > 0 && strip_www(trim_dots(s5)).last() == '.'),
        no_lone(strip_www(trim_dots(s5)), ':'),
{
    let s6 = trim_dots(s5);
    let k6 = lemma_trim_dots_prefix(s5);
    lemma_piece_of(s5, 0, k6);
    lemma_no_lone_piece(s5, 0, k6);
    let r = strip_www(s6);
    let a7: int = if s6.len() >= 4 && s6[0] == 'w' && s6[1] == 'w' && s6[2] == 'w' && s6[3] == '.' { 4 } else { 0 };
    assert(r == s6.subrange(a7, s6.len() as int));
    lemma_piece_of(s6, a7, s6.len() as int);
    lemma_no_lone_piece(s6, a7, s6.len() as int);
    lemma_piece_trans(r, s6, s5);
    if r.len() > 0 {
        assert(r.last() == s6.last());
    }
}

/// `normalize_domain` always leaves the shape of a host name: a run of the
/// lowered input, without upper-case ASCII letters, without `/`, `?`, `#`,
/// `\` or `@`, without a trailing dot, and never with exactly one colon.
pub proof fn lemma_normalize_shape(input: Seq<char>)
    ensures
        normalized_shape(spec_normalize(input), input),
{
    let s3 = cut_path(strip_scheme(unquote(lower(trim(input)))));
    let r = spec_normalize(input);
    let s5 = drop_port(drop_userinfo(s3));
    lemma_normalize_front(input);
    lemma_normalize_host(s3);
    lemma_normalize_tail(s5);
    assert(r == strip_www(trim_dots(s5)));
    lemma_piece_trans(r, s5, s3);
    lemma_piece_chars(r, s5, |c: char| c != '@');
    lemma_piece_trans(r, s3, lower(input));
    lemma_piece_chars(r, s3, not_upper());
    lemma_piece_chars(r, s3, not_path_char());
    assert forall|i: int| 0 <= i < r.len() implies !is_ascii_upper(#[trigger] r[i]) by {
        assert(not_upper()(r[i]));
    }
    assert forall|i: int| 0 <= i < r.len() implies {
        let c = #[trigger] r[i];
        c != '/' && c != '?' && c != '#' && c != '\\' && c != '@'
    } by {
        assert(not_path_char()(r[i]));
    }
}

} // verus!
