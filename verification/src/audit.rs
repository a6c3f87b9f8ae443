//! The decisions of the manual backlink audit: which target, which pages may
//! be fetched, what `robots.txt` allows, what a fetched page says.

use vstd::prelude::*;
use crate::text::{
    chars_of, string_of, trim, trim_chars, lower, lower_chars, same_chars, slice_chars, starts_with_seq,
    starts_with_chars, ends_with_seq, ends_with_chars, trim_start_matches, trim_start_matches_chars, trim_end_char,
    trim_end_char_chars, before_char, before_char_chars, lemma_before_char, unicode_lower, to_lowercase, contains_seq, contains_chars,
};

verus! {

/// At most this many pages are audited per request.
pub const MAX_PAGES: usize = 50;
/// Pages larger than this are not parsed.
pub const MAX_BODY_BYTES: u64 = 2097152;

/// The audit target as the user typed it, reduced to a host name: trimmed,
/// scheme and `www.` prefixes and trailing slashes removed, lowered.
pub open spec fn spec_normalize_target(raw: Seq<char>) -> Seq<char> {
    unicode_lower(trim_end_char(
        trim_start_matches(trim_start_matches(trim_start_matches(trim(raw), "https://"@), "http://"@), "www."@),
        '/',
    ))
}

pub fn normalize_target(raw: &str) -> (r: String)
    ensures
        r@ == spec_normalize_target(raw@),
{
    let v = trim_chars(&chars_of(raw));
    let v = trim_start_matches_chars(&v, "https://");
    let v = trim_start_matches_chars(&v, "http://");
    let v = trim_start_matches_chars(&v, "www.");
    let v = trim_end_char_chars(&v, '/');
    let s = string_of(&v);
    to_lowercase(s.as_str())
}

/// A target the audit can work with: non-empty and holding a dot.
pub fn valid_target(target: &str) -> (r: bool)
    ensures
        r == (target@.len() > 0 && target@.contains('.')),
{
    let v = chars_of(target);
    let mut i: usize = 0;
    while i < v.len()
        invariant
            i <= v@.len(),
            v@ == target@,
            forall|j: int| 0 <= j < i ==> v@[j] != '.',
        decreases v.len() - i,
    {
        if v[i] == '.' {
            assert(v@[i as int] == '.');
            return v.len() > 0;
        }
        i = i + 1;
    }
    false
}

/// An address the name of a page resolved to.
#[derive(Debug, Clone, Copy, PartialEq, Eq, Structural)]
pub enum IpAddress {
    V4(u8, u8, u8, u8),
    V6(u16, u16, u16, u16, u16, u16, u16, u16),
}

/// Private, loopback, link-local, broadcast or unspecified, as
/// `Ipv4Addr`/`Ipv6Addr` define these ranges.
pub open spec fn spec_unsafe_ip(ip: IpAddress) -> bool {
    match ip {
        IpAddress::V4(a, b, c, d) => {
            ||| a == 10
            ||| (a == 172 && 16 <= b <= 31)
            ||| (a == 192 && b == 168)
            ||| a == 127
            ||| (a == 169 && b == 254)
            ||| (a == 255 && b == 255 && c == 255 && d == 255)
            ||| (a == 0 && b == 0 && c == 0 && d == 0)
        },
        IpAddress::V6(s0, s1, s2, s3, s4, s5, s6, s7) => {
            let zero_prefix = s0 == 0 && s1 == 0 && s2 == 0 && s3 == 0 && s4 == 0 && s5 == 0 && s6 == 0;
            ||| (zero_prefix && s7 == 1)
            ||| (zero_prefix && s7 == 0)
            ||| (0xfc00 <= s0 <= 0xfdff)
            ||| (0xfe80 <= s0 <= 0xfebf)
        },
    }
}

/// Whether a page on `ip` must not be fetched: it is private or local.
pub fn unsafe_ip(ip: IpAddress) -> (r: bool)
    ensures
        r == spec_unsafe_ip(ip),
{
    match ip {
        IpAddress::V4(a, b, c, d) => {
            a == 10 || (a == 172 && 16 <= b && b <= 31) || (a == 192 && b == 168) || a == 127
                || (a == 169 && b == 254) || (a == 255 && b == 255 && c == 255 && d == 255)
                || (a == 0 && b == 0 && c == 0 && d == 0)
        },
        IpAddress::V6(s0, s1, s2, s3, s4, s5, s6, s7) => {
            let zero_prefix = s0 == 0 && s1 == 0 && s2 == 0 && s3 == 0 && s4 == 0 && s5 == 0 && s6 == 0;
            (zero_prefix && s7 == 1) || (zero_prefix && s7 == 0) || (0xfc00 <= s0 && s0 <= 0xfdff)
                || (0xfe80 <= s0 && s0 <= 0xfebf)
        },
    }
}

/// Whether any of the addresses a name resolved to is unsafe.
pub fn any_unsafe(addresses: &[IpAddress]) -> (r: bool)
    ensures
        r == exists|i: int| 0 <= i < addresses@.len() && spec_unsafe_ip(#[trigger] addresses@[i]),
{
    let mut i: usize = 0;
    while i < addresses.len()
        invariant
            i <= addresses@.len(),
            forall|j: int| 0 <= j < i ==> !spec_unsafe_ip(#[trigger] addresses@[j]),
        decreases addresses.len() - i,
    {
        if unsafe_ip(addresses[i]) {
            return true;
        }
        i = i + 1;
    }
    false
}

/// Why a page URL is not fetched.
#[derive(Debug, Clone, Copy, PartialEq, Eq, Structural)]
pub enum UrlRefusal {
    NotHttp,
    NoHost,
    Localhost,
    PrivateAddress,
}

impl UrlRefusal {
    pub fn message(&self) -> (s: &'static str)
        ensures
            s@ == match *self {
                UrlRefusal::NotHttp => "Only HTTP(S) URLs are allowed"@,
                UrlRefusal::NoHost => "URL has no host"@,
                UrlRefusal::Localhost => "Local addresses are not allowed"@,
                UrlRefusal::PrivateAddress => "Private or local network addresses are not allowed"@,
            },
    {
        match self {
            UrlRefusal::NotHttp => "Only HTTP(S) URLs are allowed",
            UrlRefusal::NoHost => "URL has no host",
            UrlRefusal::Localhost => "Local addresses are not allowed",
            UrlRefusal::PrivateAddress => "Private or local network addresses are not allowed",
        }
    }
}

/// The checks a URL passes before its name is even resolved: an HTTP(S)
/// scheme, a host, and not `localhost` in any letter case.
pub open spec fn spec_check_url(scheme: Seq<char>, host: Option<Seq<char>>) -> Option<UrlRefusal> {
    if scheme != "http"@ && scheme != "https"@ {
        Some(UrlRefusal::NotHttp)
    } else {
        match host {
            None => Some(UrlRefusal::NoHost),
            Some(h) => if lower(h) == "localhost"@ { Some(UrlRefusal::Localhost) } else { None },
        }
    }
}

pub fn check_url(scheme: &str, host: Option<&str>) -> (r: Option<UrlRefusal>)
    ensures
        r == spec_check_url(scheme@, match host { Some(h) => Some(h@), None => None }),
{
    let s = chars_of(scheme);
    if !same_chars(&s, &chars_of("http")) && !same_chars(&s, &chars_of("https")) {
        return Some(UrlRefusal::NotHttp);
    }
    match host {
        None => Some(UrlRefusal::NoHost),
        Some(h) => {
            if same_chars(&lower_chars(&chars_of(h)), &chars_of("localhost")) {
                Some(UrlRefusal::Localhost)
            } else {
                None
            }
        },
    }
}

/// `host` is the target or one of its subdomains.
pub open spec fn spec_is_target_host(host: Seq<char>, target: Seq<char>) -> bool {
    host == target || ends_with_seq(host, seq!['.'] + target)
}

pub fn is_target_host(host: &str, target: &str) -> (r: bool)
    ensures
        r == spec_is_target_host(host@, target@),
{
    let h = chars_of(host);
    let t = chars_of(target);
    if same_chars(&h, &t) {
        return true;
    }
    let mut dotted: Vec<char> = Vec::new();
    dotted.push('.');
    crate::number::append_chars(&mut dotted, &t);
    assert(dotted@ =~= seq!['.'] + t@);
    ends_with_chars(&h, &dotted)
}

/// The lines of a text, as `str::lines` gives them: split after each `\n`,
/// which is dropped with a `\r` just before it.
pub open spec fn text_lines(s: Seq<char>) -> Seq<Seq<char>>
    decreases s.len(),
{
    if s.len() == 0 {
        Seq::empty()
    } else {
        let line = before_char(s, '\n');
        if line.len() < s.len() {
            let l = if line.len() > 0 && line.last() == '\r' { line.drop_last() } else { line };
            seq![l] + text_lines(s.subrange(line.len() as int + 1, s.len() as int))
        } else {
            seq![s]
        }
    }
}

/// One `robots.txt` line taken into account: comments cut, `name: value`
/// split at the first colon; `user-agent` sets whether the group applies
/// to every agent, `disallow` in such a group adds a rule.
pub open spec fn robots_step(state: (bool, Seq<Seq<char>>), line: Seq<char>) -> (bool, Seq<Seq<char>>) {
    let l = trim(before_char(line, '#'));
    let name = before_char(l, ':');
    if name.len() == l.len() {
        state
    } else {
        let value = trim(l.subrange(name.len() as int + 1, l.len() as int));
        let key = lower(trim(name));
        if key == "user-agent"@ {
            (value == "*"@, state.1)
        } else if key == "disallow"@ && state.0 && value.len() > 0 {
            (state.0, state.1.push(value))
        } else {
            state
        }
    }
}

pub open spec fn robots_rules(lines: Seq<Seq<char>>) -> (bool, Seq<Seq<char>>)
    decreases lines.len(),
{
    if lines.len() == 0 {
        (false, Seq::empty())
    } else {
        robots_step(robots_rules(lines.drop_last()), lines.last())
    }
}

/// Whether `robots.txt` lets every agent fetch `path`: no rule of a group
/// for `*` is a prefix of it.
pub open spec fn spec_robots_allows(body: Seq<char>, path: Seq<char>) -> bool {
    let rules = robots_rules(text_lines(body)).1;
    !exists|i: int| 0 <= i < rules.len() && starts_with_seq(path, #[trigger] rules[i])
}

/// A `robots.txt` line read as a field: comments cut, then `name: value`
/// split at the first colon, the name trimmed and lowered and the value
/// trimmed; `None` for a line with no colon.
pub open spec fn robots_field(line: Seq<char>) -> Option<(Seq<char>, Seq<char>)> {
    let l = trim(before_char(line, '#'));
    let name = before_char(l, ':');
    if name.len() == l.len() {
        None
    } else {
        Some((lower(trim(name)), trim(l.subrange(name.len() as int + 1, l.len() as int))))
    }
}

/// The agent named by the last `User-agent` line of `lines`, if any: the
/// group the next line belongs to.
pub open spec fn last_agent(lines: Seq<Seq<char>>) -> Option<Seq<char>>
    decreases lines.len(),
{
    if lines.len() == 0 {
        None
    } else if robots_field(lines.last()) is Some && robots_field(lines.last())->Some_0.0 == "user-agent"@ {
        Some(robots_field(lines.last())->Some_0.1)
    } else {
        last_agent(lines.drop_last())
    }
}

/// Line `j` is a `Disallow` with a value inside a group headed by
/// `User-agent: *`.
pub open spec fn star_disallow(lines: Seq<Seq<char>>, j: int) -> bool {
    &&& robots_field(lines[j]) is Some
    &&& robots_field(lines[j])->Some_0.0 == "disallow"@
    &&& robots_field(lines[j])->Some_0.1.len() > 0
    &&& last_agent(lines.subrange(0, j)) == Some("*"@)
}

/// The rules gathered over `lines` are the values of the `Disallow` lines of
/// `*` groups, and the group in force is `*` exactly when the last
/// `User-agent` line named `*`.
proof fn lemma_robots_rules_groups(lines: Seq<Seq<char>>)
    ensures
        robots_rules(lines).0 == (last_agent(lines) == Some("*"@)),
        forall|r: Seq<char>| robots_rules(lines).1.contains(r) <==> exists|j: int| 0 <= j < lines.len()
            && #[trigger] star_disallow(lines, j) && robots_field(lines[j])->Some_0.1 == r,
    decreases lines.len(),
{
    if lines.len() > 0 {
        let pre = lines.drop_last();
        let x = lines.last();
        let n = pre.len() as int;
        lemma_robots_rules_groups(pre);
        reveal_strlit("user-agent");
        reveal_strlit("disallow");
        assert("user-agent"@ != "disallow"@) by {
            assert("user-agent"@[0] != "disallow"@[0]);
        }
        assert(lines.subrange(0, n) =~= pre);
        assert forall|j: int| 0 <= j < n implies #[trigger] star_disallow(lines, j) == star_disallow(pre, j) by {
            assert(lines.subrange(0, j) =~= pre.subrange(0, j));
            assert(lines[j] == pre[j]);
        }
        let before = robots_rules(pre);
        let after = robots_rules(lines);
        assert(after == robots_step(before, x));
        assert forall|r: Seq<char>| after.1.contains(r) <==> exists|j: int| 0 <= j < lines.len()
            && #[trigger] star_disallow(lines, j) && robots_field(lines[j])->Some_0.1 == r by {
            if after.1.contains(r) {
                if before.1.contains(r) {
                    let j = choose|j: int| 0 <= j < pre.len() && #[trigger] star_disallow(pre, j) && robots_field(pre[j])->Some_0.1 == r;
                    assert(star_disallow(lines, j) && lines[j] == pre[j]);
                } else {
                    assert(after.1 != before.1);
                    assert(after.1 == before.1.push(robots_field(x)->Some_0.1));
                    let k = choose|k: int| 0 <= k < after.1.len() && after.1[k] == r;
                    if k < before.1.len() {
                        assert(before.1[k] == r);
                    }
                    assert(r == robots_field(x)->Some_0.1);
                    assert(star_disallow(lines, n));
                }
            }
            if exists|j: int| 0 <= j < lines.len() && #[trigger] star_disallow(lines, j) && robots_field(lines[j])->Some_0.1 == r {
                let j = choose|j: int| 0 <= j < lines.len() && #[trigger] star_disallow(lines, j) && robots_field(lines[j])->Some_0.1 == r;
                if j < n {
                    assert(star_disallow(pre, j) && lines[j] == pre[j]);
                    assert(before.1.contains(r));
                    let k = choose|k: int| 0 <= k < before.1.len() && before.1[k] == r;
                    if after.1 != before.1 {
                        assert(after.1 == before.1.push(robots_field(x)->Some_0.1));
                        assert(after.1[k] == r);
                    }
                } else {
                    assert(j == n && lines[j] == x);
                    assert(after.1 == before.1.push(r));
                    assert(after.1[before.1.len() as int] == r);
                }
            }
        }
    }
}

/// `robots.txt` groups: `body` lets every agent fetch `path` exactly when no
/// `Disallow` value inside a group headed by `User-agent: *` is a prefix of
/// `path`. A `User-agent` line starts a new group, so rules of a group for
/// another agent never count, whether or not a `*` group came before.
pub proof fn lemma_robots_groups(body: Seq<char>, path: Seq<char>)
    ensures
        spec_robots_allows(body, path) <==> !exists|j: int| 0 <= j < text_lines(body).len()
            && #[trigger] star_disallow(text_lines(body), j)
            && starts_with_seq(path, robots_field(text_lines(body)[j])->Some_0.1),
{
    let ls = text_lines(body);
    let rules = robots_rules(ls).1;
    lemma_robots_rules_groups(ls);
    if exists|i: int| 0 <= i < rules.len() && starts_with_seq(path, #[trigger] rules[i]) {
        let i = choose|i: int| 0 <= i < rules.len() && starts_with_seq(path, #[trigger] rules[i]);
        assert(rules.contains(rules[i]));
        let j = choose|j: int| 0 <= j < ls.len() && #[trigger] star_disallow(ls, j) && robots_field(ls[j])->Some_0.1 == rules[i];
        assert(starts_with_seq(path, robots_field(ls[j])->Some_0.1));
    }
    if exists|j: int| 0 <= j < ls.len() && #[trigger] star_disallow(ls, j) && starts_with_seq(path, robots_field(ls[j])->Some_0.1) {
        let j = choose|j: int| 0 <= j < ls.len() && #[trigger] star_disallow(ls, j) && starts_with_seq(path, robots_field(ls[j])->Some_0.1);
        let r = robots_field(ls[j])->Some_0.1;
        assert(rules.contains(r));
        let i = choose|i: int| 0 <= i < rules.len() && rules[i] == r;
        assert(starts_with_seq(path, rules[i]));
    }
}

fn split_text_lines(s: &Vec<char>) -> (r: Vec<Vec<char>>)
    ensures
        r@.len() == text_lines(s@).len(),
        forall|k: int| 0 <= k < r@.len() ==> (#[trigger] r@[k])@ == text_lines(s@)[k],
{
    let mut out: Vec<Vec<char>> = Vec::new();
    let mut rest = slice_chars(s, 0, s.len());
    assert(s@.subrange(0, s@.len() as int) =~= s@);
    let ghost done: Seq<Seq<char>> = Seq::empty();
    while rest.len() > 0
        invariant
            text_lines(s@) == done + text_lines(rest@),
            out@.len() == done.len(),
            forall|k: int| 0 <= k < out@.len() ==> (#[trigger] out@[k])@ == done[k],
        decreases rest@.len(),
    {
        let line = before_char_chars(&rest, '\n');
        proof {
            lemma_before_char(rest@, '\n');
        }
        if line.len() < rest.len() {
            let l = if line.len() > 0 && line[line.len() - 1] == '\r' {
                slice_chars(&line, 0, line.len() - 1)
            } else {
                slice_chars(&line, 0, line.len())
            };
            proof {
                assert(line@.subrange(0, line@.len() as int) =~= line@);
                assert(line@.subrange(0, line@.len() - 1) =~= line@.drop_last());
            }
            let next = slice_chars(&rest, line.len() + 1, rest.len());
            proof {
                assert(text_lines(rest@) == seq![l@] + text_lines(next@));
                assert(done + (seq![l@] + text_lines(next@)) =~= done.push(l@) + text_lines(next@));
                done = done.push(l@);
            }
            out.push(l);
            rest = next;
        } else {
            let whole = slice_chars(&rest, 0, rest.len());
            proof {
                assert(rest@.subrange(0, rest@.len() as int) =~= rest@);
                assert(text_lines(rest@) == seq![rest@]);
                assert(text_lines(Seq::<char>::empty()) == Seq::<Seq<char>>::empty());
                assert(done + seq![rest@] =~= done.push(rest@) + text_lines(Seq::<char>::empty()));
                done = done.push(rest@);
            }
            out.push(whole);
            rest = Vec::new();
        }
    }
    proof {
        assert(done + text_lines(rest@) =~= done);
    }
    out
}

fn robots_line(state: (bool, Vec<Vec<char>>), line: &Vec<char>) -> (r: (bool, Vec<Vec<char>>))
    ensures
        (r.0, r.1@.map_values(|v: Vec<char>| v@)) == robots_step((state.0, state.1@.map_values(|v: Vec<char>| v@)), line@),
{
    let (applies, mut rules) = state;
    let ghost before = rules@.map_values(|v: Vec<char>| v@);
    let l = trim_chars(&before_char_chars(line, '#'));
    let name = before_char_chars(&l, ':');
    proof {
        lemma_before_char(l@, ':');
    }
    if name.len() == l.len() {
        return (applies, rules);
    }
    let value = trim_chars(&slice_chars(&l, name.len() + 1, l.len()));
    let key = lower_chars(&trim_chars(&name));
    if same_chars(&key, &chars_of("user-agent")) {
        (same_chars(&value, &chars_of("*")), rules)
    } else if same_chars(&key, &chars_of("disallow")) && applies && value.len() > 0 {
        let ghost vv = value@;
        rules.push(value);
        proof {
            assert(rules@.map_values(|v: Vec<char>| v@) =~= before.push(vv));
        }
        (applies, rules)
    } else {
        (applies, rules)
    }
}

/// Whether `robots.txt` with text `body` lets every agent fetch `path`.
pub fn robots_allows(body: &str, path: &str) -> (r: bool)
    ensures
        r == spec_robots_allows(body@, path@),
{
    let lines = split_text_lines(&chars_of(body));
    let ghost ls = text_lines(body@);
    let mut state: (bool, Vec<Vec<char>>) = (false, Vec::new());
    let mut i: usize = 0;
    proof {
        assert(ls.subrange(0, 0) =~= Seq::<Seq<char>>::empty());
        assert(state.1@.map_values(|v: Vec<char>| v@) =~= Seq::<Seq<char>>::empty());
    }
    while i < lines.len()
        invariant
            i <= lines@.len() == ls.len(),
            ls == text_lines(body@),
            forall|k: int| 0 <= k < lines@.len() ==> (#[trigger] lines@[k])@ == ls[k],
            (state.0, state.1@.map_values(|v: Vec<char>| v@)) == robots_rules(ls.subrange(0, i as int)),
        decreases lines.len() - i,
    {
        proof {
            assert(ls.subrange(0, i + 1).drop_last() =~= ls.subrange(0, i as int));
        }
        state = robots_line(state, &lines[i]);
        i = i + 1;
    }
    assert(ls.subrange(0, i as int) =~= ls);
    let rules = state.1;
    let ghost rv = rules@.map_values(|v: Vec<char>| v@);
    assert(rv == robots_rules(text_lines(body@)).1);
    let p = chars_of(path);
    let mut k: usize = 0;
    while k < rules.len()
        invariant
            k <= rules@.len(),
            p@ == path@,
            rv == rules@.map_values(|v: Vec<char>| v@),
            rv == robots_rules(text_lines(body@)).1,
            forall|j: int| 0 <= j < k ==> !starts_with_seq(path@, #[trigger] rv[j]),
        decreases rules.len() - k,
    {
        if starts_with_chars(&p, &rules[k]) {
            assert(starts_with_seq(path@, rv[k as int]));
            assert(0 <= k < rv.len() && starts_with_seq(path@, rv[k as int]));
            return false;
        }
        k = k + 1;
    }
    true
}

/// What a page's HTTP status means for the audit.
#[derive(Debug, Clone, Copy, PartialEq, Eq, Structural)]
pub enum HttpVerdict {
    /// 403 or 429: the server refused; no bypass is attempted.
    Blocked,
    /// Any other status outside 200–299.
    HttpError,
    /// A success: the page can be read.
    Fetched,
}

pub fn http_verdict(code: u16) -> (v: HttpVerdict)
    ensures
        v == (if code == 403 || code == 429 {
            HttpVerdict::Blocked
        } else if !(200 <= code <= 299) {
            HttpVerdict::HttpError
        } else {
            HttpVerdict::Fetched
        }),
{
    if code == 403 || code == 429 {
        HttpVerdict::Blocked
    } else if !(200 <= code && code <= 299) {
        HttpVerdict::HttpError
    } else {
        HttpVerdict::Fetched
    }
}

/// Whether a body of `len` bytes is over the audit limit.
pub fn too_large(len: u64) -> (r: bool)
    ensures
        r == (len > MAX_BODY_BYTES),
{
    len > MAX_BODY_BYTES
}

/// A page's host as the audit reports it: without `www.`, lowered.
pub open spec fn spec_source_host(host: Seq<char>) -> Seq<char> {
    unicode_lower(trim_start_matches(host, "www."@))
}

pub fn source_host(host: &str) -> (r: String)
    ensures
        r@ == spec_source_host(host@),
{
    let v = trim_start_matches_chars(&chars_of(host), "www.");
    to_lowercase(string_of(&v).as_str())
}

/// A link found on an audited page: the host it points to, its text, and
/// its `rel` attribute.
pub struct Anchor {
    pub host: String,
    pub text: String,
    pub rel: Option<String>,
}

/// Links to the target counted; the first eight non-empty texts kept; each
/// `rel` value kept once.
pub open spec fn tally_step(state: (int, Seq<Seq<char>>, Seq<Seq<char>>), host: Seq<char>, text: Seq<char>,
    rel: Option<Seq<char>>, target: Seq<char>) -> (int, Seq<Seq<char>>, Seq<Seq<char>>) {
    if !spec_is_target_host(trim_start_matches(host, "www."@), target) {
        state
    } else {
        let t = trim(text);
        let texts = if t.len() > 0 && state.1.len() < 8 { state.1.push(t) } else { state.1 };
        let rels = match rel {
            Some(r) => if state.2.contains(r) { state.2 } else { state.2.push(r) },
            None => state.2,
        };
        (state.0 + 1, texts, rels)
    }
}

pub open spec fn anchor_view(a: Anchor) -> (Seq<char>, Seq<char>, Option<Seq<char>>) {
    (a.host@, a.text@, match a.rel { Some(r) => Some(r@), None => None })
}

pub open spec fn spec_tally(anchors: Seq<(Seq<char>, Seq<char>, Option<Seq<char>>)>, target: Seq<char>)
    -> (int, Seq<Seq<char>>, Seq<Seq<char>>)
    decreases anchors.len(),
{
    if anchors.len() == 0 {
        (0, Seq::empty(), Seq::empty())
    } else {
        let a = anchors.last();
        tally_step(spec_tally(anchors.drop_last(), target), a.0, a.1, a.2, target)
    }
}

fn holds_text(v: &Vec<String>, s: &String) -> (r: bool)
    ensures
        r == v@.map_values(|x: String| x@).contains(s@),
{
    let ghost vv = v@.map_values(|x: String| x@);
    let mut i: usize = 0;
    while i < v.len()
        invariant
            i <= v@.len(),
            vv == v@.map_values(|x: String| x@),
            forall|j: int| 0 <= j < i ==> vv[j] != s@,
        decreases v.len() - i,
    {
        if crate::text::str_eq(v[i].as_str(), s.as_str()) {
            assert(vv[i as int] == s@);
            return true;
        }
        i = i + 1;
    }
    false
}

/// How many links of a page point to the target, their first eight texts,
/// and the distinct `rel` values they carry.
pub fn tally_anchors(anchors: &Vec<Anchor>, target: &str) -> (r: (usize, Vec<String>, Vec<String>))
    ensures
        (r.0 as int, r.1@.map_values(|x: String| x@), r.2@.map_values(|x: String| x@))
            == spec_tally(anchors@.map_values(|a: Anchor| anchor_view(a)), target@),
{
    let ghost av = anchors@.map_values(|a: Anchor| anchor_view(a));
    let mut count: usize = 0;
    let mut texts: Vec<String> = Vec::new();
    let mut rels: Vec<String> = Vec::new();
    let mut i: usize = 0;
    proof {
        assert(av.subrange(0, 0) =~= Seq::<(Seq<char>, Seq<char>, Option<Seq<char>>)>::empty());
        assert(texts@.map_values(|x: String| x@) =~= Seq::<Seq<char>>::empty());
        assert(rels@.map_values(|x: String| x@) =~= Seq::<Seq<char>>::empty());
    }
    while i < anchors.len()
        invariant
            i <= anchors@.len(),
            av == anchors@.map_values(|a: Anchor| anchor_view(a)),
            count <= i,
            (count as int, texts@.map_values(|x: String| x@), rels@.map_values(|x: String| x@))
                == spec_tally(av.subrange(0, i as int), target@),
        decreases anchors.len() - i,
    {
        let a = &anchors[i];
        proof {
            assert(av.subrange(0, i + 1).drop_last() =~= av.subrange(0, i as int));
            assert(av.subrange(0, i + 1).last() == anchor_view(*a));
        }
        let host = string_of(&trim_start_matches_chars(&chars_of(a.host.as_str()), "www."));
        if is_target_host(host.as_str(), target) {
            count = count + 1;
            let t = string_of(&trim_chars(&chars_of(a.text.as_str())));
            if t.as_str().is_empty() == false && texts.len() < 8 {
                let ghost before = texts@;
                let ghost tv = t@;
                texts.push(t);
                proof {
                    assert(texts@.map_values(|x: String| x@) =~= before.map_values(|x: String| x@).push(tv));
                }
            }
            match &a.rel {
                Some(r) => {
                    if !holds_text(&rels, r) {
                        let ghost before = rels@;
                        let rc = string_of(&chars_of(r.as_str()));
                        let ghost rv = rc@;
                        rels.push(rc);
                        proof {
                            assert(rels@.map_values(|x: String| x@) =~= before.map_values(|x: String| x@).push(rv));
                        }
                    }
                },
                None => {},
            }
        }
        i = i + 1;
    }
    assert(av.subrange(0, i as int) =~= av);
    (count, texts, rels)
}

/// Whether a page's visible text (as found, any case) mentions the brand
/// and the target domain.
pub open spec fn spec_mentions(visible: Seq<char>, brand: Seq<char>, target: Seq<char>) -> (bool, bool) {
    let text = unicode_lower(visible);
    (brand.len() > 0 && contains_seq(text, unicode_lower(brand)), contains_seq(text, target))
}

pub fn mentions(visible: &str, brand: &str, target: &str) -> (r: (bool, bool))
    ensures
        r == spec_mentions(visible@, brand@, target@),
{
    let text = chars_of(to_lowercase(visible).as_str());
    let has_brand = if brand.is_empty() {
        false
    } else {
        contains_chars(&text, &chars_of(to_lowercase(brand).as_str()))
    };
    (has_brand, contains_chars(&text, &chars_of(target)))
}

/// The key a URL is deduplicated by: trimmed, trailing slashes dropped.
pub open spec fn url_key(url: Seq<char>) -> Seq<char> {
    trim_end_char(trim(url), '/')
}

/// The URLs kept for auditing: each key once, in the order given, at most
/// `MAX_PAGES` of them.
pub open spec fn spec_dedupe_urls(urls: Seq<Seq<char>>) -> Seq<Seq<char>>
    decreases urls.len(),
{
    if urls.len() == 0 {
        Seq::empty()
    } else {
        let before = spec_dedupe_urls(urls.drop_last());
        let key = url_key(urls.last());
        if before.len() < MAX_PAGES && !before.map_values(|u: Seq<char>| url_key(u)).contains(key) {
            before.push(urls.last())
        } else {
            before
        }
    }
}

fn url_key_text(url: &String) -> (r: String)
    ensures
        r@ == url_key(url@),
{
    string_of(&trim_end_char_chars(&trim_chars(&chars_of(url.as_str())), '/'))
}

/// The URLs to audit: the first `MAX_PAGES` whose keys differ.
pub fn dedupe_urls(urls: &Vec<String>) -> (r: Vec<String>)
    ensures
        r@.map_values(|u: String| u@) == spec_dedupe_urls(urls@.map_values(|u: String| u@)),
{
    let ghost uv = urls@.map_values(|u: String| u@);
    let mut kept: Vec<String> = Vec::new();
    let mut keys: Vec<String> = Vec::new();
    let mut i: usize = 0;
    proof {
        assert(uv.subrange(0, 0) =~= Seq::<Seq<char>>::empty());
        assert(kept@.map_values(|u: String| u@) =~= Seq::<Seq<char>>::empty());
        assert(keys@.map_values(|u: String| u@) =~= Seq::<Seq<char>>::empty());
    }
    while i < urls.len()
        invariant
            i <= urls@.len(),
            uv == urls@.map_values(|u: String| u@),
            kept@.map_values(|u: String| u@) == spec_dedupe_urls(uv.subrange(0, i as int)),
            keys@.map_values(|u: String| u@) == kept@.map_values(|u: String| u@).map_values(|u: Seq<char>| url_key(u)),
            kept@.len() == keys@.len(),
        decreases urls.len() - i,
    {
        proof {
            assert(uv.subrange(0, i + 1).drop_last() =~= uv.subrange(0, i as int));
        }
        let key = url_key_text(&urls[i]);
        if kept.len() < MAX_PAGES && !holds_text(&keys, &key) {
            let ghost kb = kept@;
            let ghost keysb = keys@;
            let u = string_of(&chars_of(urls[i].as_str()));
            let ghost uvv = u@;
            let ghost kvv = key@;
            kept.push(u);
            keys.push(key);
            proof {
                assert(kept@.map_values(|u: String| u@) =~= kb.map_values(|u: String| u@).push(uvv));
                assert(keys@.map_values(|u: String| u@) =~= keysb.map_values(|u: String| u@).push(kvv));
                assert(kept@.map_values(|u: String| u@).map_values(|u: Seq<char>| url_key(u))
                    =~= kb.map_values(|u: String| u@).map_values(|u: Seq<char>| url_key(u)).push(url_key(uvv)));
            }
        }
        i = i + 1;
    }
    assert(uv.subrange(0, i as int) =~= uv);
    kept
}

/// What the audit report counts over its pages.
#[derive(Clone, Copy, PartialEq, Eq, Structural)]
pub struct PageSummary {
    pub has_backlink: bool,
    pub has_brand_mention: bool,
    pub has_domain_mention: bool,
    /// The page was fetched and read.
    pub audited: bool,
}

pub open spec fn spec_summarize(pages: Seq<PageSummary>) -> (int, int, int)
    decreases pages.len(),
{
    if pages.len() == 0 {
        (0, 0, 0)
    } else {
        let (a, b, c) = spec_summarize(pages.drop_last());
        let p = pages.last();
        (a + if p.has_backlink { 1int } else { 0 },
         b + if !p.has_backlink && (p.has_brand_mention || p.has_domain_mention) { 1int } else { 0 },
         c + if !p.audited { 1int } else { 0 })
    }
}

/// Confirmed backlinks, mentions without a link, and pages blocked or
/// skipped.
pub fn summarize(pages: &[PageSummary]) -> (r: (usize, usize, usize))
    ensures
        (r.0 as int, r.1 as int, r.2 as int) == spec_summarize(pages@),
{
    let mut a: usize = 0;
    let mut b: usize = 0;
    let mut c: usize = 0;
    let mut i: usize = 0;
    while i < pages.len()
        invariant
            i <= pages@.len(),
            a <= i && b <= i && c <= i,
            (a as int, b as int, c as int) == spec_summarize(pages@.subrange(0, i as int)),
        decreases pages.len() - i,
    {
        let p = pages[i];
        proof {
            assert(pages@.subrange(0, i + 1).drop_last() =~= pages@.subrange(0, i as int));
        }
        if p.has_backlink {
            a = a + 1;
        }
        if !p.has_backlink && (p.has_brand_mention || p.has_domain_mention) {
            b = b + 1;
        }
        if !p.audited {
            c = c + 1;
        }
        i = i + 1;
    }
    assert(pages@.subrange(0, i as int) =~= pages@);
    (a, b, c)
}

/// The pages a user picked for an audit, for one target.
pub struct ManualAuditRequest {
    pub target_domain: String,
    pub brand: String,
    pub urls: Vec<String>,
}

/// What the audit found on one page.
pub struct ManualPageAudit {
    pub url: String,
    pub source_domain: String,
    /// `audited` when the page was read; otherwise why it was not.
    pub status: String,
    pub http_status: Option<u16>,
    pub title: String,
    pub has_backlink: bool,
    pub backlink_count: usize,
    pub anchors: Vec<String>,
    pub rel_values: Vec<String>,
    pub has_brand_mention: bool,
    pub has_domain_mention: bool,
    pub note: String,
}

/// The counted part of a page's result.
pub open spec fn page_summary(p: ManualPageAudit) -> PageSummary {
    PageSummary {
        has_backlink: p.has_backlink,
        has_brand_mention: p.has_brand_mention,
        has_domain_mention: p.has_domain_mention,
        audited: p.status@ == "audited"@,
    }
}

/// The audit of all pages of a request.
pub struct ManualAuditReport {
    pub target_domain: String,
    pub audited: usize,
    pub confirmed_backlinks: usize,
    pub mentions_without_link: usize,
    pub blocked_or_skipped: usize,
    pub pages: Vec<ManualPageAudit>,
}

/// The report over the audited pages: how many there are, how many link to
/// the target, how many mention it without a link, and how many could not
/// be read.
pub fn audit_report(target_domain: String, pages: Vec<ManualPageAudit>) -> (r: ManualAuditReport)
    ensures
        r.target_domain@ == target_domain@,
        r.pages@ == pages@,
        r.audited == pages@.len(),
        (r.confirmed_backlinks as int, r.mentions_without_link as int, r.blocked_or_skipped as int)
            == spec_summarize(pages@.map_values(|p: ManualPageAudit| page_summary(p))),
{
    let mut summaries: Vec<PageSummary> = Vec::new();
    let mut i: usize = 0;
    while i < pages.len()
        invariant
            i <= pages@.len(),
            summaries@ == pages@.subrange(0, i as int).map_values(|p: ManualPageAudit| page_summary(p)),
        decreases pages.len() - i,
    {
        let audited = same_chars(&chars_of(pages[i].status.as_str()), &chars_of("audited"));
        summaries.push(PageSummary {
            has_backlink: pages[i].has_backlink,
            has_brand_mention: pages[i].has_brand_mention,
            has_domain_mention: pages[i].has_domain_mention,
            audited,
        });
        assert(summaries@ =~= pages@.subrange(0, i + 1).map_values(|p: ManualPageAudit| page_summary(p)));
        i = i + 1;
    }
    assert(pages@.subrange(0, i as int) =~= pages@);
    let (confirmed_backlinks, mentions_without_link, blocked_or_skipped) = summarize(summaries.as_slice());
    ManualAuditReport {
        target_domain,
        audited: pages.len(),
        confirmed_backlinks,
        mentions_without_link,
        blocked_or_skipped,
        pages,
    }
}


// ---------------------------------------------------------------------------
// Auditing one page: what each answer from the network leads to
// ---------------------------------------------------------------------------

/// What the audit of one page has reached.
#[derive(Debug, Clone, Copy, PartialEq, Eq, Structural)]
pub enum AuditPhase {
    /// Waiting for the URL to be parsed.
    Start,
    /// Waiting for the host's addresses.
    Resolving,
    /// Waiting for `robots.txt`.
    Robots,
    /// Waiting for the page's response.
    Fetching,
    /// Waiting for the body.
    Reading,
    /// Waiting for what the page holds.
    Parsing,
    Done,
}

/// What the caller does next for the page.
#[derive(Debug, Clone, Copy, PartialEq, Eq, Structural)]
pub enum AuditAction {
    /// Look up the addresses of the host.
    Resolve,
    /// Fetch `robots.txt` of the host.
    FetchRobots,
    /// Wait the polite pause, then request the page.
    FetchPage,
    /// Read the body of the response.
    ReadBody,
    /// Parse the body: title, links, visible text.
    ParseBody,
    /// The page's result is ready.
    Finish,
}

/// A URL as the URL parser read it.
pub struct ParsedUrl {
    /// The URL written back by the parser.
    pub url: String,
    pub scheme: String,
    pub host: Option<String>,
    pub path: String,
}

/// What the network, or the parser, answered.
pub enum AuditEvent {
    /// The parsed URL, or why it could not be parsed.
    Parsed(Result<ParsedUrl, String>),
    /// The host's addresses, or why the lookup failed.
    Resolved(Result<Vec<IpAddress>, String>),
    /// The body of `robots.txt` when it was fetched with a success status.
    Robots(Option<String>),
    /// The page's status and declared length, or why the request failed.
    Response(Result<(u16, Option<u64>), String>),
    /// How many bytes the body holds, or why reading it failed.
    Body(Result<u64, String>),
    /// The page's title, its links and its visible text.
    Page(String, Vec<Anchor>, String),
}

/// The audit of one page under way.
pub struct AuditState {
    pub phase: AuditPhase,
    /// The URL as the user gave it.
    pub raw: String,
    pub target: String,
    pub brand: String,
    pub url: String,
    pub host: String,
    pub path: String,
    pub source_domain: String,
    pub http_status: u16,
    /// The page's result, once there is one.
    pub result: Option<ManualPageAudit>,
}

/// A page's result by its values.
pub struct PageView {
    pub url: Seq<char>,
    pub source_domain: Seq<char>,
    pub status: Seq<char>,
    pub http_status: Option<u16>,
    pub title: Seq<char>,
    pub has_backlink: bool,
    pub backlink_count: int,
    pub anchors: Seq<Seq<char>>,
    pub rel_values: Seq<Seq<char>>,
    pub has_brand_mention: bool,
    pub has_domain_mention: bool,
    pub note: Seq<char>,
}

pub open spec fn page_view(p: ManualPageAudit) -> PageView {
    PageView {
        url: p.url@, source_domain: p.source_domain@, status: p.status@, http_status: p.http_status, title: p.title@,
        has_backlink: p.has_backlink, backlink_count: p.backlink_count as int,
        anchors: p.anchors@.map_values(|x: String| x@), rel_values: p.rel_values@.map_values(|x: String| x@),
        has_brand_mention: p.has_brand_mention, has_domain_mention: p.has_domain_mention, note: p.note@,
    }
}

/// An audit state by its values.
pub struct AuditView {
    pub phase: AuditPhase,
    pub raw: Seq<char>,
    pub target: Seq<char>,
    pub brand: Seq<char>,
    pub url: Seq<char>,
    pub host: Seq<char>,
    pub path: Seq<char>,
    pub source_domain: Seq<char>,
    pub http_status: u16,
    pub result: Option<PageView>,
}

pub open spec fn audit_view(s: AuditState) -> AuditView {
    AuditView {
        phase: s.phase, raw: s.raw@, target: s.target@, brand: s.brand@, url: s.url@, host: s.host@, path: s.path@,
        source_domain: s.source_domain@, http_status: s.http_status,
        result: match s.result { Some(p) => Some(page_view(p)), None => None },
    }
}

/// An event by its values.
pub enum EventView {
    Parsed(Result<(Seq<char>, Seq<char>, Option<Seq<char>>, Seq<char>), Seq<char>>),
    Resolved(Result<Seq<IpAddress>, Seq<char>>),
    Robots(Option<Seq<char>>),
    Response(Result<(u16, Option<u64>), Seq<char>>),
    Body(Result<u64, Seq<char>>),
    Page(Seq<char>, Seq<(Seq<char>, Seq<char>, Option<Seq<char>>)>, Seq<char>),
}

pub open spec fn event_view(e: AuditEvent) -> EventView {
    match e {
        AuditEvent::Parsed(Ok(p)) => EventView::Parsed(Ok((p.url@, p.scheme@,
            match p.host { Some(h) => Some(h@), None => None }, p.path@))),
        AuditEvent::Parsed(Err(m)) => EventView::Parsed(Err(m@)),
        AuditEvent::Resolved(Ok(a)) => EventView::Resolved(Ok(a@)),
        AuditEvent::Resolved(Err(m)) => EventView::Resolved(Err(m@)),
        AuditEvent::Robots(b) => EventView::Robots(match b { Some(x) => Some(x@), None => None }),
        AuditEvent::Response(Ok(x)) => EventView::Response(Ok(x)),
        AuditEvent::Response(Err(m)) => EventView::Response(Err(m@)),
        AuditEvent::Body(Ok(n)) => EventView::Body(Ok(n)),
        AuditEvent::Body(Err(m)) => EventView::Body(Err(m@)),
        AuditEvent::Page(t, a, v) => EventView::Page(t@, a@.map_values(|x: Anchor| anchor_view(x)), v@),
    }
}

/// The result of a page that was not read: why, and nothing found on it.
pub open spec fn fallback(raw: Seq<char>, status: Seq<char>, note: Seq<char>) -> PageView {
    PageView {
        url: raw, source_domain: Seq::empty(), status, http_status: None, title: Seq::empty(), has_backlink: false,
        backlink_count: 0, anchors: Seq::empty(), rel_values: Seq::empty(), has_brand_mention: false,
        has_domain_mention: false, note,
    }
}

/// The state with the page's result set and the audit over.
pub open spec fn finished(v: AuditView, p: PageView) -> (AuditView, AuditAction) {
    (AuditView { phase: AuditPhase::Done, result: Some(p), ..v }, AuditAction::Finish)
}

/// What the caller is waiting to do in each phase.
pub open spec fn pending(phase: AuditPhase) -> AuditAction {
    match phase {
        AuditPhase::Start => AuditAction::Resolve,
        AuditPhase::Resolving => AuditAction::Resolve,
        AuditPhase::Robots => AuditAction::FetchRobots,
        AuditPhase::Fetching => AuditAction::FetchPage,
        AuditPhase::Reading => AuditAction::ReadBody,
        AuditPhase::Parsing => AuditAction::ParseBody,
        AuditPhase::Done => AuditAction::Finish,
    }
}

pub open spec fn refusal_message(r: UrlRefusal) -> Seq<char> {
    match r {
        UrlRefusal::NotHttp => "Only HTTP(S) URLs are allowed"@,
        UrlRefusal::NoHost => "URL has no host"@,
        UrlRefusal::Localhost => "Local addresses are not allowed"@,
        UrlRefusal::PrivateAddress => "Private or local network addresses are not allowed"@,
    }
}

/// The host resolved to `addrs`: a private address or the target's own
/// domain is skipped; otherwise `robots.txt` is next.
pub open spec fn spec_resolved(v: AuditView, addrs: Seq<IpAddress>) -> (AuditView, AuditAction) {
    let sd = spec_source_host(v.host);
    if exists|i: int| 0 <= i < addrs.len() && spec_unsafe_ip(#[trigger] addrs[i]) {
        finished(v, fallback(v.raw, "skipped"@, refusal_message(UrlRefusal::PrivateAddress)))
    } else if spec_is_target_host(sd, v.target) {
        finished(v, fallback(v.raw, "skipped"@, "Target's own domain is excluded"@))
    } else {
        (AuditView { phase: AuditPhase::Robots, source_domain: sd, ..v }, AuditAction::FetchRobots)
    }
}

/// The next state of a page's audit and what to do next: an unparsable URL
/// is `invalid`; a URL refused, a failed lookup, a private address or the
/// target's own domain is `skipped`; a path `robots.txt` disallows is
/// `robots_blocked`; a failed request or read is `request_failed`; 403 and
/// 429 are `blocked` and other failures `http_error`, both with the status;
/// a body over the limit is `too_large`; a page read is `audited` with its
/// links to the target and its mentions. An event the phase does not wait
/// for changes nothing.
pub open spec fn spec_audit_step(v: AuditView, e: EventView) -> (AuditView, AuditAction) {
    match (v.phase, e) {
        (AuditPhase::Start, EventView::Parsed(Err(m))) => finished(v, fallback(v.raw, "invalid"@, m)),
        (AuditPhase::Start, EventView::Parsed(Ok((url, scheme, host, path)))) =>
            match spec_check_url(scheme, host) {
                Some(r) => finished(v, fallback(v.raw, "skipped"@, refusal_message(r))),
                None => (AuditView { phase: AuditPhase::Resolving, url, host: host->Some_0, path, ..v }, AuditAction::Resolve),
            },
        (AuditPhase::Resolving, EventView::Resolved(Err(m))) => finished(v, fallback(v.raw, "skipped"@, m)),
        (AuditPhase::Resolving, EventView::Resolved(Ok(addrs))) => spec_resolved(v, addrs),
        (AuditPhase::Robots, EventView::Robots(body)) =>
            if body is Some && !spec_robots_allows(body->Some_0, v.path) {
                finished(v, fallback(v.raw, "robots_blocked"@, "robots.txt disallows this path"@))
            } else {
                (AuditView { phase: AuditPhase::Fetching, ..v }, AuditAction::FetchPage)
            },
        (AuditPhase::Fetching, EventView::Response(Err(m))) => finished(v, fallback(v.raw, "request_failed"@, m)),
        (AuditPhase::Fetching, EventView::Response(Ok((code, len)))) =>
            if code == 403 || code == 429 {
                finished(v, PageView { http_status: Some(code), source_domain: v.source_domain,
                    ..fallback(v.raw, "blocked"@, "Server returned HTTP "@ + crate::number::decimal(code as nat) + "; no bypass attempted"@) })
            } else if !(200 <= code <= 299) {
                finished(v, PageView { http_status: Some(code), source_domain: v.source_domain,
                    ..fallback(v.raw, "http_error"@, "HTTP "@ + crate::number::decimal(code as nat)) })
            } else if len is Some && len->Some_0 > MAX_BODY_BYTES {
                finished(v, fallback(v.raw, "too_large"@, "Page exceeds the 2 MB audit limit"@))
            } else {
                (AuditView { phase: AuditPhase::Reading, http_status: code, ..v }, AuditAction::ReadBody)
            },
        (AuditPhase::Reading, EventView::Body(Err(m))) => finished(v, fallback(v.raw, "request_failed"@, m)),
        (AuditPhase::Reading, EventView::Body(Ok(n))) =>
            if n > MAX_BODY_BYTES {
                finished(v, fallback(v.raw, "too_large"@, "Page exceeds the 2 MB audit limit"@))
            } else {
                (AuditView { phase: AuditPhase::Parsing, ..v }, AuditAction::ParseBody)
            },
        (AuditPhase::Parsing, EventView::Page(title, anchors, visible)) => {
            let (count, texts, rels) = spec_tally(anchors, v.target);
            let (brand, domain) = spec_mentions(visible, v.brand, v.target);
            finished(v, PageView {
                url: v.url, source_domain: v.source_domain, status: "audited"@, http_status: Some(v.http_status),
                title, has_backlink: count > 0, backlink_count: count, anchors: texts, rel_values: rels,
                has_brand_mention: brand, has_domain_mention: domain,
                note: "Fetched with robots.txt check and conservative limits"@,
            })
        },
        _ => (v, pending(v.phase)),
    }
}

fn text_of(s: &str) -> (r: String)
    ensures
        r@ == s@,
{
    string_of(&chars_of(s))
}

fn fallback_page(raw: &String, status: &str, note: String) -> (p: ManualPageAudit)
    ensures
        page_view(p) == fallback(raw@, status@, note@),
{
    let p = ManualPageAudit {
        url: raw.clone(), source_domain: text_of(""), status: text_of(status), http_status: None, title: text_of(""),
        has_backlink: false, backlink_count: 0, anchors: Vec::new(), rel_values: Vec::new(), has_brand_mention: false,
        has_domain_mention: false, note,
    };
    proof {
        reveal_strlit("");
        assert(p.anchors@.map_values(|x: String| x@) =~= Seq::<Seq<char>>::empty());
        assert(p.rel_values@.map_values(|x: String| x@) =~= Seq::<Seq<char>>::empty());
        assert(p.source_domain@ =~= Seq::<char>::empty());
        assert(p.title@ =~= Seq::<char>::empty());
    }
    p
}

impl AuditState {
    /// The audit of the page `raw` for `target`, mentions of `brand` looked for.
    pub fn new(raw: String, target: String, brand: String) -> (s: AuditState)
        ensures
            s.phase == AuditPhase::Start,
            s.raw@ == raw@,
            s.target@ == target@,
            s.brand@ == brand@,
            s.result is None,
    {
        AuditState {
            phase: AuditPhase::Start, raw, target, brand, url: text_of(""), host: text_of(""), path: text_of(""),
            source_domain: text_of(""), http_status: 0, result: None,
        }
    }

    fn finish(self, p: ManualPageAudit) -> (r: (AuditState, AuditAction))
        ensures
            (audit_view(r.0), r.1) == finished(audit_view(self), page_view(p)),
    {
        (AuditState { phase: AuditPhase::Done, result: Some(p), ..self }, AuditAction::Finish)
    }
}

/// One answer for the page's audit: the next state and what to do next.
#[verifier::rlimit(60)]
pub fn audit_step(state: AuditState, event: AuditEvent) -> (r: (AuditState, AuditAction))
    ensures
        (audit_view(r.0), r.1) == spec_audit_step(audit_view(state), event_view(event)),
{
    let ghost v = audit_view(state);
    let ghost ev = event_view(event);
    match (state.phase, event) {
        (AuditPhase::Start, AuditEvent::Parsed(Err(m))) => {
            let p = fallback_page(&state.raw, "invalid", m);
            state.finish(p)
        },
        (AuditPhase::Start, AuditEvent::Parsed(Ok(parsed))) => {
            let refusal = match &parsed.host {
                Some(h) => check_url(parsed.scheme.as_str(), Some(h.as_str())),
                None => check_url(parsed.scheme.as_str(), None),
            };
            match refusal {
                Some(r) => {
                    let p = fallback_page(&state.raw, "skipped", text_of(r.message()));
                    state.finish(p)
                },
                None => {
                    let host = match parsed.host {
                        Some(h) => h,
                        None => text_of(""),
                    };
                    (AuditState { phase: AuditPhase::Resolving, url: parsed.url, host, path: parsed.path, ..state },
                        AuditAction::Resolve)
                },
            }
        },
        (AuditPhase::Resolving, AuditEvent::Resolved(Err(m))) => {
            let p = fallback_page(&state.raw, "skipped", m);
            state.finish(p)
        },
        (AuditPhase::Resolving, AuditEvent::Resolved(Ok(addrs))) => {
            let sd = source_host(state.host.as_str());
            assert(spec_audit_step(v, ev) == spec_resolved(v, addrs@));
            if any_unsafe(addrs.as_slice()) {
                let p = fallback_page(&state.raw, "skipped", text_of(UrlRefusal::PrivateAddress.message()));
                proof {
                    let i = choose|i: int| 0 <= i < addrs@.len() && spec_unsafe_ip(#[trigger] addrs@[i]);
                    assert(spec_unsafe_ip(addrs@[i]));
                }
                state.finish(p)
            } else if is_target_host(sd.as_str(), state.target.as_str()) {
                let p = fallback_page(&state.raw, "skipped", text_of("Target's own domain is excluded"));
                state.finish(p)
            } else {
                (AuditState { phase: AuditPhase::Robots, source_domain: sd, ..state }, AuditAction::FetchRobots)
            }
        },
        (AuditPhase::Robots, AuditEvent::Robots(body)) => {
            let blocked = match &body {
                Some(b) => !robots_allows(b.as_str(), state.path.as_str()),
                None => false,
            };
            if blocked {
                let p = fallback_page(&state.raw, "robots_blocked", text_of("robots.txt disallows this path"));
                state.finish(p)
            } else {
                (AuditState { phase: AuditPhase::Fetching, ..state }, AuditAction::FetchPage)
            }
        },
        (AuditPhase::Fetching, AuditEvent::Response(Err(m))) => {
            let p = fallback_page(&state.raw, "request_failed", m);
            state.finish(p)
        },
        (AuditPhase::Fetching, AuditEvent::Response(Ok((code, len)))) => {
            match http_verdict(code) {
                HttpVerdict::Blocked => {
                    let mut note = chars_of("Server returned HTTP ");
                    let digits = crate::number::decimal_chars(code as u128);
                    crate::number::append_chars(&mut note, &digits);
                    crate::number::append_str(&mut note, "; no bypass attempted");
                    let mut p = fallback_page(&state.raw, "blocked", string_of(&note));
                    p.http_status = Some(code);
                    p.source_domain = state.source_domain.clone();
                    state.finish(p)
                },
                HttpVerdict::HttpError => {
                    let mut note = chars_of("HTTP ");
                    let digits = crate::number::decimal_chars(code as u128);
                    crate::number::append_chars(&mut note, &digits);
                    let mut p = fallback_page(&state.raw, "http_error", string_of(&note));
                    p.http_status = Some(code);
                    p.source_domain = state.source_domain.clone();
                    state.finish(p)
                },
                HttpVerdict::Fetched => {
                    let over = match len {
                        Some(l) => too_large(l),
                        None => false,
                    };
                    if over {
                        let p = fallback_page(&state.raw, "too_large", text_of("Page exceeds the 2 MB audit limit"));
                        state.finish(p)
                    } else {
                        (AuditState { phase: AuditPhase::Reading, http_status: code, ..state }, AuditAction::ReadBody)
                    }
                },
            }
        },
        (AuditPhase::Reading, AuditEvent::Body(Err(m))) => {
            let p = fallback_page(&state.raw, "request_failed", m);
            state.finish(p)
        },
        (AuditPhase::Reading, AuditEvent::Body(Ok(n))) => {
            if too_large(n) {
                let p = fallback_page(&state.raw, "too_large", text_of("Page exceeds the 2 MB audit limit"));
                state.finish(p)
            } else {
                (AuditState { phase: AuditPhase::Parsing, ..state }, AuditAction::ParseBody)
            }
        },
        (AuditPhase::Parsing, AuditEvent::Page(title, anchors, visible)) => {
            let (count, texts, rels) = tally_anchors(&anchors, state.target.as_str());
            let (brand, domain) = mentions(visible.as_str(), state.brand.as_str(), state.target.as_str());
            let p = ManualPageAudit {
                url: state.url.clone(), source_domain: state.source_domain.clone(), status: text_of("audited"),
                http_status: Some(state.http_status), title, has_backlink: count > 0, backlink_count: count,
                anchors: texts, rel_values: rels, has_brand_mention: brand, has_domain_mention: domain,
                note: text_of("Fetched with robots.txt check and conservative limits"),
            };
            state.finish(p)
        },
        (phase, _) => {
            let a = match phase {
                AuditPhase::Start => AuditAction::Resolve,
                AuditPhase::Resolving => AuditAction::Resolve,
                AuditPhase::Robots => AuditAction::FetchRobots,
                AuditPhase::Fetching => AuditAction::FetchPage,
                AuditPhase::Reading => AuditAction::ReadBody,
                AuditPhase::Parsing => AuditAction::ParseBody,
                AuditPhase::Done => AuditAction::Finish,
            };
            (state, a)
        },
    }
}

} // verus!
