//! Byte-level helpers shared by every pass over the graph files:
//! byte search, decimal parsing, line-ending trimming and tab splitting.

use vstd::prelude::*;

verus! {

/// Index of the first occurrence of `b` in `s`, if any.
pub open spec fn first_index_of(s: Seq<u8>, b: u8) -> Option<int> {
    if exists|i: int| 0 <= i < s.len() && s[i] == b {
        Some(choose|i: int| 0 <= i < s.len() && s[i] == b && forall|j: int| 0 <= j < i ==> s[j] != b)
    } else {
        None
    }
}

/// `memchr::memchr`: the position of the first byte equal to `needle`.
/// Its documentation states it is the same as
/// `haystack.iter().position(|&b| b == needle)`; the contract says exactly that.
#[verifier::external_body]
pub(crate) fn find_byte(needle: u8, haystack: &[u8]) -> (r: Option<usize>)
    ensures
        match r {
            Some(i) => i < haystack@.len() && haystack@[i as int] == needle
                && forall|j: int| 0 <= j < i ==> haystack@[j] != needle,
            None => forall|j: int| 0 <= j < haystack@.len() ==> haystack@[j] != needle,
        },
{
    memchr::memchr(needle, haystack)
}

/// `memchr::memrchr`: the position of the last byte equal to `needle`.
/// Its documentation states it is the same as
/// `haystack.iter().rposition(|&b| b == needle)`; the contract says exactly that.
#[verifier::external_body]
pub(crate) fn find_last_byte(needle: u8, haystack: &[u8]) -> (r: Option<usize>)
    ensures
        match r {
            Some(i) => i < haystack@.len() && haystack@[i as int] == needle
                && forall|j: int| i < j < haystack@.len() ==> haystack@[j] != needle,
            None => forall|j: int| 0 <= j < haystack@.len() ==> haystack@[j] != needle,
        },
{
    memchr::memrchr(needle, haystack)
}

pub open spec fn is_digit(b: u8) -> bool {
    48 <= b <= 57
}

pub open spec fn all_digits(s: Seq<u8>) -> bool {
    forall|i: int| 0 <= i < s.len() ==> is_digit(#[trigger] s[i])
}

/// The number a string of ASCII digits spells, most significant first.
pub open spec fn decimal_value(s: Seq<u8>) -> nat
    decreases s.len(),
{
    if s.len() == 0 {
        0
    } else {
        (decimal_value(s.drop_last()) * 10 + (s.last() - 48)) as nat
    }
}

/// What `parse_u32` accepts: one or more ASCII digits spelling a value that fits a `u32`.
pub open spec fn spec_parse_u32(s: Seq<u8>) -> Option<u32> {
    if s.len() > 0 && all_digits(s) && decimal_value(s) <= u32::MAX {
        Some(decimal_value(s) as u32)
    } else {
        None
    }
}

proof fn lemma_decimal_value_monotone(s: Seq<u8>, k: int)
    requires
        0 <= k <= s.len(),
        all_digits(s),
    ensures
        decimal_value(s.subrange(0, k)) <= decimal_value(s),
    decreases s.len() - k,
{
    if k < s.len() {
        lemma_decimal_value_monotone(s, k + 1);
        assert(s.subrange(0, k + 1).drop_last() =~= s.subrange(0, k));
        assert(is_digit(s[k]));
    } else {
        assert(s.subrange(0, k) =~= s);
    }
}

/// Parse a decimal `u32` from ASCII bytes without an intermediate `String`.
pub fn parse_u32(bytes: &[u8]) -> (r: Option<u32>)
    ensures
        r == spec_parse_u32(bytes@),
{
    if bytes.len() == 0 {
        return None;
    }
    let mut n: u32 = 0;
    let mut i: usize = 0;
    while i < bytes.len()
        invariant
            0 <= i <= bytes.len(),
            bytes.len() > 0,
            all_digits(bytes@.subrange(0, i as int)),
            n as nat == decimal_value(bytes@.subrange(0, i as int)),
        decreases bytes.len() - i,
    {
        let b = bytes[i];
        assert(bytes@.subrange(0, i + 1).drop_last() =~= bytes@.subrange(0, i as int));
        if !(48u8 <= b && b <= 57u8) {
            proof {
                assert(!is_digit(bytes@[i as int]));
                assert(!all_digits(bytes@));
            }
            return None;
        }
        if n > 429496729 || (n == 429496729 && b - 48u8 > 5) {
            proof {
                let j = i + 1;
                assert(all_digits(bytes@.subrange(0, j as int)));
                assert(decimal_value(bytes@.subrange(0, j as int)) > u32::MAX);
                if all_digits(bytes@) {
                    lemma_decimal_value_monotone(bytes@, j as int);
                }
            }
            return None;
        }
        n = n * 10 + (b - 48u8) as u32;
        i = i + 1;
    }
    assert(bytes@.subrange(0, i as int) =~= bytes@);
    Some(n)
}


/// The position of the first byte satisfying nothing but being `b`,
/// characterised without a witness: every earlier byte differs.
pub open spec fn is_first_index(s: Seq<u8>, b: u8, i: int) -> bool {
    0 <= i < s.len() && s[i] == b && forall|j: int| 0 <= j < i ==> s[j] != b
}

pub proof fn lemma_first_index_unique(s: Seq<u8>, b: u8, i: int)
    requires
        is_first_index(s, b, i),
    ensures
        first_index_of(s, b) == Some(i),
{
    let j = choose|j: int| 0 <= j < s.len() && s[j] == b && forall|k: int| 0 <= k < j ==> s[k] != b;
    assert(0 <= j < s.len() && s[j] == b && forall|k: int| 0 <= k < j ==> s[k] != b);
    if j < i {
        assert(s[j] != b);
    }
    if i < j {
        assert(s[i] != b);
    }
}

pub proof fn lemma_first_index_none(s: Seq<u8>, b: u8)
    requires
        forall|j: int| 0 <= j < s.len() ==> s[j] != b,
    ensures
        first_index_of(s, b) == None::<int>,
{
}

proof fn first_at(a: Seq<u8>, b: u8, at: int) -> (p: int)
    requires
        0 <= at < a.len(),
        a[at] == b,
    ensures
        is_first_index(a, b, p),
    decreases a.len(),
{
    if a[0] == b {
        0
    } else {
        let t = a.drop_first();
        let q = first_at(t, b, at - 1);
        assert forall|k: int| 0 <= k < q + 1 implies a[k] != b by {
            if k > 0 {
                assert(a[k] == t[k - 1]);
            }
        }
        q + 1
    }
}

/// The index `first_index_of` gives is the first one.
pub proof fn lemma_first_index_some(s: Seq<u8>, b: u8)
    requires
        first_index_of(s, b) is Some,
    ensures
        is_first_index(s, b, first_index_of(s, b)->Some_0),
{
    let j = choose|j: int| 0 <= j < s.len() && s[j] == b;
    let p = first_at(s, b, j);
    lemma_first_index_unique(s, b, p);
}

/// `memchr` with the result tied to `first_index_of`.
pub fn find(needle: u8, haystack: &[u8]) -> (r: Option<usize>)
    ensures
        match r {
            Some(i) => first_index_of(haystack@, needle) == Some(i as int) && i < haystack@.len(),
            None => first_index_of(haystack@, needle) == None::<int>,
        },
{
    let r = find_byte(needle, haystack);
    proof {
        match r {
            Some(i) => lemma_first_index_unique(haystack@, needle, i as int),
            None => lemma_first_index_none(haystack@, needle),
        }
    }
    r
}

/// A line with its trailing `\n` and then `\r` removed.
pub open spec fn spec_trim_eol(s: Seq<u8>) -> Seq<u8> {
    let a = if s.len() > 0 && s.last() == 10 { s.drop_last() } else { s };
    if a.len() > 0 && a.last() == 13 { a.drop_last() } else { a }
}

/// Strip a trailing `\n` and `\r`: the same line on Windows and Unix.
pub fn trim_eol(line: &[u8]) -> (r: &[u8])
    ensures
        r@ == spec_trim_eol(line@),
{
    let mut end = line.len();
    if end > 0 && line[end - 1] == 10u8 {
        end -= 1;
    }
    if end > 0 && line[end - 1] == 13u8 {
        end -= 1;
    }
    &line[0..end]
}

/// `ends` lists the position of every tab of `line`, ascending.
pub open spec fn tab_positions(line: Seq<u8>, ends: Seq<usize>) -> bool {
    &&& forall|k: int| 0 <= k < ends.len() ==> ends[k] < line.len() && line[ends[k] as int] == 9
    &&& forall|k: int, m: int| 0 <= k < m < ends.len() ==> ends[k] < ends[m]
    &&& forall|j: int| 0 <= j < line.len() && line[j] == 9 ==> exists|k: int| 0 <= k < ends.len() && ends[k] == j
}

/// Fields of a tab-separated line, zero-copy: `out` receives every tab position.
pub fn tab_fields(line: &[u8], out: &mut Vec<usize>)
    ensures
        tab_positions(line@, final(out)@),
{
    out.clear();
    let mut offset: usize = 0;
    while offset < line.len()
        invariant
            0 <= offset <= line.len(),
            forall|k: int| 0 <= k < out@.len() ==> out@[k] < offset && line@[out@[k] as int] == 9,
            forall|k: int, m: int| 0 <= k < m < out@.len() ==> out@[k] < out@[m],
            forall|j: int| 0 <= j < offset && line@[j] == 9 ==> exists|k: int| 0 <= k < out@.len() && out@[k] == j,
        decreases line.len() - offset,
    {
        let rest = &line[offset..line.len()];
        match find_byte(9u8, rest) {
            Some(pos) => {
                let ghost before = out@;
                out.push(offset + pos);
                proof {
                    assert forall|j: int| 0 <= j < offset + pos + 1 && line@[j] == 9 implies
                        exists|k: int| 0 <= k < out@.len() && out@[k] == j by {
                        if j < offset {
                            let k = choose|k: int| 0 <= k < before.len() && before[k] == j;
                            assert(out@[k] == j);
                        } else if j < offset + pos {
                            assert(rest@[j - offset] == 9);
                        } else {
                            assert(out@[before.len() as int] == j);
                        }
                    }
                }
                offset = offset + pos + 1;
            },
            None => {
                proof {
                    assert forall|j: int| 0 <= j < line.len() && line@[j] == 9 implies
                        exists|k: int| 0 <= k < out@.len() && out@[k] == j by {
                        if j >= offset {
                            assert(rest@[j - offset] == 9);
                        }
                    }
                }
                offset = line.len();
            },
        }
    }
}

/// Number of leading ASCII digits of `s`.
pub open spec fn digit_run(s: Seq<u8>) -> nat
    decreases s.len(),
{
    if s.len() == 0 {
        0
    } else if is_digit(s[0]) {
        1 + digit_run(s.drop_first())
    } else {
        0
    }
}

proof fn lemma_digit_run_step(s: Seq<u8>, e: int)
    requires
        0 <= e < s.len(),
        forall|i: int| 0 <= i <= e ==> is_digit(#[trigger] s[i]),
    ensures
        digit_run(s) == e + 1 + digit_run(s.subrange(e + 1, s.len() as int)),
    decreases e,
{
    if e == 0 {
        assert(s.drop_first() =~= s.subrange(1, s.len() as int));
    } else {
        let t = s.drop_first();
        assert forall|i: int| 0 <= i <= e - 1 implies is_digit(#[trigger] t[i]) by {
            assert(t[i] == s[i + 1]);
        }
        lemma_digit_run_step(t, e - 1);
        assert(t.subrange(e, t.len() as int) =~= s.subrange(e + 1, s.len() as int));
    }
}

proof fn lemma_digit_run_stop(s: Seq<u8>)
    requires
        s.len() == 0 || !is_digit(s[0]),
    ensures
        digit_run(s) == 0,
{
}

/// Length of the run of ASCII digits at the start of `s`.
pub fn digit_prefix_len(s: &[u8]) -> (r: usize)
    ensures
        r == digit_run(s@),
        r <= s@.len(),
{
    let mut e: usize = 0;
    assert(s@.subrange(0, s@.len() as int) =~= s@);
    while e < s.len() && 48u8 <= s[e] && s[e] <= 57u8
        invariant
            0 <= e <= s.len(),
            forall|i: int| 0 <= i < e ==> is_digit(#[trigger] s@[i]),
            e + digit_run(s@.subrange(e as int, s@.len() as int)) == digit_run(s@),
        decreases s.len() - e,
    {
        proof {
            lemma_digit_run_step(s@.subrange(e as int, s@.len() as int), 0);
            assert(s@.subrange(e as int, s@.len() as int).subrange(1, s@.len() - e) =~= s@.subrange(e + 1, s@.len() as int));
        }
        e = e + 1;
    }
    proof {
        let rest = s@.subrange(e as int, s@.len() as int);
        if e < s.len() {
            assert(rest[0] == s@[e as int]);
        }
        lemma_digit_run_stop(rest);
    }
    e
}

/// `from_id \t to_id [\t …]`: the pair of ids an edges line names, if it names one.
#[verifier::opaque]
pub open spec fn spec_parse_edge_line(line: Seq<u8>) -> Option<(u32, u32)> {
    match first_index_of(line, 9) {
        None => None,
        Some(tab) => {
            let rest = line.subrange(tab + 1, line.len() as int);
            match (spec_parse_u32(line.subrange(0, tab)), spec_parse_u32(rest.subrange(0, digit_run(rest) as int))) {
                (Some(from), Some(to)) => Some((from, to)),
                _ => None,
            }
        },
    }
}

/// `from_id \t to_id [\t …]`
pub fn parse_edge_line(line: &[u8]) -> (r: Option<(u32, u32)>)
    ensures
        r == spec_parse_edge_line(line@),
{
    reveal(spec_parse_edge_line);
    let found = find(9u8, line);
    if found.is_none() {
        return None;
    }
    let tab = found.unwrap();
    assert(tab < line@.len());
    let n = line.len();
    assert(tab < n);
    let from = match parse_u32(&line[0..tab]) {
        Some(f) => f,
        None => return None,
    };
    let rest = &line[tab + 1..n];
    let end = digit_prefix_len(rest);
    let to = match parse_u32(&rest[0..end]) {
        Some(t) => t,
        None => return None,
    };
    Some((from, to))
}

/// `id \t reverse_domain [\t n_hosts]`: the id and the non-empty name a vertices line holds.
pub open spec fn spec_parse_vertex_line(line: Seq<u8>) -> Option<(u32, Seq<u8>)> {
    match first_index_of(line, 9) {
        None => None,
        Some(tab) => {
            let rest = line.subrange(tab + 1, line.len() as int);
            let name = match first_index_of(rest, 9) {
                Some(e) => rest.subrange(0, e),
                None => rest,
            };
            match spec_parse_u32(line.subrange(0, tab)) {
                Some(id) => if name.len() == 0 { None } else { Some((id, name)) },
                None => None,
            }
        },
    }
}

/// `id \t reverse_domain [\t n_hosts]`
pub fn parse_vertex_line(line: &[u8]) -> (r: Option<(u32, &[u8])>)
    ensures
        match r {
            Some((id, name)) => spec_parse_vertex_line(line@) == Some((id, name@)),
            None => spec_parse_vertex_line(line@) == None::<(u32, Seq<u8>)>,
        },
{
    let found = find(9u8, line);
    if found.is_none() {
        return None;
    }
    let tab = found.unwrap();
    assert(tab < line@.len());
    let n = line.len();
    assert(tab < n);
    let id = match parse_u32(&line[0..tab]) {
        Some(v) => v,
        None => return None,
    };
    let rest = &line[tab + 1..n];
    let name_end = match find(9u8, rest) {
        Some(e) => e,
        None => rest.len(),
    };
    let name = &rest[0..name_end];
    proof {
        if first_index_of(rest@, 9) is None {
            assert(rest@.subrange(0, name_end as int) =~= rest@);
        }
    }
    if name.len() == 0 {
        None
    } else {
        Some((id, name))
    }
}


/// The lines of `s`, each with its terminating `\n` (the last one may lack it).
#[verifier::opaque]
pub open spec fn split_lines(s: Seq<u8>) -> Seq<Seq<u8>>
    decreases s.len(),
{
    if s.len() == 0 {
        Seq::empty()
    } else {
        match first_index_of(s, 10) {
            Some(p) => {
                if 0 <= p < s.len() {
                    seq![s.subrange(0, p + 1)] + split_lines(s.subrange(p + 1, s.len() as int))
                } else {
                    seq![s]
                }
            },
            None => seq![s],
        }
    }
}

pub proof fn lemma_split_lines_cut(r: Seq<u8>, p: int)
    requires
        is_first_index(r, 10, p),
    ensures
        split_lines(r) == seq![r.subrange(0, p + 1)] + split_lines(r.subrange(p + 1, r.len() as int)),
{
    reveal(split_lines);
    lemma_first_index_unique(r, 10, p);
}

pub proof fn lemma_split_lines_whole(r: Seq<u8>)
    requires
        r.len() > 0,
        forall|j: int| 0 <= j < r.len() ==> r[j] != 10,
    ensures
        split_lines(r) == seq![r],
{
    reveal(split_lines);
    lemma_first_index_none(r, 10);
}

/// A text has no more lines than bytes.
pub proof fn lemma_split_lines_len(s: Seq<u8>)
    ensures
        split_lines(s).len() <= s.len(),
    decreases s.len(),
{
    reveal(split_lines);
    if s.len() > 0 {
        match first_index_of(s, 10) {
            Some(p) => {
                if 0 <= p < s.len() {
                    lemma_split_lines_len(s.subrange(p + 1, s.len() as int));
                }
            },
            None => {},
        }
    }
}

/// The empty text has no lines.
pub proof fn lemma_split_lines_empty()
    ensures
        split_lines(Seq::<u8>::empty()) == Seq::<Seq<u8>>::empty(),
{
    reveal(split_lines);
}

proof fn first_newline(a: Seq<u8>, at: int) -> (p: int)
    requires
        0 <= at < a.len(),
        a[at] == 10,
    ensures
        is_first_index(a, 10, p),
    decreases a.len(),
{
    if a[0] == 10 {
        0
    } else {
        let t = a.drop_first();
        let q = first_newline(t, at - 1);
        assert forall|k: int| 0 <= k < q + 1 implies a[k] != 10 by {
            if k > 0 {
                assert(a[k] == t[k - 1]);
            }
        }
        q + 1
    }
}

/// Text ending with a newline splits into its own lines, whatever follows.
#[verifier::spinoff_prover]
pub proof fn lemma_split_lines_concat(a: Seq<u8>, b: Seq<u8>)
    requires
        a.len() > 0,
        a.last() == 10,
    ensures
        split_lines(a + b) == split_lines(a) + split_lines(b),
    decreases a.len(),
{
    let p = first_newline(a, a.len() - 1);
    let ab = a + b;
    assert(is_first_index(ab, 10, p)) by {
        assert(ab[p] == a[p]);
        assert forall|k: int| 0 <= k < p implies ab[k] != 10 by {
            assert(ab[k] == a[k]);
        }
    }
    lemma_split_lines_cut(a, p);
    lemma_split_lines_cut(ab, p);
    assert(ab.subrange(0, p + 1) =~= a.subrange(0, p + 1));
    let rest = a.subrange(p + 1, a.len() as int);
    assert(ab.subrange(p + 1, ab.len() as int) =~= rest + b);
    if p + 1 == a.len() {
        assert(rest =~= Seq::<u8>::empty());
        assert(rest + b =~= b);
        lemma_split_lines_empty();
        assert(split_lines(a) =~= seq![a.subrange(0, p + 1)]);
        assert(split_lines(a) + split_lines(b) =~= seq![a.subrange(0, p + 1)] + split_lines(b));
    } else {
        assert(rest.last() == 10);
        lemma_split_lines_concat(rest, b);
        assert(seq![a.subrange(0, p + 1)] + (split_lines(rest) + split_lines(b))
            =~= (seq![a.subrange(0, p + 1)] + split_lines(rest)) + split_lines(b));
    }
}

/// End (exclusive) of the line that starts at `cursor`.
#[verifier::spinoff_prover]
#[verifier::rlimit(50)]
pub fn next_line_end(bytes: &[u8], cursor: usize) -> (end: usize)
    requires
        cursor < bytes@.len(),
    ensures
        cursor < end <= bytes@.len(),
        split_lines(bytes@.subrange(cursor as int, bytes@.len() as int)) == seq![bytes@.subrange(cursor as int, end as int)]
            + split_lines(bytes@.subrange(end as int, bytes@.len() as int)),
{
    let n = bytes.len();
    let rest = &bytes[cursor..n];
    let ghost r = bytes@.subrange(cursor as int, n as int);
    assert(rest@ == r);
    match find_byte(10u8, rest) {
        Some(p) => {
            proof {
                lemma_split_lines_cut(r, p as int);
                assert(r.subrange(0, p + 1) =~= bytes@.subrange(cursor as int, cursor + p + 1));
                assert(r.subrange(p + 1, r.len() as int) =~= bytes@.subrange(cursor + p + 1, n as int));
            }
            cursor + p + 1
        },
        None => {
            proof {
                lemma_split_lines_whole(r);
                assert(bytes@.subrange(cursor as int, n as int) =~= r);
                assert(bytes@.subrange(n as int, n as int) =~= Seq::<u8>::empty());
                lemma_split_lines_empty();
                assert(seq![r] + Seq::<Seq<u8>>::empty() =~= seq![r]);
            }
            n
        },
    }
}

/// The pieces partition `data` in order, none is empty, and every piece
/// but the last ends with a newline.
pub open spec fn line_partition(data: Seq<u8>, pieces: Seq<Seq<u8>>) -> bool {
    &&& pieces.flatten() == data
    &&& forall|k: int| 0 <= k < pieces.len() ==> (#[trigger] pieces[k]).len() > 0
    &&& forall|k: int| 0 <= k < pieces.len() - 1 ==> (#[trigger] pieces[k]).last() == 10
}

/// Split a byte buffer of complete lines into at most `parts` slices, each
/// ending on a line boundary, so that workers never split a record.
#[verifier::rlimit(40)]
pub fn split_on_lines(data: &[u8], parts: usize) -> (out: Vec<&[u8]>)
    ensures
        parts <= 1 || data@.len() < parts ==> out@.len() == 1 && out@[0]@ == data@,
        data@.len() > 0 ==> line_partition(data@, out@.map_values(|p: &[u8]| p@)),
        out@.len() <= if parts <= 1 { 1 } else { parts as int },
        data@.len() > 0 && data@.last() == 10 ==> forall|k: int| 0 <= k < out@.len() ==> (#[trigger] out@[k])@.last() == 10,
{
    if parts <= 1 || data.len() < parts {
        let mut v: Vec<&[u8]> = Vec::new();
        v.push(data);
        proof {
            let m = v@.map_values(|p: &[u8]| p@);
            assert(m =~= seq![data@]);
            m.lemma_flatten_one_element();
        }
        return v;
    }
    let n = data.len();
    let step = n / parts;
    let mut out: Vec<&[u8]> = Vec::new();
    let ghost mut pieces: Seq<Seq<u8>> = Seq::empty();
    let mut start: usize = 0;
    let mut i: usize = 1;
    let mut done = false;
    assert(pieces.flatten() =~= data@.subrange(0, 0));
    while i < parts && !done
        invariant
            n == data@.len(),
            n >= parts > 1,
            step == n / parts,
            1 <= i <= parts,
            0 <= start <= n,
            out@.len() == pieces.len(),
            out@.len() < i,
            forall|k: int| 0 <= k < out@.len() ==> (#[trigger] out@[k])@ == pieces[k],
            pieces.flatten() == data@.subrange(0, start as int),
            forall|k: int| 0 <= k < pieces.len() ==> (#[trigger] pieces[k]).len() > 0,
            forall|k: int| 0 <= k < pieces.len() ==> (#[trigger] pieces[k]).last() == 10,
        decreases parts - i,
    {
        assert(step * i <= n) by (nonlinear_arith)
            requires step == n / parts, i < parts, parts > 1, n >= 0;
        let scaled = step * i;
        let probe = if scaled > start { scaled } else { start };
        if probe >= n {
            done = true;
        } else {
            let rest = &data[probe..n];
            match find_byte(10u8, rest) {
                Some(pos) => {
                    let end = probe + pos + 1;
                    if end > start {
                        let piece = &data[start..end];
                        proof {
                            pieces.lemma_flatten_push(piece@);
                            assert(data@.subrange(0, start as int) + piece@ =~= data@.subrange(0, end as int));
                            assert(piece@.last() == data@[end - 1]);
                            assert(rest@[pos as int] == 10);
                            pieces = pieces.push(piece@);
                        }
                        out.push(piece);
                        start = end;
                    }
                },
                None => {
                    done = true;
                },
            }
        }
        i = i + 1;
    }
    if start < n {
        let piece = &data[start..n];
        proof {
            pieces.lemma_flatten_push(piece@);
            assert(data@.subrange(0, start as int) + piece@ =~= data@);
            pieces = pieces.push(piece@);
        }
        out.push(piece);
    } else {
        assert(data@.subrange(0, start as int) =~= data@);
    }
    proof {
        let m = out@.map_values(|p: &[u8]| p@);
        assert(m =~= pieces);
    }
    out
}

} // verus!
