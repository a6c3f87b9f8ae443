//! File system paths as the library reasons about them: `/`-separated text,
//! the way `std::path` treats them on Unix.

use vstd::prelude::*;
use crate::text::{chars_of, string_of, last_in, lemma_last_in};

verus! {

pub open spec fn is_absolute(p: Seq<char>) -> bool {
    p.len() > 0 && p[0] == '/'
}

/// `Path::join`: an absolute `p` replaces `base`; otherwise `p` is appended
/// after a separator, unless `base` is empty or already ends with one.
pub open spec fn spec_join(base: Seq<char>, p: Seq<char>) -> Seq<char> {
    if is_absolute(p) {
        p
    } else if base.len() == 0 {
        p
    } else if base.last() == '/' {
        base + p
    } else {
        base.push('/') + p
    }
}

/// `base` joined with `p`.
pub fn join(base: &str, p: &str) -> (r: String)
    ensures
        r@ == spec_join(base@, p@),
{
    let b = chars_of(base);
    let q = chars_of(p);
    if q.len() > 0 && q[0] == '/' {
        return string_of(&q);
    }
    if b.len() == 0 {
        return string_of(&q);
    }
    let mut out = b;
    if out[out.len() - 1] != '/' {
        out.push('/');
    }
    let ghost before = out@;
    let mut i: usize = 0;
    while i < q.len()
        invariant
            i <= q@.len(),
            out@ == before + q@.subrange(0, i as int),
        decreases q.len() - i,
    {
        out.push(q[i]);
        assert(before + q@.subrange(0, i + 1) =~= (before + q@.subrange(0, i as int)).push(q@[i as int]));
        i = i + 1;
    }
    assert(q@.subrange(0, i as int) =~= q@);
    string_of(&out)
}

pub open spec fn slash_at(s: Seq<char>) -> spec_fn(int) -> bool {
    |i: int| 0 <= i < s.len() && s[i] == '/'
}

/// `p` without its trailing separators.
pub open spec fn strip_trailing_slashes(p: Seq<char>) -> Seq<char>
    decreases p.len(),
{
    if p.len() > 1 && p.last() == '/' { strip_trailing_slashes(p.drop_last()) } else { p }
}

/// `Path::file_name`: the last component, unless it is empty or `..`.
pub open spec fn spec_file_name(p: Seq<char>) -> Option<Seq<char>> {
    let s = strip_trailing_slashes(p);
    let name = match last_in(0, s.len() as int, slash_at(s)) {
        Some(i) => s.subrange(i + 1, s.len() as int),
        None => s,
    };
    if name.len() == 0 || name == seq!['.', '.'] { None } else { Some(name) }
}

/// `Path::parent`: everything before the last component, `None` for the
/// empty path and for the root.
pub open spec fn spec_parent(p: Seq<char>) -> Option<Seq<char>> {
    let s = strip_trailing_slashes(p);
    if s.len() == 0 || s == seq!['/'] {
        None
    } else {
        match last_in(0, s.len() as int, slash_at(s)) {
            Some(i) => if i == 0 { Some(seq!['/']) } else { Some(strip_trailing_slashes(s.subrange(0, i))) },
            None => Some(Seq::empty()),
        }
    }
}

fn strip_slashes(v: Vec<char>) -> (r: Vec<char>)
    ensures
        r@ == strip_trailing_slashes(v@),
{
    let ghost orig = v@;
    let mut v = v;
    while v.len() > 1 && v[v.len() - 1] == '/'
        invariant
            strip_trailing_slashes(v@) == strip_trailing_slashes(orig),
        decreases v.len(),
    {
        v.pop();
    }
    v
}

fn last_slash(v: &Vec<char>) -> (r: Option<usize>)
    ensures
        match r {
            Some(i) => i < v@.len() && last_in(0, v@.len() as int, slash_at(v@)) == Some(i as int),
            None => last_in(0, v@.len() as int, slash_at(v@)) == None::<int>,
        },
{
    let n = v.len();
    let ghost p = slash_at(v@);
    let mut i: usize = n;
    while i > 0 && v[i - 1] != '/'
        invariant
            i <= n == v@.len(),
            p == slash_at(v@),
            forall|j: int| i <= j < n ==> !#[trigger] p(j),
        decreases i,
    {
        i = i - 1;
    }
    proof {
        lemma_last_in(0, n as int, p, i - 1);
    }
    if i > 0 { Some(i - 1) } else { None }
}

/// The last component of `p` as characters.
pub fn file_name_chars(p: &str) -> (r: Option<Vec<char>>)
    ensures
        match r {
            Some(v) => spec_file_name(p@) == Some(v@),
            None => spec_file_name(p@) == None::<Seq<char>>,
        },
{
    let s = strip_slashes(chars_of(p));
    let name = match last_slash(&s) {
        Some(i) => {
            let n = s.len();
            assert(i < n);
            crate::text::slice_chars(&s, i + 1, n)
        },
        None => s,
    };
    if name.len() == 0 || (name.len() == 2 && name[0] == '.' && name[1] == '.') {
        assert(name.len() == 0 || name@ =~= seq!['.', '.']);
        None
    } else {
        assert(name@ != seq!['.', '.']) by {
            if name@.len() == 2 {
                assert(name@[0] != '.' || name@[1] != '.');
            }
        }
        Some(name)
    }
}

/// The directory holding `p`.
pub fn parent(p: &str) -> (r: Option<String>)
    ensures
        match r {
            Some(v) => spec_parent(p@) == Some(v@),
            None => spec_parent(p@) == None::<Seq<char>>,
        },
{
    let s = strip_slashes(chars_of(p));
    if s.len() == 0 || (s.len() == 1 && s[0] == '/') {
        assert(s@.len() == 0 || s@ =~= seq!['/']);
        return None;
    }
    assert(s@ != seq!['/']) by {
        if s@.len() == 1 {
            assert(s@[0] != '/');
        }
    }
    match last_slash(&s) {
        Some(i) => {
            if i == 0 {
                let mut v: Vec<char> = Vec::new();
                v.push('/');
                assert(v@ =~= seq!['/']);
                Some(string_of(&v))
            } else {
                let head = crate::text::slice_chars(&s, 0, i);
                let head = strip_slashes(head);
                Some(string_of(&head))
            }
        },
        None => {
            let v: Vec<char> = Vec::new();
            assert(v@ =~= Seq::<char>::empty());
            Some(string_of(&v))
        },
    }
}

/// The file name ends in `.gz`, in any letter case.
pub open spec fn spec_is_compressed(p: Seq<char>) -> bool {
    match spec_file_name(p) {
        Some(n) => n.len() >= 4 && n[n.len() - 3] == '.' && (n[n.len() - 2] == 'g' || n[n.len() - 2] == 'G')
            && (n[n.len() - 1] == 'z' || n[n.len() - 1] == 'Z'),
        None => false,
    }
}

/// Whether the file at `p` is still gzipped, judged by its extension.
pub fn is_compressed(p: &str) -> (r: bool)
    ensures
        r == spec_is_compressed(p@),
{
    match file_name_chars(p) {
        Some(n) => {
            let k = n.len();
            k >= 4 && n[k - 3] == '.' && (n[k - 2] == 'g' || n[k - 2] == 'G') && (n[k - 1] == 'z' || n[k - 1] == 'Z')
        },
        None => false,
    }
}

} // verus!
