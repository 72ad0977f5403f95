//! Reading the `Link` header of a paginated API response.

use vstd::prelude::*;
use crate::text::{chars_of, is_white, split_fields, split_on, string_of, views};

verus! {

/// `s` without its leading characters that satisfy `white` (when `white`) or
/// equal `c` (otherwise).
pub open spec fn trim_start(s: Seq<char>, white: bool, c: char) -> Seq<char>
    decreases s.len(),
{
    if s.len() > 0 && (if white { is_white(s[0]) } else { s[0] == c }) {
        trim_start(s.drop_first(), white, c)
    } else {
        s
    }
}

pub open spec fn trim_end(s: Seq<char>, white: bool, c: char) -> Seq<char>
    decreases s.len(),
{
    if s.len() > 0 && (if white { is_white(s.last()) } else { s.last() == c }) {
        trim_end(s.drop_last(), white, c)
    } else {
        s
    }
}

/// `str::trim` (`white`) or `str::trim_matches(c)`.
pub open spec fn trim(s: Seq<char>, white: bool, c: char) -> Seq<char> {
    trim_end(trim_start(s, white, c), white, c)
}

fn strip(c0: char, white: bool, c: char) -> (r: bool)
    ensures
        r == if white { is_white(c0) } else { c0 == c },
{
    if white {
        c0 == '\t' || c0 == '\n' || c0 == '\u{0B}' || c0 == '\u{0C}' || c0 == '\r' || c0 == ' '
            || c0 == '\u{85}' || c0 == '\u{A0}' || c0 == '\u{1680}' || ('\u{2000}' <= c0 && c0 <= '\u{200A}')
            || c0 == '\u{2028}' || c0 == '\u{2029}' || c0 == '\u{202F}' || c0 == '\u{205F}' || c0 == '\u{3000}'
    } else {
        c0 == c
    }
}

/// Trims `s` as `trim` says.
fn trimmed(s: &str, white: bool, c: char) -> (r: String)
    ensures
        r@ == trim(s@, white, c),
{
    let v = chars_of(s);
    let n = v.len();
    let mut i: usize = 0;
    proof {
        assert(v@.subrange(0, n as int) =~= v@);
    }
    while i < n && strip(v[i], white, c)
        invariant
            v@ == s@,
            n == v@.len(),
            i <= n,
            trim_start(s@, white, c) == trim_start(v@.subrange(i as int, n as int), white, c),
        decreases n - i,
    {
        proof {
            assert(v@.subrange(i as int, n as int).drop_first() =~= v@.subrange(i + 1, n as int));
        }
        i += 1;
    }
    proof {
        assert(v@.subrange(0, n as int) =~= v@);
    }
    let ghost t = v@.subrange(i as int, n as int);
    assert(trim_start(t, white, c) == t);
    let mut j: usize = n;
    while j > i && strip(v[j - 1], white, c)
        invariant
            v@ == s@,
            n == v@.len(),
            i <= j <= n,
            t == v@.subrange(i as int, n as int),
            trim_end(t, white, c) == trim_end(v@.subrange(i as int, j as int), white, c),
        decreases j,
    {
        proof {
            assert(v@.subrange(i as int, j as int).drop_last() =~= v@.subrange(i as int, j - 1));
        }
        j -= 1;
    }
    string_of(&v, i, j)
}

/// Whether `pat` occurs in `s` at index `i`.
pub open spec fn occurs_at(s: Seq<char>, pat: Seq<char>, i: int) -> bool {
    0 <= i && i + pat.len() <= s.len() && s.subrange(i, i + pat.len()) == pat
}

pub open spec fn contains_text(s: Seq<char>, pat: Seq<char>) -> bool {
    exists|i: int| occurs_at(s, pat, i)
}

fn contains_chars(s: &Vec<char>, pat: &Vec<char>) -> (r: bool)
    ensures
        r == contains_text(s@, pat@),
{
    let n = s.len();
    let m = pat.len();
    if m > n {
        proof {
            assert forall|i: int| !occurs_at(s@, pat@, i) by {}
        }
        return false;
    }
    let mut i: usize = 0;
    while i <= n - m
        invariant
            n == s@.len(),
            m == pat@.len(),
            m <= n,
            i <= n - m + 1,
            forall|k: int| 0 <= k < i ==> !occurs_at(s@, pat@, k),
        decreases n - m + 1 - i,
    {
        let mut k: usize = 0;
        while k < m && s[i + k] == pat[k]
            invariant
                n == s@.len(),
                m == pat@.len(),
                i + m <= n,
                k <= m,
                forall|q: int| 0 <= q < k ==> s@[i + q] == pat@[q],
            decreases m - k,
        {
            k += 1;
        }
        if k == m {
            proof {
                assert(s@.subrange(i as int, i + m) =~= pat@);
                assert(occurs_at(s@, pat@, i as int));
            }
            return true;
        }
        proof {
            assert(s@.subrange(i as int, i + m)[k as int] != pat@[k as int]);
        }
        i += 1;
    }
    proof {
        assert forall|q: int| !occurs_at(s@, pat@, q) by {
            if 0 <= q < i {
            }
        }
    }
    false
}

pub open spec fn rel_next() -> Seq<char> {
    seq!['r', 'e', 'l', '=', '"', 'n', 'e', 'x', 't', '"']
}

/// The index of the first of `parts[j..]` that holds `rel="next"`, if any.
pub open spec fn first_next(parts: Seq<Seq<char>>, j: int) -> Option<int>
    decreases parts.len() - j,
{
    if j < 0 || j >= parts.len() {
        None
    } else if contains_text(parts[j], rel_next()) {
        Some(j)
    } else {
        first_next(parts, j + 1)
    }
}

/// The URL of the next page named by a `Link` header: the first
/// comma-separated part marked `rel="next"`, up to its first `;`, trimmed of
/// white space and of the angle brackets around it.
pub open spec fn spec_next_page_url(link: Seq<char>) -> Option<Seq<char>> {
    let parts = split_on(link, ',');
    match first_next(parts, 0) {
        None => None,
        Some(j) => Some(trim(trim(trim(split_on(parts[j], ';')[0], true, ' '), false, '<'), false, '>')),
    }
}

/// The URL of the next page named by a `Link` header, if there is one.
pub fn next_page_url(link: &str) -> (r: Option<String>)
    ensures
        match spec_next_page_url(link@) {
            Some(u) => r is Some && r->0@ == u,
            None => r is None,
        },
{
    let parts = split_fields(link, ',');
    let pat = vec!['r', 'e', 'l', '=', '"', 'n', 'e', 'x', 't', '"'];
    proof {
        assert(pat@ =~= rel_next());
    }
    let ghost ps = views(parts@);
    let mut j: usize = 0;
    while j < parts.len()
        invariant
            ps == views(parts@),
            ps == split_on(link@, ','),
            pat@ == rel_next(),
            j <= parts@.len(),
            first_next(ps, 0) == first_next(ps, j as int),
        decreases parts@.len() - j,
    {
        let cs = chars_of(parts[j].as_str());
        assert(ps[j as int] == parts@[j as int]@);
        if contains_chars(&cs, &pat) {
            let fields = split_fields(parts[j].as_str(), ';');
            proof {
                crate::text::lemma_split_nonempty(ps[j as int], ';');
            }
            let a = trimmed(fields[0].as_str(), true, ' ');
            let b = trimmed(a.as_str(), false, '<');
            let c = trimmed(b.as_str(), false, '>');
            return Some(c);
        }
        j += 1;
    }
    None
}

} // verus!
