//! Which ownership-file texts the codeowners crate can parse: each rule
//! line's path pattern, once the crate has normalised it, must compile as a
//! glob (`glob::Pattern::new`), else parsing panics.

use vstd::prelude::*;
use crate::paging::trim_start;
use crate::text::{chars_of, split_fields, split_on, split_words, views, words};

verus! {

/// The number of `*` in a row from index `i`.
pub open spec fn star_run(p: Seq<char>, i: int) -> int
    decreases p.len() - i,
{
    if 0 <= i < p.len() && p[i] == '*' {
        1 + star_run(p, i + 1)
    } else {
        0
    }
}

/// The index of the first `]` at or after `j`, or `p.len()` if there is none.
pub open spec fn next_close(p: Seq<char>, j: int) -> int
    decreases p.len() - j,
{
    if j < 0 || j >= p.len() {
        p.len() as int
    } else if p[j] == ']' {
        j
    } else {
        next_close(p, j + 1)
    }
}

/// Whether `glob::Pattern::new` accepts `p` from index `i` on: a run of more
/// than two `*` fails; `**` must be a whole path component (at the start or
/// after `/`, the path separator on Unix, and at the end or before `/`,
/// which it takes with it); a `[`
/// opens a class that a later `]` must close (`[!` needs one more character);
/// anything else is a literal.
pub open spec fn glob_ok_from(p: Seq<char>, i: int) -> bool
    decreases p.len() - i,
{
    if i < 0 || i >= p.len() {
        true
    } else if p[i] == '*' {
        let c = star_run(p, i);
        let e = i + c;
        if c <= 0 || c > 2 {
            c <= 0
        } else if c == 2 {
            if i == 0 || p[i - 1] == '/' {
                if e < p.len() && p[e] == '/' {
                    glob_ok_from(p, e + 1)
                } else {
                    e == p.len()
                }
            } else {
                false
            }
        } else {
            glob_ok_from(p, e)
        }
    } else if p[i] == '[' {
        let from = if i + 4 <= p.len() && p[i + 1] == '!' {
            i + 3
        } else if i + 3 <= p.len() && p[i + 1] != '!' {
            i + 2
        } else {
            p.len() as int
        };
        let k = next_close(p, from);
        if k < p.len() && k > i {
            glob_ok_from(p, k + 1)
        } else {
            false
        }
    } else {
        glob_ok_from(p, i + 1)
    }
}

pub open spec fn glob_ok(p: Seq<char>) -> bool {
    glob_ok_from(p, 0)
}

/// The codeowners crate's form of a pattern: `**/` in front unless it starts
/// with `*` or `/`, leading `/` removed, and `**` after a trailing `/`.
pub open spec fn normalized(tok: Seq<char>) -> Seq<char> {
    let pre = if tok.len() > 0 && (tok[0] == '*' || tok[0] == '/') { tok } else { seq!['*', '*', '/'] + tok };
    let t = trim_start(pre, false, '/');
    if t.len() > 0 && t.last() == '/' {
        t + seq!['*', '*']
    } else {
        t
    }
}

/// A line that holds a rule: not a comment, and with at least one word.
pub open spec fn is_rule_line(l: Seq<char>) -> bool {
    !(l.len() > 0 && l[0] == '#') && words(l).len() > 0
}

pub open spec fn rule_line_ok(l: Seq<char>) -> bool {
    is_rule_line(l) ==> glob_ok(normalized(words(l)[0]))
}

/// Every rule line's pattern compiles, so that parsing the text cannot fail.
pub open spec fn codeowners_text_ok(t: Seq<char>) -> bool {
    forall|i: int| 0 <= i < split_on(t, '\n').len() ==> rule_line_ok(#[trigger] split_on(t, '\n')[i])
}

/// The text holds at least one rule.
pub open spec fn has_rule_lines(t: Seq<char>) -> bool {
    exists|i: int| 0 <= i < split_on(t, '\n').len() && is_rule_line(#[trigger] split_on(t, '\n')[i])
}

fn find_close(p: &Vec<char>, from: usize) -> (k: usize)
    requires
        from <= p@.len(),
    ensures
        k as int == next_close(p@, from as int),
        from <= k <= p@.len(),
{
    let mut k: usize = from;
    while k < p.len() && p[k] != ']'
        invariant
            from <= k <= p@.len(),
            next_close(p@, from as int) == next_close(p@, k as int),
        decreases p@.len() - k,
    {
        k += 1;
    }
    k
}

/// Whether `glob::Pattern::new` accepts `p`.
fn glob_accepts(p: &Vec<char>) -> (r: bool)
    ensures
        r == glob_ok(p@),
{
    let n = p.len();
    let mut i: usize = 0;
    while i < n
        invariant
            n == p@.len(),
            i <= n,
            glob_ok(p@) == glob_ok_from(p@, i as int),
        decreases n - i,
    {
        let c = p[i];
        if c == '*' {
            let mut e: usize = i;
            while e < n && p[e] == '*'
                invariant
                    n == p@.len(),
                    i <= e <= n,
                    star_run(p@, i as int) == (e - i) + star_run(p@, e as int),
                decreases n - e,
            {
                e += 1;
            }
            assert(star_run(p@, e as int) == 0);
            assert(e > i);
            let cnt = e - i;
            if cnt > 2 {
                return false;
            }
            if cnt == 2 {
                if !(i == 0 || p[i - 1] == '/') {
                    return false;
                }
                if e < n && p[e] == '/' {
                    i = e + 1;
                } else {
                    return e == n;
                }
            } else {
                i = e;
            }
        } else if c == '[' {
            let from = if n - i >= 4 && p[i + 1] == '!' {
                i + 3
            } else if n - i >= 3 && p[i + 1] != '!' {
                i + 2
            } else {
                n
            };
            let k = find_close(p, from);
            if k < n && k > i {
                i = k + 1;
            } else {
                return false;
            }
        } else {
            i += 1;
        }
    }
    true
}

/// The codeowners crate's form of a pattern (see `normalized`).
fn normalize(tok: &String) -> (r: Vec<char>)
    ensures
        r@ == normalized(tok@),
{
    let v = chars_of(tok.as_str());
    let mut pre: Vec<char> = Vec::new();
    if !(v.len() > 0 && (v[0] == '*' || v[0] == '/')) {
        pre.push('*');
        pre.push('*');
        pre.push('/');
    }
    let mut j: usize = 0;
    let ghost head = pre@;
    while j < v.len()
        invariant
            v@ == tok@,
            j <= v@.len(),
            pre@ == head + v@.take(j as int),
        decreases v@.len() - j,
    {
        pre.push(v[j]);
        proof {
            assert(v@.take(j + 1) =~= v@.take(j as int).push(v@[j as int]));
        }
        j += 1;
    }
    proof {
        assert(v@.take(j as int) =~= v@);
        if v@.len() > 0 && (v@[0] == '*' || v@[0] == '/') {
            assert(pre@ =~= tok@);
        } else {
            assert(pre@ =~= seq!['*', '*', '/'] + tok@);
        }
    }
    let n = pre.len();
    let mut i: usize = 0;
    proof {
        assert(pre@.subrange(0, n as int) =~= pre@);
    }
    while i < n && pre[i] == '/'
        invariant
            n == pre@.len(),
            i <= n,
            trim_start(pre@, false, '/') == trim_start(pre@.subrange(i as int, n as int), false, '/'),
        decreases n - i,
    {
        proof {
            assert(pre@.subrange(i as int, n as int).drop_first() =~= pre@.subrange(i + 1, n as int));
        }
        i += 1;
    }
    let ghost t = pre@.subrange(i as int, n as int);
    assert(trim_start(t, false, '/') == t);
    let mut out: Vec<char> = Vec::new();
    let mut k: usize = i;
    while k < n
        invariant
            n == pre@.len(),
            i <= k <= n,
            t == pre@.subrange(i as int, n as int),
            out@ == pre@.subrange(i as int, k as int),
        decreases n - k,
    {
        out.push(pre[k]);
        proof {
            assert(pre@.subrange(i as int, k + 1) =~= pre@.subrange(i as int, k as int).push(pre@[k as int]));
        }
        k += 1;
    }
    proof {
        assert(out@ =~= t);
    }
    if out.len() > 0 && out[out.len() - 1] == '/' {
        out.push('*');
        out.push('*');
        proof {
            assert(out@ =~= t + seq!['*', '*']);
        }
    }
    out
}

/// Whether the text's patterns all compile, and whether it holds any rule.
pub(crate) fn inspect_codeowners(text: &str) -> (r: (bool, bool))
    ensures
        r.0 == codeowners_text_ok(text@),
        r.1 == has_rule_lines(text@),
{
    let lines = split_fields(text, '\n');
    let ghost ls = views(lines@);
    let mut any = false;
    let mut i: usize = 0;
    while i < lines.len()
        invariant
            ls == views(lines@),
            ls == split_on(text@, '\n'),
            i <= ls.len(),
            forall|k: int| 0 <= k < i ==> rule_line_ok(#[trigger] ls[k]),
            any == exists|k: int| 0 <= k < i && is_rule_line(#[trigger] ls[k]),
        decreases ls.len() - i,
    {
        let line = &lines[i];
        assert(ls[i as int] == line@);
        let cs = chars_of(line.as_str());
        let comment = cs.len() > 0 && cs[0] == '#';
        let ws = split_words(line.as_str());
        if !comment && ws.len() > 0 {
            assert(is_rule_line(ls[i as int]));
            assert(views(ws@)[0] == ws@[0]@);
            let p = normalize(&ws[0]);
            if !glob_accepts(&p) {
                return (false, true);
            }
            any = true;
        }
        i += 1;
    }
    (true, any)
}

/// Whether an ownership file's text can be parsed (see `codeowners_text_ok`).
pub fn codeowners_text_supported(text: &str) -> (r: bool)
    ensures
        r == codeowners_text_ok(text@),
{
    inspect_codeowners(text).0
}

} // verus!
