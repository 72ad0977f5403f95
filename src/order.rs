//! The order of strings by their UTF-8 bytes, which is how `str` orders.

use vstd::prelude::*;
use vstd::utf8::{encode_utf8, encode_utf8_decode_utf8};

verus! {

/// Lexicographic comparison of `a` and `b` from index `i` on.
pub open spec fn lt_from(a: Seq<u8>, b: Seq<u8>, i: int) -> bool
    decreases a.len() - i,
{
    if i < 0 || i >= a.len() {
        0 <= i < b.len()
    } else if i >= b.len() {
        false
    } else if a[i] != b[i] {
        a[i] < b[i]
    } else {
        lt_from(a, b, i + 1)
    }
}

pub open spec fn bytes_lt(a: Seq<u8>, b: Seq<u8>) -> bool {
    lt_from(a, b, 0)
}

/// `a` comes before `b` in the order of `str`.
pub open spec fn text_lt(a: Seq<char>, b: Seq<char>) -> bool {
    bytes_lt(encode_utf8(a), encode_utf8(b))
}

proof fn lemma_lt_from_irreflexive(a: Seq<u8>, i: int)
    requires
        0 <= i <= a.len(),
    ensures
        !lt_from(a, a, i),
    decreases a.len() - i,
{
    if i < a.len() {
        lemma_lt_from_irreflexive(a, i + 1);
    }
}

proof fn lemma_lt_from_transitive(a: Seq<u8>, b: Seq<u8>, c: Seq<u8>, i: int)
    requires
        0 <= i,
        lt_from(a, b, i),
        lt_from(b, c, i),
    ensures
        lt_from(a, c, i),
    decreases a.len() - i,
{
    if i < a.len() && i < b.len() && i < c.len() && a[i] == b[i] && b[i] == c[i] {
        lemma_lt_from_transitive(a, b, c, i + 1);
    }
}

proof fn lemma_lt_from_total(a: Seq<u8>, b: Seq<u8>, i: int)
    requires
        0 <= i <= a.len(),
        i <= b.len(),
        !lt_from(a, b, i),
        !lt_from(b, a, i),
    ensures
        a.len() == b.len(),
        forall|k: int| i <= k < a.len() ==> a[k] == b[k],
    decreases a.len() - i,
{
    if i < a.len() && i < b.len() {
        lemma_lt_from_total(a, b, i + 1);
    }
}

pub proof fn lemma_text_lt_irreflexive(a: Seq<char>)
    ensures
        !text_lt(a, a),
{
    lemma_lt_from_irreflexive(encode_utf8(a), 0);
}

pub proof fn lemma_text_lt_transitive(a: Seq<char>, b: Seq<char>, c: Seq<char>)
    requires
        text_lt(a, b),
        text_lt(b, c),
    ensures
        text_lt(a, c),
{
    lemma_lt_from_transitive(encode_utf8(a), encode_utf8(b), encode_utf8(c), 0);
}

pub proof fn lemma_text_lt_total(a: Seq<char>, b: Seq<char>)
    requires
        a != b,
    ensures
        text_lt(a, b) || text_lt(b, a),
{
    if !text_lt(a, b) && !text_lt(b, a) {
        lemma_lt_from_total(encode_utf8(a), encode_utf8(b), 0);
        assert(encode_utf8(a) =~= encode_utf8(b));
        encode_utf8_decode_utf8(a);
        encode_utf8_decode_utf8(b);
    }
}

pub proof fn lemma_text_lt_asymmetric(a: Seq<char>, b: Seq<char>)
    requires
        text_lt(a, b),
    ensures
        !text_lt(b, a),
{
    if text_lt(b, a) {
        lemma_text_lt_transitive(a, b, a);
        lemma_text_lt_irreflexive(a);
    }
}

/// Whether `a` comes before `b` in the order of `str`.
pub fn text_less(a: &str, b: &str) -> (r: bool)
    ensures
        r == text_lt(a@, b@),
{
    let x = a.as_bytes();
    let y = b.as_bytes();
    let ghost xs = encode_utf8(a@);
    let ghost ys = encode_utf8(b@);
    let mut i: usize = 0;
    while i < x.len() && i < y.len()
        invariant
            x@ == xs,
            y@ == ys,
            xs == encode_utf8(a@),
            ys == encode_utf8(b@),
            i <= xs.len(),
            i <= ys.len(),
            lt_from(xs, ys, 0) == lt_from(xs, ys, i as int),
        decreases xs.len() - i,
    {
        let xi = x[i];
        let yi = y[i];
        if xi != yi {
            assert(xs[i as int] == xi && ys[i as int] == yi);
            assert(lt_from(xs, ys, i as int) == (xi < yi));

            return xi < yi;
        }
        i += 1;
    }
    i == x.len() && i < y.len()
}

/// Three-way comparison in the order of `str`: -1, 0 or 1.
pub fn text_cmp(a: &str, b: &str) -> (r: i8)
    ensures
        -1 <= r <= 1,
        r == -1 <==> text_lt(a@, b@),
        r == 1 <==> text_lt(b@, a@),
        r == 0 <==> a@ == b@,
{
    if text_less(a, b) {
        proof {
            lemma_text_lt_irreflexive(a@);
            lemma_text_lt_asymmetric(a@, b@);
        }
        -1
    } else if text_less(b, a) {
        proof {
            lemma_text_lt_irreflexive(a@);
        }
        1
    } else {
        proof {
            if a@ != b@ {
                lemma_text_lt_total(a@, b@);
            }
        }
        0
    }
}

} // verus!
