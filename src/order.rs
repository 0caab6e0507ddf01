//! The natural ordering of messages: by their sources (file, then line,
//! compared lexicographically), then by their text.

use vstd::prelude::*;
use crate::chars::chars_of;
use crate::message::{Comment, Message, MessageView, SourceView};

verus! {

/// Whether `f` compares as a total order does: -1, 0 or 1, 0 exactly on
/// equal values, reversed by swapping, and transitive.
pub open spec fn is_total_order<T>(f: spec_fn(T, T) -> int) -> bool {
    &&& forall|x: T, y: T| #[trigger] f(x, y) == -f(y, x)
    &&& forall|x: T, y: T| #[trigger] f(x, y) == 0 <==> x == y
    &&& forall|x: T, y: T| -1 <= #[trigger] f(x, y) <= 1
    &&& forall|x: T, y: T, z: T| #[trigger] f(x, y) <= 0 && #[trigger] f(y, z) <= 0 ==> f(x, z) <= 0
}

/// Lexicographic comparison of sequences, by `f` on their elements.
pub open spec fn cmp_seq<T>(a: Seq<T>, b: Seq<T>, f: spec_fn(T, T) -> int) -> int
    decreases a.len(),
{
    if a.len() == 0 {
        if b.len() == 0 { 0 } else { -1 }
    } else if b.len() == 0 {
        1
    } else if f(a[0], b[0]) != 0 {
        f(a[0], b[0])
    } else {
        cmp_seq(a.drop_first(), b.drop_first(), f)
    }
}

/// Lexicographic comparison of pairs.
pub open spec fn cmp_pair<A, B>(x: (A, B), y: (A, B), f: spec_fn(A, A) -> int, g: spec_fn(B, B) -> int) -> int {
    if f(x.0, y.0) != 0 { f(x.0, y.0) } else { g(x.1, y.1) }
}

/// Comparison of characters by code point.
pub open spec fn cmp_char(x: char, y: char) -> int {
    if x < y { -1 } else if x == y { 0 } else { 1 }
}

/// Comparison of integers.
pub open spec fn cmp_usize(x: usize, y: usize) -> int {
    if x < y { -1 } else if x == y { 0 } else { 1 }
}

/// Comparison of texts, as strings compare.
pub open spec fn cmp_text(a: Seq<char>, b: Seq<char>) -> int {
    cmp_seq(a, b, |x: char, y: char| cmp_char(x, y))
}

/// Comparison of sources: by file, then by line.
pub open spec fn cmp_source(x: SourceView, y: SourceView) -> int {
    cmp_pair(x, y, |a: Seq<char>, b: Seq<char>| cmp_text(a, b), |a: usize, b: usize| cmp_usize(a, b))
}

/// Comparison of lists of sources, lexicographically.
pub open spec fn cmp_sources(a: Seq<SourceView>, b: Seq<SourceView>) -> int {
    cmp_seq(a, b, |x: SourceView, y: SourceView| cmp_source(x, y))
}

/// The natural ordering of messages: by sources, then by text.
pub open spec fn cmp_message(x: MessageView, y: MessageView) -> int {
    cmp_pair(
        x,
        y,
        |a: Seq<SourceView>, b: Seq<SourceView>| cmp_sources(a, b),
        |a: Seq<char>, b: Seq<char>| cmp_text(a, b),
    )
}

proof fn lemma_cmp_seq_basics<T>(a: Seq<T>, b: Seq<T>, f: spec_fn(T, T) -> int)
    requires
        is_total_order(f),
    ensures
        cmp_seq(a, b, f) == -cmp_seq(b, a, f),
        cmp_seq(a, b, f) == 0 <==> a == b,
        -1 <= cmp_seq(a, b, f) <= 1,
    decreases a.len(),
{
    if a.len() > 0 && b.len() > 0 {
        lemma_cmp_seq_basics(a.drop_first(), b.drop_first(), f);
        assert(f(a[0], b[0]) == -f(b[0], a[0]));
        if cmp_seq(a, b, f) == 0 {
            assert(f(a[0], b[0]) == 0);
            assert(a[0] == b[0]);
            assert(a.drop_first() == b.drop_first());
            assert forall|i: int| 0 <= i < a.len() implies a[i] == b[i] by {
                if i > 0 {
                    assert(a[i] == a.drop_first()[i - 1]);
                    assert(b[i] == b.drop_first()[i - 1]);
                }
            }
            assert(a =~= b);
        }
        if a == b {
            assert(a.drop_first() == b.drop_first());
            assert(f(a[0], b[0]) == 0);
        }
    } else if a.len() == 0 && b.len() == 0 {
        assert(a =~= b);
    }
}

proof fn lemma_cmp_seq_trans<T>(a: Seq<T>, b: Seq<T>, c: Seq<T>, f: spec_fn(T, T) -> int)
    requires
        is_total_order(f),
        cmp_seq(a, b, f) <= 0,
        cmp_seq(b, c, f) <= 0,
    ensures
        cmp_seq(a, c, f) <= 0,
    decreases a.len(),
{
    if a.len() > 0 && b.len() > 0 && c.len() > 0 {
        let p = f(a[0], b[0]);
        let q = f(b[0], c[0]);
        assert(f(a[0], c[0]) <= 0);
        if p == 0 && q == 0 {
            lemma_cmp_seq_trans(a.drop_first(), b.drop_first(), c.drop_first(), f);
        } else if f(a[0], c[0]) == 0 {
            assert(a[0] == c[0]);
            assert(f(b[0], a[0]) == -p);
        }
    }
}

/// Lexicographic comparison by a total order is a total order.
pub proof fn lemma_cmp_seq_order<T>(f: spec_fn(T, T) -> int)
    requires
        is_total_order(f),
    ensures
        is_total_order(|a: Seq<T>, b: Seq<T>| cmp_seq(a, b, f)),
{
    let g = |a: Seq<T>, b: Seq<T>| cmp_seq(a, b, f);
    assert forall|x: Seq<T>, y: Seq<T>| #[trigger] g(x, y) == -g(y, x) && (g(x, y) == 0 <==> x == y) && -1 <= g(x, y) <= 1 by {
        lemma_cmp_seq_basics(x, y, f);
    }
    assert forall|x: Seq<T>, y: Seq<T>, z: Seq<T>| #[trigger] g(x, y) <= 0 && #[trigger] g(y, z) <= 0 implies g(x, z) <= 0 by {
        lemma_cmp_seq_trans(x, y, z, f);
    }
}

/// Lexicographic comparison of pairs by total orders is a total order.
pub proof fn lemma_cmp_pair_order<A, B>(f: spec_fn(A, A) -> int, g: spec_fn(B, B) -> int)
    requires
        is_total_order(f),
        is_total_order(g),
    ensures
        is_total_order(|x: (A, B), y: (A, B)| cmp_pair(x, y, f, g)),
{
    let h = |x: (A, B), y: (A, B)| cmp_pair(x, y, f, g);
    assert forall|x: (A, B), y: (A, B)| #[trigger] h(x, y) == -h(y, x) && (h(x, y) == 0 <==> x == y) && -1 <= h(x, y) <= 1 by {
        assert(f(x.0, y.0) == -f(y.0, x.0));
        assert(g(x.1, y.1) == -g(y.1, x.1));
    }
    assert forall|x: (A, B), y: (A, B), z: (A, B)| #[trigger] h(x, y) <= 0 && #[trigger] h(y, z) <= 0 implies h(x, z) <= 0 by {
        assert(f(x.0, z.0) <= 0);
        if f(x.0, z.0) == 0 {
            assert(x.0 == z.0);
            assert(f(y.0, x.0) == -f(x.0, y.0));
        }
    }
}

/// The natural ordering of messages is a total order.
pub proof fn lemma_cmp_message_order()
    ensures
        is_total_order(|x: MessageView, y: MessageView| cmp_message(x, y)),
{
    let fc = |x: char, y: char| cmp_char(x, y);
    assert(is_total_order(fc));
    lemma_cmp_seq_order(fc);
    let ft = |a: Seq<char>, b: Seq<char>| cmp_text(a, b);
    assert(ft == |a: Seq<char>, b: Seq<char>| cmp_seq(a, b, fc));
    let fu = |a: usize, b: usize| cmp_usize(a, b);
    lemma_cmp_pair_order(ft, fu);
    let fs = |x: SourceView, y: SourceView| cmp_source(x, y);
    assert(fs == |x: SourceView, y: SourceView| cmp_pair(x, y, ft, fu));
    lemma_cmp_seq_order(fs);
    let fss = |a: Seq<SourceView>, b: Seq<SourceView>| cmp_sources(a, b);
    assert(fss == |a: Seq<SourceView>, b: Seq<SourceView>| cmp_seq(a, b, fs));
    lemma_cmp_pair_order(fss, ft);
    assert((|x: MessageView, y: MessageView| cmp_message(x, y)) == |x: MessageView, y: MessageView| cmp_pair(x, y, fss, ft));
}

/// What the natural ordering of messages obeys, on three given messages.
pub proof fn lemma_cmp_message_facts(x: MessageView, y: MessageView, z: MessageView)
    ensures
        cmp_message(x, y) == -cmp_message(y, x),
        cmp_message(x, y) == 0 <==> x == y,
        cmp_message(x, y) <= 0 && cmp_message(y, z) <= 0 ==> cmp_message(x, z) <= 0,
{
    lemma_cmp_message_order();
    let f = |x: MessageView, y: MessageView| cmp_message(x, y);
    assert(f(x, y) == cmp_message(x, y));
    assert(f(y, x) == cmp_message(y, x));
    assert(f(y, z) == cmp_message(y, z));
    assert(f(x, z) == cmp_message(x, z));
}

/// Compares two texts as strings compare.
pub fn compare_text(a: &[char], b: &[char]) -> (r: i8)
    ensures
        r as int == cmp_text(a@, b@),
{
    let mut i: usize = 0;
    assert(a@.subrange(0, a@.len() as int) =~= a@);
    assert(b@.subrange(0, b@.len() as int) =~= b@);
    while i < a.len() && i < b.len() && a[i] == b[i]
        invariant
            i <= a@.len(),
            i <= b@.len(),
            cmp_text(a@, b@) == cmp_text(
                a@.subrange(i as int, a@.len() as int),
                b@.subrange(i as int, b@.len() as int),
            ),
        decreases a.len() - i,
    {
        proof {
            let ra = a@.subrange(i as int, a@.len() as int);
            let rb = b@.subrange(i as int, b@.len() as int);
            assert(ra.drop_first() =~= a@.subrange(i + 1, a@.len() as int));
            assert(rb.drop_first() =~= b@.subrange(i + 1, b@.len() as int));
            assert(ra[0] == rb[0]);
        }
        i = i + 1;
    }
    let ghost ra = a@.subrange(i as int, a@.len() as int);
    let ghost rb = b@.subrange(i as int, b@.len() as int);
    if i == a.len() {
        if i == b.len() { 0 } else { -1 }
    } else if i == b.len() {
        1
    } else if a[i] < b[i] {
        assert(ra[0] == a@[i as int] && rb[0] == b@[i as int]);
        -1
    } else {
        assert(ra[0] == a@[i as int] && rb[0] == b@[i as int]);
        1
    }
}

/// Compares two sources: by file, then by line.
pub fn compare_source(x: &Comment, y: &Comment) -> (r: i8)
    ensures
        r as int == cmp_source(x@, y@),
{
    match (x, y) {
        (Comment::Source(fx, lx), Comment::Source(fy, ly)) => {
            let a = chars_of(fx.as_str());
            let b = chars_of(fy.as_str());
            let c = compare_text(a.as_slice(), b.as_slice());
            if c != 0 {
                c
            } else if *lx < *ly {
                -1
            } else if *lx == *ly {
                0
            } else {
                1
            }
        },
    }
}

/// Compares two lists of sources lexicographically.
pub fn compare_sources(a: &[Comment], b: &[Comment]) -> (r: i8)
    ensures
        r as int == cmp_sources(a@.map_values(|c: Comment| c@), b@.map_values(|c: Comment| c@)),
{
    let ghost va = a@.map_values(|c: Comment| c@);
    let ghost vb = b@.map_values(|c: Comment| c@);
    let mut i: usize = 0;
    assert(va.subrange(0, va.len() as int) =~= va);
    assert(vb.subrange(0, vb.len() as int) =~= vb);
    while i < a.len() && i < b.len()
        invariant
            i <= a@.len(),
            i <= b@.len(),
            va == a@.map_values(|c: Comment| c@),
            vb == b@.map_values(|c: Comment| c@),
            cmp_sources(va, vb) == cmp_sources(
                va.subrange(i as int, va.len() as int),
                vb.subrange(i as int, vb.len() as int),
            ),
        decreases a.len() - i,
    {
        let c = compare_source(&a[i], &b[i]);
        let ghost ra = va.subrange(i as int, va.len() as int);
        let ghost rb = vb.subrange(i as int, vb.len() as int);
        assert(ra[0] == va[i as int] && rb[0] == vb[i as int]);
        if c != 0 {
            return c;
        }
        proof {
            assert(ra.drop_first() =~= va.subrange(i + 1, va.len() as int));
            assert(rb.drop_first() =~= vb.subrange(i + 1, vb.len() as int));
        }
        i = i + 1;
    }
    if i == a.len() {
        if i == b.len() { 0 } else { -1 }
    } else {
        1
    }
}

/// Compares two messages by their natural ordering.
pub fn compare_messages(x: &Message, y: &Message) -> (r: i8)
    ensures
        r as int == cmp_message(x@, y@),
{
    let c = compare_sources(x.comments.as_slice(), y.comments.as_slice());
    if c != 0 {
        c
    } else {
        let a = chars_of(x.msg.as_str());
        let b = chars_of(y.msg.as_str());
        compare_text(a.as_slice(), b.as_slice())
    }
}

} // verus!
