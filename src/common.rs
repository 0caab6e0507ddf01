//! Scanning quoted string literals, and putting messages in canonical form.

use vstd::prelude::*;
use vstd::utf8::{valid_utf8, decode_utf8};
use crate::chars::{chars_of, string_of, utf8_string};
use crate::error::{Error, ErrorType, Result};
use crate::pattern::{
    Pattern, compile, remove_matches, collapse, collapse_from, continuation_pattern,
};

verus! {

/// Whether position `i` of `s` holds a quote that no backslash precedes.
pub open spec fn is_unescaped_quote<T>(s: Seq<T>, quote: T, backslash: T, i: int) -> bool {
    0 <= i < s.len() && s[i] == quote && (i == 0 || s[i - 1] != backslash)
}

/// The first position at or after `from` that holds an unescaped quote, or
/// the length of `s` where there is none.
pub open spec fn next_quote<T>(s: Seq<T>, quote: T, backslash: T, from: int) -> int
    decreases s.len() - from,
{
    if from < 0 || from >= s.len() {
        s.len() as int
    } else if is_unescaped_quote(s, quote, backslash, from) {
        from
    } else {
        next_quote(s, quote, backslash, from + 1)
    }
}

/// What stands between the first unescaped quote and the next one (or the
/// end of `s`), without unescaping; `None` where there is no opening quote
/// or it is the last element.
pub open spec fn literal_between<T>(s: Seq<T>, quote: T, backslash: T) -> Option<Seq<T>> {
    let open = next_quote(s, quote, backslash, 0);
    if open + 1 >= s.len() {
        None
    } else {
        Some(s.subrange(open + 1, next_quote(s, quote, backslash, open + 1)))
    }
}

/// The raw bytes of the first literal in `b`.
pub open spec fn literal_bytes(b: Seq<u8>) -> Option<Seq<u8>> {
    literal_between(b, 34u8, 92u8)
}

/// The raw characters of the first literal in `s`.
pub open spec fn literal_chars(s: Seq<char>) -> Option<Seq<char>> {
    literal_between(s, '"', '\\')
}

/// Find the next string, delimited by quotes `"` (which are not returned),
/// and not stopping at escaped quotes `\"`.
pub fn find_string(bytes: &[u8]) -> (r: Result<String>)
    ensures
        literal_bytes(bytes@) is None ==> r is Err && r->Err_0.variant
            == ErrorType::UnterminatedOrMissing,
        literal_bytes(bytes@) is Some && valid_utf8(literal_bytes(bytes@)->0) ==> r is Ok
            && r->Ok_0@ == decode_utf8(literal_bytes(bytes@)->0),
        literal_bytes(bytes@) is Some && !valid_utf8(literal_bytes(bytes@)->0) ==> r is Err
            && r->Err_0.variant == ErrorType::InvalidUtf8,
{
    let ghost b = bytes@;
    let mut i: usize = 0;
    while i < bytes.len() && !(bytes[i] == 34u8 && (i == 0 || bytes[i - 1] != 92u8))
        invariant
            i <= b.len(),
            b == bytes@,
            next_quote(b, 34u8, 92u8, 0) == next_quote(b, 34u8, 92u8, i as int),
        decreases bytes.len() - i,
    {
        i = i + 1;
    }
    if i >= bytes.len() || i + 1 == bytes.len() {
        return Err(Error::of_kind(ErrorType::UnterminatedOrMissing, String::new()));
    }
    let begin = i + 1;
    let mut j: usize = begin;
    while j < bytes.len() && !(bytes[j] == 34u8 && bytes[j - 1] != 92u8)
        invariant
            begin <= j <= b.len(),
            begin >= 1,
            b == bytes@,
            next_quote(b, 34u8, 92u8, begin as int) == next_quote(b, 34u8, 92u8, j as int),
        decreases bytes.len() - j,
    {
        j = j + 1;
    }
    let raw = vstd::slice::slice_to_vec(&bytes[begin..j]);
    assert(raw@ == b.subrange(begin as int, j as int));
    match utf8_string(raw) {
        Some(s) => Ok(s),
        None => Err(Error::of_kind(ErrorType::InvalidUtf8, String::new())),
    }
}

/// Like [`find_string`], on characters: the raw characters between the first
/// unescaped quote and the next one.
pub fn find_literal(s: &[char]) -> (r: Option<Vec<char>>)
    ensures
        r is Some == literal_chars(s@) is Some,
        r is Some ==> r->0@ == literal_chars(s@)->0,
{
    let mut i: usize = 0;
    while i < s.len() && !(s[i] == '"' && (i == 0 || s[i - 1] != '\\'))
        invariant
            i <= s@.len(),
            next_quote(s@, '"', '\\', 0) == next_quote(s@, '"', '\\', i as int),
        decreases s.len() - i,
    {
        i = i + 1;
    }
    if i >= s.len() || i + 1 == s.len() {
        return None;
    }
    let begin = i + 1;
    let mut j: usize = begin;
    let mut out: Vec<char> = Vec::new();
    while j < s.len() && !(s[j] == '"' && s[j - 1] != '\\')
        invariant
            begin <= j <= s@.len(),
            begin >= 1,
            next_quote(s@, '"', '\\', begin as int) == next_quote(s@, '"', '\\', j as int),
            out@ == s@.subrange(begin as int, j as int),
        decreases s.len() - j,
    {
        out.push(s[j]);
        proof { assert(out@ =~= s@.subrange(begin as int, j + 1)); }
        j = j + 1;
    }
    Some(out)
}

proof fn lemma_next_quote_at<T>(s: Seq<T>, quote: T, backslash: T, from: int, x: int)
    requires
        0 <= from <= x < s.len(),
        is_unescaped_quote(s, quote, backslash, x),
        forall|j: int| from <= j < x ==> !is_unescaped_quote(s, quote, backslash, j),
    ensures
        next_quote(s, quote, backslash, from) == x,
    decreases x - from,
{
    if from < x {
        lemma_next_quote_at(s, quote, backslash, from + 1, x);
    }
}

/// Whether every quote of `t` follows a backslash, and `t` does not end in
/// one: between quotes, such a text reads back whole.
pub open spec fn scannable<T>(t: Seq<T>, quote: T, backslash: T) -> bool {
    &&& forall|j: int| 0 <= j < t.len() && #[trigger] t[j] == quote ==> j > 0 && t[j - 1] == backslash
    &&& t.len() > 0 ==> t.last() != backslash
}

/// Between two quotes, after a prefix without quotes (not ending in a
/// backslash), a scannable text is found whole.
pub proof fn lemma_literal_between<T>(prefix: Seq<T>, inner: Seq<T>, suffix: Seq<T>, quote: T, backslash: T)
    requires
        forall|j: int| 0 <= j < prefix.len() ==> prefix[j] != quote,
        prefix.len() > 0 ==> prefix.last() != backslash,
        scannable(inner, quote, backslash),
        quote != backslash,
    ensures
        literal_between(prefix + seq![quote] + inner + seq![quote] + suffix, quote, backslash) == Some(inner),
{
    let b = prefix + seq![quote] + inner + seq![quote] + suffix;
    let p = prefix.len() as int;
    let n = inner.len() as int;
    assert forall|j: int| 0 <= j < p implies !is_unescaped_quote(b, quote, backslash, j) by {
        assert(b[j] == prefix[j]);
    }
    assert(b[p] == quote);
    if p > 0 { assert(b[p - 1] == prefix.last()); }
    lemma_next_quote_at(b, quote, backslash, 0, p);
    assert forall|j: int| p + 1 <= j < p + 1 + n implies !is_unescaped_quote(b, quote, backslash, j) by {
        assert(b[j] == inner[j - p - 1]);
        if inner[j - p - 1] == quote {
            assert(b[j - 1] == inner[j - p - 2]);
        }
    }
    assert(b[p + 1 + n] == quote);
    if n > 0 { assert(b[p + n] == inner[n - 1]); } else { assert(b[p + n] == quote); }
    lemma_next_quote_at(b, quote, backslash, p + 1, p + 1 + n);
    assert(b.subrange(p + 1, p + 1 + n) =~= inner);
}

/// A literal whose inner quotes are all escaped is scanned whole, wherever
/// it stands in a buffer: where no quote comes before it and no backslash
/// right before its opening quote, the scanner returns exactly its inside.
pub proof fn lemma_literal_found(prefix: Seq<u8>, inner: Seq<u8>, suffix: Seq<u8>)
    requires
        forall|j: int| 0 <= j < prefix.len() ==> prefix[j] != 34u8,
        prefix.len() > 0 ==> prefix.last() != 92u8,
        scannable(inner, 34u8, 92u8),
    ensures
        literal_bytes(prefix + seq![34u8] + inner + seq![34u8] + suffix) == Some(inner),
{
    lemma_literal_between(prefix, inner, suffix, 34u8, 92u8);
}

/// The bytes of `A \"quoted\" thing`.
pub open spec fn quoted_thing() -> Seq<u8> {
    seq![65u8, 32u8, 92u8, 34u8, 113u8, 117u8, 111u8, 116u8, 101u8, 100u8, 92u8, 34u8, 32u8, 116u8, 104u8, 105u8, 110u8, 103u8]
}

/// In any buffer that holds `"A \"quoted\" thing"` after a text without
/// quotes (and not ending in a backslash), the scanner returns exactly
/// `A \"quoted\" thing`: the escaped quotes do not end the literal.
pub proof fn lemma_quoted_thing(prefix: Seq<u8>, suffix: Seq<u8>)
    requires
        forall|j: int| 0 <= j < prefix.len() ==> prefix[j] != 34u8,
        prefix.len() > 0 ==> prefix.last() != 92u8,
    ensures
        literal_bytes(prefix + seq![34u8] + quoted_thing() + seq![34u8] + suffix) == Some(quoted_thing()),
{
    let t = quoted_thing();
    assert forall|j: int| 0 <= j < t.len() && #[trigger] t[j] == 34u8 implies j > 0 && t[j - 1] == 92u8 by {}
    assert(scannable(t, 34u8, 92u8));
    lemma_literal_found(prefix, t, suffix);
}

/// The byte that an escape sequence `\c` stands for.
pub open spec fn unescaped_byte(c: u8) -> u8 {
    if c == 110u8 { 10u8 }
    else if c == 116u8 { 9u8 }
    else if c == 114u8 { 13u8 }
    else { c }
}

/// The literal's bytes from position `i` on, with escapes processed, up to
/// the closing quote or the end of `b`; `None` where a backslash is last.
pub open spec fn unescaped_from(b: Seq<u8>, i: int) -> Option<Seq<u8>>
    decreases b.len() - i,
{
    if i < 0 || i >= b.len() || b[i] == 34u8 {
        Some(seq![])
    } else if b[i] == 92u8 {
        if i + 1 >= b.len() {
            None
        } else {
            match unescaped_from(b, i + 2) {
                Some(t) => Some(seq![unescaped_byte(b[i + 1])] + t),
                None => None,
            }
        }
    } else {
        match unescaped_from(b, i + 1) {
            Some(t) => Some(seq![b[i]] + t),
            None => None,
        }
    }
}

/// The bytes of the first literal in `b`, with escapes processed; `Err(k)`
/// gives the kind of error where there is none.
pub open spec fn unescaped_literal(b: Seq<u8>) -> core::result::Result<Seq<u8>, ErrorType> {
    let open = next_quote(b, 34u8, 92u8, 0);
    if open + 1 >= b.len() {
        Err(ErrorType::UnterminatedOrMissing)
    } else {
        match unescaped_from(b, open + 1) {
            Some(t) => Ok(t),
            None => Err(ErrorType::TrailingBackslash),
        }
    }
}

fn unescape_byte(c: u8) -> (r: u8)
    ensures
        r == unescaped_byte(c),
{
    if c == 110u8 { 10u8 }
    else if c == 116u8 { 9u8 }
    else if c == 114u8 { 13u8 }
    else { c }
}

/// Find the next string literal, as [`find_string`] does, and process its
/// escape sequences: `\n`, `\t` and `\r` stand for newline, tab and carriage
/// return, and `\X` for `X` otherwise.
pub fn unescape_quoted_string(bytes: &[u8]) -> (r: Result<String>)
    ensures
        unescaped_literal(bytes@) is Err ==> r is Err && r->Err_0.variant
            == unescaped_literal(bytes@)->Err_0,
        unescaped_literal(bytes@) is Ok && valid_utf8(unescaped_literal(bytes@)->Ok_0) ==> r is Ok
            && r->Ok_0@ == decode_utf8(unescaped_literal(bytes@)->Ok_0),
        unescaped_literal(bytes@) is Ok && !valid_utf8(unescaped_literal(bytes@)->Ok_0) ==> r is Err
            && r->Err_0.variant == ErrorType::InvalidUtf8,
{
    let ghost b = bytes@;
    let mut i: usize = 0;
    while i < bytes.len() && !(bytes[i] == 34u8 && (i == 0 || bytes[i - 1] != 92u8))
        invariant
            i <= b.len(),
            b == bytes@,
            next_quote(b, 34u8, 92u8, 0) == next_quote(b, 34u8, 92u8, i as int),
        decreases bytes.len() - i,
    {
        i = i + 1;
    }
    if i >= bytes.len() || i + 1 == bytes.len() {
        return Err(Error::of_kind(ErrorType::UnterminatedOrMissing, String::new()));
    }
    let ghost begin = i + 1;
    assert(next_quote(b, 34u8, 92u8, i as int) == i);
    let mut j: usize = i + 1;
    let mut out: Vec<u8> = Vec::new();
    while j < bytes.len() && bytes[j] != 34u8
        invariant
            j <= b.len(),
            b == bytes@,
            next_quote(b, 34u8, 92u8, 0) == i as int,
            i + 1 < b.len(),
            begin == i + 1,
            unescaped_from(b, begin) == match unescaped_from(b, j as int) {
                Some(t) => Some(out@ + t),
                None => None::<Seq<u8>>,
            },
        decreases bytes.len() - j,
    {
        if bytes[j] == 92u8 {
            if j + 1 >= bytes.len() {
                assert(unescaped_from(b, j as int) is None);
                return Err(Error::of_kind(ErrorType::TrailingBackslash, String::new()));
            }
            let ghost old_out = out@;
            out.push(unescape_byte(bytes[j + 1]));
            proof {
                match unescaped_from(b, j + 2) {
                    Some(t) => { assert(old_out + (seq![unescaped_byte(b[j + 1])] + t) =~= out@ + t); },
                    None => {},
                }
            }
            j = j + 2;
        } else {
            let ghost old_out = out@;
            out.push(bytes[j]);
            proof {
                match unescaped_from(b, j + 1) {
                    Some(t) => { assert(old_out + (seq![b[j as int]] + t) =~= out@ + t); },
                    None => {},
                }
            }
            j = j + 1;
        }
    }
    assert(out@ + seq![] =~= out@);
    match utf8_string(out) {
        Some(s) => Ok(s),
        None => Err(Error::of_kind(ErrorType::InvalidUtf8, String::new())),
    }
}

/// `s` with each newline replaced by the two characters `\n`.
pub open spec fn escape_newlines(s: Seq<char>) -> Seq<char>
    decreases s.len(),
{
    if s.len() == 0 {
        s
    } else if s[0] == '\n' {
        seq!['\\', 'n'] + escape_newlines(s.drop_first())
    } else {
        seq![s[0]] + escape_newlines(s.drop_first())
    }
}

/// The canonical form of a message: line continuations collapsed first,
/// then the remaining newlines escaped.
pub open spec fn canonical(s: Seq<char>) -> Seq<char> {
    escape_newlines(collapse(s))
}

proof fn lemma_escape_has_no_newline(s: Seq<char>)
    ensures
        !escape_newlines(s).contains('\n'),
    decreases s.len(),
{
    if s.len() > 0 {
        lemma_escape_has_no_newline(s.drop_first());
        let rest = escape_newlines(s.drop_first());
        if s[0] == '\n' {
            assert forall|k: int| 0 <= k < escape_newlines(s).len() implies escape_newlines(s)[k] != '\n' by {
                if k >= 2 { assert(escape_newlines(s)[k] == rest[k - 2]); }
            }
        } else {
            assert forall|k: int| 0 <= k < escape_newlines(s).len() implies escape_newlines(s)[k] != '\n' by {
                if k >= 1 { assert(escape_newlines(s)[k] == rest[k - 1]); }
            }
        }
    }
}

proof fn lemma_no_newline_unchanged(s: Seq<char>)
    requires
        !s.contains('\n'),
    ensures
        collapse_from(s, false) == s,
        escape_newlines(s) == s,
    decreases s.len(),
{
    if s.len() > 0 {
        let t = s.drop_first();
        assert(!t.contains('\n')) by {
            if t.contains('\n') {
                let k = choose|k: int| 0 <= k < t.len() && t[k] == '\n';
                assert(s[k + 1] == '\n');
            }
        }
        assert(s[0] != '\n');
        assert(s.len() >= 2 ==> s[1] != '\n') by {
            if s.len() >= 2 { assert(s[1] == t[0]); }
        }
        lemma_no_newline_unchanged(t);
        assert(seq![s[0]] + t =~= s);
    }
}

/// Putting a message in canonical form twice gives what doing it once gives.
pub proof fn lemma_canonical_idempotent(s: Seq<char>)
    ensures
        canonical(canonical(s)) == canonical(s),
{
    lemma_escape_has_no_newline(collapse(s));
    lemma_no_newline_unchanged(canonical(s));
}

/// Whether `s` holds a newline.
fn has_newline(s: &[char]) -> (r: bool)
    ensures
        r == s@.contains('\n'),
{
    let mut i: usize = 0;
    while i < s.len()
        invariant
            i <= s@.len(),
            forall|k: int| 0 <= k < i ==> s@[k] != '\n',
        decreases s.len() - i,
    {
        if s[i] == '\n' {
            return true;
        }
        i = i + 1;
    }
    false
}

/// Escape the characters that would cause trouble in a catalog entry: a
/// backslash followed by a newline (and the white space after it) is
/// removed, and every remaining newline becomes `\n`.
pub fn escape_string(s: &str) -> (r: String)
    ensures
        r@ == canonical(s@),
{
    let cs = chars_of(s);
    if !has_newline(cs.as_slice()) {
        proof { lemma_no_newline_unchanged(s@); }
        return String::from_str(s);
    }
    proof { reveal_strlit("\\\\\\n\\s*"); assert("\\\\\\n\\s*"@ =~= continuation_pattern()); }
    // The pattern is valid, so the `None` branch is never taken.
    let p: Pattern = match compile("\\\\\\n\\s*") {
        Some(p) => p,
        None => { return String::new(); },
    };
    let collapsed = remove_matches(&p, s);
    let c = chars_of(collapsed.as_str());
    let mut out: Vec<char> = Vec::new();
    let mut i: usize = 0;
    assert(c@.subrange(0, c@.len() as int) =~= c@);
    assert(out@ + escape_newlines(c@) =~= escape_newlines(c@));
    while i < c.len()
        invariant
            i <= c@.len(),
            out@ + escape_newlines(c@.subrange(i as int, c@.len() as int)) == canonical(s@),
        decreases c.len() - i,
    {
        let ghost rest = c@.subrange(i as int, c@.len() as int);
        assert(rest.drop_first() =~= c@.subrange(i + 1, c@.len() as int));
        let ghost old_out = out@;
        if c[i] == '\n' {
            out.push('\\');
            out.push('n');
            assert(old_out + (seq!['\\', 'n'] + rest.drop_first()) =~= out@ + rest.drop_first());
            assert(old_out + (seq!['\\', 'n'] + escape_newlines(rest.drop_first())) =~= out@ + escape_newlines(rest.drop_first()));
        } else {
            out.push(c[i]);
            assert(old_out + (seq![c@[i as int]] + escape_newlines(rest.drop_first())) =~= out@ + escape_newlines(rest.drop_first()));
        }
        i = i + 1;
    }
    proof {
        assert(c@.subrange(i as int, c@.len() as int) =~= Seq::<char>::empty());
        assert(out@ + Seq::<char>::empty() =~= out@);
    }
    string_of(out.as_slice())
}

} // verus!
