//! The regular expressions that extraction and canonicalization use, and
//! what removing or finding their matches does to a text.

use vstd::prelude::*;
use vstd::utf8::encode_utf8;
use crate::chars::is_white_space;

verus! {

#[verifier::external_type_specification]
#[verifier::external_body]
pub struct ExRegex(regex::Regex);

/// A compiled regular expression together with the text it was compiled from.
pub(crate) struct Pattern {
    re: regex::Regex,
    src: Ghost<Seq<char>>,
}

impl Pattern {
    /// The pattern text this expression was compiled from.
    pub(crate) closed spec fn source(&self) -> Seq<char> {
        self.src@
    }
}

/// `\\\n\s*`: a backslash, a newline, and the white space that follows.
pub open spec fn continuation_pattern() -> Seq<char> {
    seq!['\\', '\\', '\\', 'n', '\\', 's', '*']
}

/// `//[^\n]*`: an end-of-line comment.
pub open spec fn comment_pattern() -> Seq<char> {
    seq!['/', '/', '[', '^', '\\', 'n', ']', '*']
}

/// `lformat!\(`: the call-site marker.
pub open spec fn marker_pattern() -> Seq<char> {
    seq!['l', 'f', 'o', 'r', 'm', 'a', 't', '!', '\\', '(']
}

/// The patterns this library compiles; each is valid syntax.
pub open spec fn known_pattern(p: Seq<char>) -> bool {
    p == continuation_pattern() || p == comment_pattern() || p == marker_pattern()
}

/// Removing every match of `\\\n\s*` from `s`, where `skipping` says that a
/// match is in progress and may still take white space.
pub open spec fn collapse_from(s: Seq<char>, skipping: bool) -> Seq<char>
    decreases s.len(),
{
    if s.len() == 0 {
        s
    } else if skipping && is_white_space(s[0]) {
        collapse_from(s.drop_first(), true)
    } else if s.len() >= 2 && s[0] == '\\' && s[1] == '\n' {
        collapse_from(s.subrange(2, s.len() as int), true)
    } else {
        seq![s[0]] + collapse_from(s.drop_first(), false)
    }
}

/// `s` with each backslash-newline, and the white space after it, removed.
pub open spec fn collapse(s: Seq<char>) -> Seq<char> {
    collapse_from(s, false)
}

/// Removing every match of `//[^\n]*` from `s`, where `in_comment` says
/// that a match is in progress.
pub open spec fn strip_from(s: Seq<char>, in_comment: bool) -> Seq<char>
    decreases s.len(),
{
    if s.len() == 0 {
        s
    } else if in_comment && s[0] != '\n' {
        strip_from(s.drop_first(), true)
    } else if s.len() >= 2 && s[0] == '/' && s[1] == '/' {
        strip_from(s.subrange(2, s.len() as int), true)
    } else {
        seq![s[0]] + strip_from(s.drop_first(), false)
    }
}

/// `s` with every `//` comment removed up to (not including) its newline.
pub open spec fn strip_comments(s: Seq<char>) -> Seq<char> {
    strip_from(s, false)
}

/// The UTF-8 bytes of `lformat!(`.
pub open spec fn marker_bytes() -> Seq<u8> {
    seq![108u8, 102u8, 111u8, 114u8, 109u8, 97u8, 116u8, 33u8, 40u8]
}

/// The byte offsets just after each occurrence of the marker in `b` at or
/// after `from`, found left to right without overlap.
pub open spec fn marker_ends_from(b: Seq<u8>, from: int) -> Seq<int>
    decreases b.len() - from,
{
    if from < 0 || from + 9 > b.len() {
        seq![]
    } else if b.subrange(from, from + 9) == marker_bytes() {
        seq![from + 9] + marker_ends_from(b, from + 9)
    } else {
        marker_ends_from(b, from + 1)
    }
}

/// The byte offsets just after each occurrence of the marker in `b`.
pub open spec fn marker_ends(b: Seq<u8>) -> Seq<int> {
    marker_ends_from(b, 0)
}

/// Relies on `regex::Regex::new`: a pattern of valid syntax compiles, and the
/// expression keeps the text it came from.
#[verifier::external_body]
pub(crate) fn compile(pattern: &str) -> (r: Option<Pattern>)
    ensures
        r is Some ==> r->0.source() == pattern@,
        known_pattern(pattern@) ==> r is Some,
{
    match regex::Regex::new(pattern) {
        Ok(re) => Some(Pattern { re, src: Ghost(pattern@) }),
        Err(_) => None,
    }
}

/// Relies on `regex::Regex::replace_all` with an empty replacement: each
/// match, leftmost first and without overlap, is removed from the text.
#[verifier::external_body]
pub(crate) fn remove_matches(p: &Pattern, text: &str) -> (r: String)
    ensures
        p.source() == continuation_pattern() ==> r@ == collapse(text@),
        p.source() == comment_pattern() ==> r@ == strip_comments(text@),
{
    p.re.replace_all(text, "").into_owned()
}

/// Relies on `regex::Regex::find_iter`: the leftmost-first, non-overlapping
/// matches in order, each given by the byte offset at which it ends.
#[verifier::external_body]
pub(crate) fn match_ends(p: &Pattern, text: &str) -> (r: Vec<usize>)
    ensures
        p.source() == marker_pattern() ==> r@.len() == marker_ends(encode_utf8(text@)).len(),
        p.source() == marker_pattern() ==> forall|k: int|
            0 <= k < r@.len() ==> r@[k] as int == #[trigger] marker_ends(encode_utf8(text@))[k],
{
    p.re.find_iter(text).map(|m| m.end()).collect()
}

} // verus!
