//! Extraction, out of source text, of the messages to translate; and the
//! catalog template that lists them.

use vstd::prelude::*;
use vstd::utf8::{encode_utf8, valid_utf8, decode_utf8};
use crate::chars::{decimal, push_str, push_decimal, string_of};
use crate::common::{canonical, escape_string, find_string, literal_bytes, lemma_canonical_idempotent};
use crate::error::{Error, ErrorType, Result};
use crate::lang::{EntryView, Translations, insert_entry, key_set, parse_catalog};
use crate::template::{filled_template, fits_in_line, files_single_line, lemma_template_parses, template_fits};
use crate::message::{Message, MessageView, entry_text_with};
use crate::order::{cmp_message, compare_messages, lemma_cmp_message_facts};
use crate::pattern::{
    Pattern, compile, remove_matches, match_ends, strip_comments, marker_ends, marker_ends_from,
    marker_bytes, comment_pattern, marker_pattern,
};

verus! {

/// What an extractor holds: the messages found so far, in the order in
/// which each was first found, and the call-site texts whose canonical form
/// differs from them, mapped to that form.
pub struct ExtractorView {
    pub messages: Seq<MessageView>,
    pub originals: Seq<EntryView>,
}

/// The position of the message whose text is `t`, or -1.
pub open spec fn msg_index(ms: Seq<MessageView>, t: Seq<char>) -> int
    decreases ms.len(),
{
    if ms.len() == 0 {
        -1
    } else if ms.last().1 == t {
        ms.len() - 1
    } else {
        msg_index(ms.drop_last(), t)
    }
}

/// Every message text is in canonical form.
pub open spec fn texts_canonical(ms: Seq<MessageView>) -> bool {
    forall|i: int| 0 <= i < ms.len() ==> canonical(#[trigger] ms[i].1) == ms[i].1
}

/// No two messages share a text.
pub open spec fn texts_unique(ms: Seq<MessageView>) -> bool {
    forall|a: int, b: int| 0 <= a < b < ms.len() ==> ms[a].1 != ms[b].1
}

/// The extractor after one more sighting of the call-site text `orig` in
/// `file` at `line`.
pub open spec fn add_sighting(v: ExtractorView, file: Seq<char>, orig: Seq<char>, line: usize)
    -> ExtractorView
{
    let canon = canonical(orig);
    let i = msg_index(v.messages, canon);
    ExtractorView {
        messages: if i >= 0 {
            v.messages.update(i, (v.messages[i].0.push((file, line)), v.messages[i].1))
        } else {
            v.messages.push((seq![(file, line)], canon))
        },
        originals: if canon != orig {
            insert_entry(v.originals, orig, canon)
        } else {
            v.originals
        },
    }
}

/// The extractor after the sightings `ss` in `file`, in order.
pub open spec fn add_sightings(v: ExtractorView, file: Seq<char>, ss: Seq<(Seq<char>, usize)>)
    -> ExtractorView
    decreases ss.len(),
{
    if ss.len() == 0 {
        v
    } else {
        add_sighting(add_sightings(v, file, ss.drop_last()), file, ss.last().0, ss.last().1)
    }
}

/// The number of newline bytes in `b`.
pub open spec fn newline_count(b: Seq<u8>) -> nat
    decreases b.len(),
{
    if b.len() == 0 {
        0
    } else {
        newline_count(b.drop_last()) + if b.last() == 10u8 { 1nat } else { 0nat }
    }
}

/// The call-site texts found at the marker ends `ends` of the bytes `b`,
/// each with its 1-based line; or the line of the first that cannot be read.
pub open spec fn sightings_at(b: Seq<u8>, ends: Seq<int>)
    -> core::result::Result<Seq<(Seq<char>, usize)>, usize>
    decreases ends.len(),
{
    if ends.len() == 0 {
        Ok(seq![])
    } else {
        match sightings_at(b, ends.drop_last()) {
            Err(l) => Err(l),
            Ok(ss) => {
                let e = ends.last();
                let line = (1 + newline_count(b.subrange(0, e))) as usize;
                let lit = literal_bytes(b.subrange(e, b.len() as int));
                if lit is Some && valid_utf8(lit->0) {
                    Ok(ss.push((decode_utf8(lit->0), line)))
                } else {
                    Err(line)
                }
            },
        }
    }
}

/// The message of an extraction error: the file and 1-based line of the
/// call site whose literal cannot be read.
pub open spec fn extraction_error_text(file: Seq<char>, line: nat) -> Seq<char> {
    file + seq![':'] + decimal(line) + ": could not parse as string"@
}

/// The call-site texts of a source file's content, each with its line:
/// comments are removed first, then each marker is followed by a literal.
pub open spec fn file_sightings(content: Seq<char>)
    -> core::result::Result<Seq<(Seq<char>, usize)>, usize>
{
    let b = encode_utf8(strip_comments(content));
    sightings_at(b, marker_ends(b))
}

proof fn lemma_marker_ends(b: Seq<u8>, from: int)
    requires
        0 <= from,
    ensures
        forall|k: int| 0 <= k < marker_ends_from(b, from).len() ==> {
            let e = #[trigger] marker_ends_from(b, from)[k];
            &&& from + 9 <= e <= b.len()
            &&& b[e - 1] == 40u8
        },
    decreases b.len() - from,
{
    if from + 9 <= b.len() && from < b.len() {
        if b.subrange(from, from + 9) == marker_bytes() {
            lemma_marker_ends(b, from + 9);
            assert(b.subrange(from, from + 9)[8] == 40u8);
            let es = marker_ends_from(b, from);
            assert forall|k: int| 0 <= k < es.len() implies {
                let e = #[trigger] es[k];
                &&& from + 9 <= e <= b.len()
                &&& b[e - 1] == 40u8
            } by {
                if k > 0 {
                    assert(es[k] == marker_ends_from(b, from + 9)[k - 1]);
                } else {
                    assert(es[k] == from + 9);
                    assert(b[from + 8] == b.subrange(from, from + 9)[8]);
                }
            }
        } else {
            lemma_marker_ends(b, from + 1);
            assert(marker_ends_from(b, from) == marker_ends_from(b, from + 1));
        }
    } else {
        assert(marker_ends_from(b, from).len() == 0);
    }
}

/// Extracts all messages from source code, and renders them as a catalog
/// template, a starting point for translators.
///
/// Only the first argument of calls to the `lformat!` macro is considered
/// as needing translation.
#[derive(Debug, Clone)]
pub struct Extractor {
    messages: Vec<Message>,
    orig_strings: Translations,
}

impl View for Extractor {
    type V = ExtractorView;

    closed spec fn view(&self) -> ExtractorView {
        ExtractorView {
            messages: self.messages@.map_values(|m: Message| m@),
            originals: self.orig_strings@,
        }
    }
}

/// The header of a catalog template.
pub const POT_HEADER: &'static str = "# SOME DESCRIPTIVE TITLE\n# Copyright (C) YEAR THE PACKAGE'S COPYRIGHT HOLDER\n# LICENSE\n# AUTHOR <EMAIL@ADDRESS>, YEAR.\n#\n#, fuzzy\nmsgid \"\"\nmsgstr \"\"\n\"Content-Type: text/plain; charset=UTF-8\\n\"\n\n";

/// The blocks of the messages `ms`, in order, each with `value` as its
/// translation.
pub open spec fn pot_body_with(ms: Seq<MessageView>, value: Seq<char>) -> Seq<char>
    decreases ms.len(),
{
    if ms.len() == 0 {
        seq![]
    } else {
        pot_body_with(ms.drop_last(), value) + entry_text_with(ms.last(), value)
    }
}

/// The blocks of the messages `ms` in a template, in order: each with an
/// empty translation.
pub open spec fn pot_body(ms: Seq<MessageView>) -> Seq<char> {
    pot_body_with(ms, seq![])
}

/// Whether `order` lists each position of `ms` once, so that the messages
/// come in their natural ordering.
pub open spec fn is_sorted_order(ms: Seq<MessageView>, order: Seq<int>) -> bool {
    &&& order.len() == ms.len()
    &&& forall|i: int| 0 <= i < order.len() ==> 0 <= #[trigger] order[i] < ms.len()
    &&& forall|i: int, j: int| 0 <= i < j < order.len() ==> order[i] != order[j]
    &&& forall|i: int, j: int|
        0 <= i < j < order.len() ==> cmp_message(ms[order[i]], ms[order[j]]) <= 0
}

impl Extractor {
    /// The well-formedness of an extractor: one message per text, and
    /// unique keys among the original strings.
    pub closed spec fn wf(&self) -> bool {
        &&& texts_unique(self@.messages)
        &&& texts_canonical(self@.messages)
        &&& self.orig_strings.wf()
    }

    /// Creates a new, empty extractor.
    pub fn new() -> (r: Extractor)
        ensures
            r@.messages == Seq::<MessageView>::empty(),
            r@.originals == Seq::<EntryView>::empty(),
            r.wf(),
    {
        let r = Extractor { messages: Vec::new(), orig_strings: Translations::new() };
        assert(r@.messages =~= Seq::<MessageView>::empty());
        r
    }

    /// The mapping from the strings as written at call sites to their
    /// canonical form; it only holds strings that differ from it.
    pub fn original_strings(&self) -> (r: &Translations)
        requires
            self.wf(),
        ensures
            r@ == self@.originals,
            r.wf(),
    {
        &self.orig_strings
    }

    /// The messages found so far, in the order in which each was first found.
    pub fn messages(&self) -> (r: &[Message])
        ensures
            r@.map_values(|m: Message| m@) == self@.messages,
    {
        self.messages.as_slice()
    }

    fn find_message(&self, text: &String) -> (r: Option<usize>)
        requires
            self.wf(),
        ensures
            r is Some <==> msg_index(self@.messages, text@) >= 0,
            r is Some ==> r->0 == msg_index(self@.messages, text@),
    {
        proof { lemma_msg_index(self@.messages, text@); }
        let mut i: usize = 0;
        while i < self.messages.len()
            invariant
                i <= self@.messages.len(),
                self.wf(),
                forall|j: int| 0 <= j < i ==> self@.messages[j].1 != text@,
            decreases self.messages.len() - i,
        {
            if self.messages[i].msg == *text {
                proof {
                    assert(self@.messages[i as int].1 == text@);
                    lemma_msg_index(self@.messages, text@);
                }
                return Some(i);
            }
            i = i + 1;
        }
        None
    }

    /// Records one sighting of the call-site text `orig` in `file` at `line`.
    fn add_sighting(&mut self, file: &str, orig: String, line: usize)
        requires
            old(self).wf(),
        ensures
            final(self)@ == add_sighting(old(self)@, file@, orig@, line),
            final(self).wf(),
    {
        let ghost v = self@;
        let ghost o = orig@;
        let canon = escape_string(orig.as_str());
        proof {
            lemma_msg_index(v.messages, canon@);
            lemma_canonical_idempotent(orig@);
        }
        if !(canon == orig) {
            self.orig_strings.insert(orig, canon.clone());
        }
        match self.find_message(&canon) {
            Some(i) => {
                self.messages[i].add_source(file, line);
            },
            None => {
                let mut m = Message::new(canon.as_str());
                m.add_source(file, line);
                self.messages.push(m);
            },
        }
        assert(self@.messages =~= add_sighting(v, file@, o, line).messages);
    }

    /// Adds the messages found in the content of a source file: comments
    /// (from `//` to the end of the line) are removed first, then the first
    /// string literal after each `lformat!(` is taken, in canonical form.
    /// Nothing is added where one of the literals cannot be read.
    pub fn add_messages_from_str(&mut self, filename: &str, content: &str) -> (r: Result<()>)
        requires
            old(self).wf(),
        ensures
            final(self).wf(),
            file_sightings(content@) is Ok ==> r is Ok && final(self)@ == add_sightings(
                old(self)@,
                filename@,
                file_sightings(content@)->Ok_0,
            ),
            file_sightings(content@) is Err ==> r is Err && final(self)@ == old(self)@
                && r->Err_0.variant == ErrorType::Parse && r->Err_0.line == Some(
                file_sightings(content@)->Err_0) && r->Err_0.msg@ == extraction_error_text(
                filename@,
                file_sightings(content@)->Err_0 as nat,
            ),
    {
        proof {
            reveal_strlit("//[^\\n]*");
            reveal_strlit("lformat!\\(");
            assert("//[^\\n]*"@ =~= comment_pattern());
            assert("lformat!\\("@ =~= marker_pattern());
        }
        // Both patterns are valid, so neither `None` branch is ever taken.
        let comments: Pattern = match compile("//[^\\n]*") {
            Some(p) => p,
            None => { return Err(Error::parse(String::new())); },
        };
        let marker: Pattern = match compile("lformat!\\(") {
            Some(p) => p,
            None => { return Err(Error::parse(String::new())); },
        };
        let stripped = remove_matches(&comments, content);
        let ends = match_ends(&marker, stripped.as_str());
        let bytes = stripped.as_str().as_bytes();
        let ghost b = bytes@;
        let ghost es = marker_ends(b);
        proof { lemma_marker_ends(b, 0); }
        let mut found: Vec<(String, usize)> = Vec::new();
        let mut k: usize = 0;
        assert(es.take(0) =~= Seq::<int>::empty());
        assert(found@.map_values(|s: (String, usize)| (s.0@, s.1)) =~= Seq::<(Seq<char>, usize)>::empty());
        while k < ends.len()
            invariant
                k <= ends@.len(),
                self.wf(),
                self@ == old(self)@,
                b == bytes@,
                b == encode_utf8(strip_comments(content@)),
                es == marker_ends(b),
                ends@.len() == es.len(),
                forall|j: int| 0 <= j < ends@.len() ==> ends@[j] as int == #[trigger] es[j],
                forall|j: int| 0 <= j < es.len() ==> {
                    let e = #[trigger] es[j];
                    &&& 9 <= e <= b.len()
                    &&& b[e - 1] == 40u8
                },
                sightings_at(b, es.take(k as int)) == core::result::Result::<
                    Seq<(Seq<char>, usize)>,
                    usize,
                >::Ok(found@.map_values(|s: (String, usize)| (s.0@, s.1))),
            decreases ends.len() - k,
        {
            let pos = ends[k];
            assert(pos as int == es[k as int]);
            let line = line_at(bytes, pos);
            let ghost prefix = es.take(k as int);
            proof {
                assert(es.take(k + 1).drop_last() =~= prefix);
                assert(es.take(k + 1).last() == pos as int);
            }
            match find_string(&bytes[pos..bytes.len()]) {
                Ok(s) => {
                    found.push((s, line));
                    assert(found@.map_values(|s: (String, usize)| (s.0@, s.1)) =~= sightings_at(b, es.take(k + 1))->Ok_0);
                },
                Err(_) => {
                    assert(sightings_at(b, es.take(k + 1)) == core::result::Result::<Seq<(Seq<char>, usize)>, usize>::Err(line));
                    proof { lemma_sightings_err(b, es, k as int + 1); }
                    let mut m: Vec<char> = Vec::new();
                    push_str(&mut m, filename);
                    m.push(':');
                    push_decimal(&mut m, line);
                    push_str(&mut m, ": could not parse as string");
                    assert(m@ =~= extraction_error_text(filename@, line as nat));
                    return Err(Error::parse_at(string_of(m.as_slice()), line));
                },
            }
            k = k + 1;
        }
        assert(es.take(k as int) =~= es);
        let ghost ss = found@.map_values(|s: (String, usize)| (s.0@, s.1));
        let ghost start = self@;
        let mut j: usize = 0;
        while j < found.len()
            invariant
                j <= found@.len(),
                ss == found@.map_values(|s: (String, usize)| (s.0@, s.1)),
                self.wf(),
                self@ == add_sightings(start, filename@, ss.take(j as int)),
            decreases found.len() - j,
        {
            let (s, line) = (found[j].0.clone(), found[j].1);
            self.add_sighting(filename, s, line);
            proof {
                assert(ss.take(j + 1).drop_last() =~= ss.take(j as int));
            }
            j = j + 1;
        }
        assert(ss.take(j as int) =~= ss);
        Ok(())
    }
}

impl Extractor {
    /// The positions of the messages in their natural ordering.
    fn sorted_positions(&self) -> (order: Vec<usize>)
        ensures
            is_sorted_order(self@.messages, order@.map_values(|i: usize| i as int)),
    {
        let ghost ms = self@.messages;
        let n = self.messages.len();
        let mut used: Vec<bool> = Vec::new();
        let mut t: usize = 0;
        while t < n
            invariant
                t <= n,
                used@.len() == t,
                forall|j: int| 0 <= j < t ==> !used@[j],
            decreases n - t,
        {
            used.push(false);
            t = t + 1;
        }
        let mut order: Vec<usize> = Vec::new();
        while order.len() < n
            invariant
                n == ms.len(),
                ms == self@.messages,
                used@.len() == n,
                order@.len() <= n,
                forall|i: int| 0 <= i < order@.len() ==> (#[trigger] order@[i]) < n && used@[order@[i] as int],
                forall|i: int, j: int| 0 <= i < j < order@.len() ==> order@[i] != order@[j],
                forall|j: int| 0 <= j < n && #[trigger] used@[j] ==> exists|i: int| 0 <= i < order@.len() && order@[i] == j,
                forall|i: int, j: int| 0 <= i < j < order@.len() ==> cmp_message(ms[order@[i] as int], ms[order@[j] as int]) <= 0,
                forall|i: int, j: int| 0 <= i < order@.len() && 0 <= j < n && !used@[j] ==> cmp_message(ms[order@[i] as int], ms[j]) <= 0,
            decreases n - order@.len(),
        {
            proof {
                // some position is still free, as `order` holds fewer than n distinct ones
                lemma_free_position(order@, used@, n as int);
            }
            let mut best: usize = n;
            let mut j: usize = 0;
            while j < n
                invariant
                    n == ms.len(),
                    ms == self@.messages,
                        used@.len() == n,
                    j <= n,
                    best == n || (best < n && !used@[best as int]),
                    best == n ==> forall|k: int| 0 <= k < j ==> used@[k],
                    best < n ==> forall|k: int| 0 <= k < j && !used@[k] ==> cmp_message(ms[best as int], ms[k]) <= 0,
                decreases n - j,
            {
                if !used[j] {
                    assert(self.messages@[j as int]@ == ms[j as int]);
                    if best == n {
                        best = j;
                        proof { lemma_cmp_message_facts(ms[j as int], ms[j as int], ms[j as int]); }
                    } else if compare_messages(&self.messages[j], &self.messages[best]) < 0 {
                        assert(self.messages@[best as int]@ == ms[best as int]);
                        proof {
                            assert forall|k: int| 0 <= k < j + 1 && !used@[k] implies cmp_message(ms[j as int], ms[k]) <= 0 by {
                                if k < j {
                                    lemma_cmp_message_facts(ms[j as int], ms[best as int], ms[k]);
                                } else {
                                    lemma_cmp_message_facts(ms[j as int], ms[j as int], ms[j as int]);
                                }
                            }
                        }
                        best = j;
                    } else {
                        assert(self.messages@[best as int]@ == ms[best as int]);
                        proof {
                            lemma_cmp_message_facts(ms[best as int], ms[j as int], ms[j as int]);
                        }
                    }
                }
                j = j + 1;
            }
            if best == n {
                proof { assert(false); }
                return order;
            }
            proof {
                assert forall|i: int| 0 <= i < order@.len() implies cmp_message(ms[order@[i] as int], ms[best as int]) <= 0 by {}
            }
            let ghost old_order = order@;
            let ghost old_used = used@;
            order.push(best);
            used.set(best, true);
            proof {
                assert forall|j: int| 0 <= j < n && #[trigger] used@[j] implies exists|i: int| 0 <= i < order@.len() && order@[i] == j by {
                    if j == best as int {
                        assert(order@[old_order.len() as int] == j);
                    } else {
                        assert(old_used[j]);
                        let i = choose|i: int| 0 <= i < old_order.len() && old_order[i] == j;
                        assert(order@[i] == j);
                    }
                }
                assert forall|i: int, j: int| 0 <= i < order@.len() && 0 <= j < n && !used@[j] implies cmp_message(ms[order@[i] as int], ms[j]) <= 0 by {
                    if i < old_order.len() {
                        assert(!old_used[j]);
                    } else {
                        assert(order@[i] == best);
                        assert(!old_used[j]);
                    }
                }
                assert forall|i: int, j: int| 0 <= i < j < order@.len() implies order@[i] != order@[j] by {
                    if j == old_order.len() {
                        assert(old_used[old_order[i] as int]);
                    }
                }
            }
        }
        proof {
            let o = order@.map_values(|i: usize| i as int);
            assert forall|i: int, j: int| 0 <= i < j < o.len() implies o[i] != o[j] by {
                assert(order@[i] != order@[j]);
            }
        }
        order
    }

    /// Generates a catalog template from the messages extracted so far: a
    /// fixed header, then one block per message in their natural ordering.
    pub fn generate_pot_file(&self) -> (r: String)
        ensures
            exists|order: Seq<int>|
                is_sorted_order(self@.messages, order) && r@ == POT_HEADER@ + pot_body(
                    order.map_values(|i: int| self@.messages[i]),
                ),
    {
        let order = self.sorted_positions();
        let ghost ms = self@.messages;
        let ghost o = order@.map_values(|i: usize| i as int);
        let mut out: Vec<char> = Vec::new();
        push_str(&mut out, POT_HEADER);
        let mut k: usize = 0;
        while k < order.len()
            invariant
                k <= order@.len(),
                ms == self@.messages,
                o == order@.map_values(|i: usize| i as int),
                is_sorted_order(ms, o),
                out@ == POT_HEADER@ + pot_body(o.take(k as int).map_values(|i: int| ms[i])),
            decreases order.len() - k,
        {
            let i = order[k];
            assert(o[k as int] == i as int);
            let e = self.messages[i].to_entry_string();
            push_str(&mut out, e.as_str());
            proof {
                let p = o.take(k + 1).map_values(|i: int| ms[i]);
                assert(p.drop_last() =~= o.take(k as int).map_values(|i: int| ms[i]));
                assert(p.last() == ms[i as int]);
            }
            k = k + 1;
        }
        assert(o.take(k as int) =~= o);
        string_of(out.as_slice())
    }
}

proof fn lemma_free_position(order: Seq<usize>, used: Seq<bool>, n: int)
    requires
        order.len() < n,
        used.len() == n,
        forall|i: int, j: int| 0 <= i < j < order.len() ==> order[i] != order[j],
        forall|j: int| 0 <= j < n && #[trigger] used[j] ==> exists|i: int| 0 <= i < order.len() && order[i] == j,
        forall|i: int| 0 <= i < order.len() ==> (#[trigger] order[i]) < n,
    ensures
        exists|j: int| 0 <= j < n && !used[j],
{
    if forall|j: int| 0 <= j < n ==> used[j] {
        // every position below n is in `order`, which is too short to hold them all
        let s = vstd::set_lib::set_int_range(0, n);
        let os = order.map_values(|x: usize| x as int);
        let img = os.to_set();
        vstd::seq_lib::seq_to_set_is_finite(os);
        assert(s.subset_of(img)) by {
            assert forall|j: int| s.contains(j) implies img.contains(j) by {
                assert(used[j]);
                let i = choose|i: int| 0 <= i < order.len() && order[i] == j;
                assert(os[i] == j);
            }
        }
        vstd::set_lib::lemma_int_range(0, n);
        os.lemma_cardinality_of_set();
        vstd::set_lib::lemma_len_subset(s, img);
        assert(false);
    }
}

/// The 1-based line of the byte at `pos` - 1, the last byte of a marker.
fn line_at(bytes: &[u8], pos: usize) -> (line: usize)
    requires
        1 <= pos <= bytes@.len(),
        bytes@[pos - 1] == 40u8,
    ensures
        line == 1 + newline_count(bytes@.subrange(0, pos as int)),
{
    let mut count: usize = 0;
    let mut j: usize = 0;
    assert(bytes@.subrange(0, 0) =~= Seq::<u8>::empty());
    while j < pos - 1
        invariant
            j <= pos - 1,
            pos <= bytes@.len(),
            count <= j,
            count == newline_count(bytes@.subrange(0, j as int)),
        decreases pos - 1 - j,
    {
        assert(bytes@.subrange(0, j + 1).drop_last() =~= bytes@.subrange(0, j as int));
        if bytes[j] == 10u8 {
            count = count + 1;
        }
        j = j + 1;
    }
    assert(bytes@.subrange(0, pos as int).drop_last() =~= bytes@.subrange(0, pos - 1));
    count + 1
}

proof fn lemma_sightings_err(b: Seq<u8>, es: Seq<int>, k: int)
    requires
        0 <= k <= es.len(),
        sightings_at(b, es.take(k)) is Err,
    ensures
        sightings_at(b, es) == sightings_at(b, es.take(k)),
    decreases es.len() - k,
{
    if k < es.len() {
        assert(es.take(k + 1).drop_last() =~= es.take(k));
        lemma_sightings_err(b, es, k + 1);
    } else {
        assert(es.take(k) =~= es);
    }
}

proof fn lemma_msg_index(ms: Seq<MessageView>, t: Seq<char>)
    ensures
        -1 <= msg_index(ms, t) < ms.len(),
        msg_index(ms, t) >= 0 ==> ms[msg_index(ms, t)].1 == t,
        msg_index(ms, t) < 0 ==> forall|j: int| 0 <= j < ms.len() ==> ms[j].1 != t,
        texts_unique(ms) ==> forall|j: int| 0 <= j < ms.len() && ms[j].1 == t ==> msg_index(ms, t) == j,
    decreases ms.len(),
{
    if ms.len() > 0 && ms.last().1 != t {
        lemma_msg_index(ms.drop_last(), t);
        assert forall|j: int| 0 <= j < ms.len() - 1 implies ms[j] == ms.drop_last()[j] by {}
    }
}


/// A message seen twice in one file, at two lines, and found nowhere
/// before, becomes a single message with both places as its sources.
pub proof fn lemma_two_sightings_one_message(
    v: ExtractorView,
    file: Seq<char>,
    orig: Seq<char>,
    line1: usize,
    line2: usize,
)
    requires
        forall|i: int| 0 <= i < v.messages.len() ==> v.messages[i].1 != canonical(orig),
    ensures
        add_sightings(v, file, seq![(orig, line1), (orig, line2)]).messages == v.messages.push(
            (seq![(file, line1), (file, line2)], canonical(orig)),
        ),
{
    let ss = seq![(orig, line1), (orig, line2)];
    assert(ss.drop_last() =~= seq![(orig, line1)]);
    assert(seq![(orig, line1)].drop_last() =~= Seq::<(Seq<char>, usize)>::empty());
    lemma_msg_index(v.messages, canonical(orig));
    let v1 = add_sighting(v, file, orig, line1);
    let none = seq![(orig, line1)].drop_last();
    assert(none.len() == 0);
    assert(add_sightings(v, file, none) == v);
    assert(v1 == add_sightings(v, file, seq![(orig, line1)]));
    assert(v1.messages == v.messages.push((seq![(file, line1)], canonical(orig))));
    lemma_msg_index(v1.messages, canonical(orig));
    assert(v1.messages.last().1 == canonical(orig));
    assert(msg_index(v1.messages, canonical(orig)) == v.messages.len());
    assert(seq![(file, line1)].push((file, line2)) =~= seq![(file, line1), (file, line2)]);
    assert(add_sighting(v1, file, orig, line2).messages =~= v.messages.push(
        (seq![(file, line1), (file, line2)], canonical(orig)),
    ));
}

/// The texts of the messages listed in `order` are those of all messages.
proof fn lemma_sorted_order_texts(ms: Seq<MessageView>, order: Seq<int>)
    requires
        is_sorted_order(ms, order),
    ensures
        order.map_values(|i: int| ms[i]).map_values(|m: MessageView| m.1).to_set() == ms.map_values(
            |m: MessageView| m.1,
        ).to_set(),
{
    let n = ms.len() as int;
    let range = vstd::set_lib::set_int_range(0, n);
    assert(order.no_duplicates());
    order.unique_seq_to_set();
    vstd::seq_lib::seq_to_set_is_finite(order);
    vstd::set_lib::lemma_int_range(0, n);
    assert(order.to_set().subset_of(range));
    vstd::set_lib::lemma_subset_equality(order.to_set(), range);
    let a = order.map_values(|i: int| ms[i]).map_values(|m: MessageView| m.1);
    let b = ms.map_values(|m: MessageView| m.1);
    assert forall|x: Seq<char>| a.to_set().contains(x) <==> b.to_set().contains(x) by {
        if a.to_set().contains(x) {
            let k = choose|k: int| 0 <= k < a.len() && a[k] == x;
            assert(b[order[k]] == x);
        }
        if b.to_set().contains(x) {
            let j = choose|j: int| 0 <= j < b.len() && b[j] == x;
            assert(range.contains(j));
            assert(order.to_set().contains(j));
            let k = choose|k: int| 0 <= k < order.len() && order[k] == j;
            assert(a[k] == x);
        }
    }
    assert(a.to_set() =~= b.to_set());
}

/// Filling in every translation of the catalog template (the header's
/// included) with the same text, and parsing the result, gives a catalog
/// whose keys are exactly the texts of the extracted messages. With an empty
/// text, `filled_template` is the template that `generate_pot_file` returns.
///
/// This holds where each message text and the filled-in text read back
/// whole between quotes on one line (not empty, every quote escaped, no
/// trailing backslash), and no source names a file with a newline.
pub proof fn lemma_template_round_trip(e: Extractor, order: Seq<int>, value: Seq<char>)
    requires
        e.wf(),
        is_sorted_order(e@.messages, order),
        template_fits(e@.messages, value),
    ensures
        parse_catalog(filled_template(order.map_values(|i: int| e@.messages[i]), value)) is Ok,
        key_set(
            parse_catalog(filled_template(order.map_values(|i: int| e@.messages[i]), value))->Ok_0,
        ) == e@.messages.map_values(|m: MessageView| m.1).to_set(),
{
    let ms = e@.messages;
    let sorted = order.map_values(|i: int| ms[i]);
    assert(template_fits(sorted, value)) by {
        assert forall|j: int| 0 <= j < sorted.len() implies fits_in_line(canonical(#[trigger] sorted[j].1))
            && files_single_line(sorted[j].0) by {
            assert(sorted[j] == ms[order[j]]);
        }
    }
    lemma_template_parses(sorted, value);
    lemma_sorted_order_texts(ms, order);
    assert(sorted.map_values(|m: MessageView| canonical(m.1)) =~= sorted.map_values(|m: MessageView| m.1)) by {
        assert forall|j: int| 0 <= j < sorted.len() implies canonical(sorted[j].1) == sorted[j].1 by {
            assert(sorted[j] == ms[order[j]]);
        }
    }
}

} // verus!
