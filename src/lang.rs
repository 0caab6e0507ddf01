//! Per-language catalogs and the parser of the catalog text format.

use vstd::prelude::*;
use crate::chars::{chars_of, decimal, string_of, trim, trim_chars, push_str, push_all, push_decimal};
use crate::common::{find_literal, literal_chars};
use crate::error::{Error, ErrorType, Result};
use crate::template::{lemma_split_line, lemma_trim_keeps};

verus! {

/// An entry of a catalog: the original message and its translation.
pub type EntryView = (Seq<char>, Seq<char>);

/// The position of the entry whose key is `k`, or -1 where there is none.
pub open spec fn key_index(es: Seq<EntryView>, k: Seq<char>) -> int
    decreases es.len(),
{
    if es.len() == 0 {
        -1
    } else if es.last().0 == k {
        es.len() - 1
    } else {
        key_index(es.drop_last(), k)
    }
}

/// The translation of `k` in `es`, if any.
pub open spec fn lookup(es: Seq<EntryView>, k: Seq<char>) -> Option<Seq<char>> {
    let i = key_index(es, k);
    if i >= 0 { Some(es[i].1) } else { None }
}

/// `es` where `k` now maps to `v`: an existing entry for `k` is overwritten
/// in place, otherwise a new entry goes at the end.
pub open spec fn insert_entry(es: Seq<EntryView>, k: Seq<char>, v: Seq<char>) -> Seq<EntryView> {
    let i = key_index(es, k);
    if i >= 0 { es.update(i, (k, v)) } else { es.push((k, v)) }
}

/// No two entries share a key.
pub open spec fn keys_unique(es: Seq<EntryView>) -> bool {
    forall|a: int, b: int| 0 <= a < b < es.len() ==> es[a].0 != es[b].0
}

/// The set of keys of `es`.
pub open spec fn key_set(es: Seq<EntryView>) -> Set<Seq<char>> {
    Set::new(|k: Seq<char>| exists|i: int| 0 <= i < es.len() && #[trigger] es[i].0 == k)
}

proof fn lemma_key_index(es: Seq<EntryView>, k: Seq<char>)
    ensures
        -1 <= key_index(es, k) < es.len(),
        key_index(es, k) >= 0 ==> es[key_index(es, k)].0 == k,
        key_index(es, k) < 0 ==> forall|j: int| 0 <= j < es.len() ==> es[j].0 != k,
    decreases es.len(),
{
    if es.len() > 0 && es.last().0 != k {
        lemma_key_index(es.drop_last(), k);
        assert forall|j: int| 0 <= j < es.len() - 1 implies es[j] == es.drop_last()[j] by {}
    }
}

pub(crate) proof fn lemma_insert_keeps_unique(es: Seq<EntryView>, k: Seq<char>, v: Seq<char>)
    requires
        keys_unique(es),
    ensures
        keys_unique(insert_entry(es, k, v)),
        key_set(insert_entry(es, k, v)) == key_set(es).insert(k),
{
    lemma_key_index(es, k);
    let r = insert_entry(es, k, v);
    assert(key_set(r) =~= key_set(es).insert(k)) by {
        assert forall|x: Seq<char>| #[trigger] key_set(r).contains(x) <==> key_set(es).insert(k).contains(x) by {
            if key_set(es).insert(k).contains(x) {
                if x == k {
                    if key_index(es, k) >= 0 { assert(r[key_index(es, k)].0 == k); }
                    else { assert(r[es.len() as int].0 == k); }
                } else {
                    let j = choose|j: int| 0 <= j < es.len() && es[j].0 == x;
                    assert(r[j].0 == x);
                }
            }
            if key_set(r).contains(x) {
                let j = choose|j: int| 0 <= j < r.len() && r[j].0 == x;
                if j < es.len() && r[j] == es[j] { assert(key_set(es).contains(x)); }
            }
        }
    }
}

/// A mapping from original messages to translated ones, with unique keys,
/// kept in the order in which keys were first inserted.
#[derive(Debug, Clone)]
pub struct Translations {
    entries: Vec<(String, String)>,
}

impl View for Translations {
    type V = Seq<EntryView>;

    closed spec fn view(&self) -> Seq<EntryView> {
        self.entries@.map_values(|e: (String, String)| (e.0@, e.1@))
    }
}

impl Translations {
    /// The well-formedness of the mapping: keys are unique.
    pub open spec fn wf(&self) -> bool {
        keys_unique(self@)
    }

    /// An empty mapping.
    pub fn new() -> (r: Translations)
        ensures
            r@ == Seq::<EntryView>::empty(),
            r.wf(),
    {
        let r = Translations { entries: Vec::new() };
        assert(r@ =~= Seq::<EntryView>::empty());
        r
    }

    /// The number of entries.
    pub fn len(&self) -> (r: usize)
        ensures
            r == self@.len(),
    {
        self.entries.len()
    }

    /// Whether there are no entries.
    pub fn is_empty(&self) -> (r: bool)
        ensures
            r == (self@.len() == 0),
    {
        self.entries.len() == 0
    }

    /// The key and translation at position `i`.
    pub fn entry(&self, i: usize) -> (r: (&String, &String))
        requires
            i < self@.len(),
        ensures
            r.0@ == self@[i as int].0,
            r.1@ == self@[i as int].1,
    {
        let e = &self.entries[i];
        (&e.0, &e.1)
    }

    /// The position of the entry for `key`, if any.
    pub fn position(&self, key: &str) -> (r: Option<usize>)
        requires
            self.wf(),
        ensures
            r is Some <==> key_index(self@, key@) >= 0,
            r is Some ==> r->0 == key_index(self@, key@),
    {
        proof { lemma_key_index(self@, key@); }
        let k = String::from_str(key);
        let mut i: usize = 0;
        while i < self.entries.len()
            invariant
                i <= self@.len(),
                k@ == key@,
                self.wf(),
                forall|j: int| 0 <= j < i ==> self@[j].0 != key@,
            decreases self.entries.len() - i,
        {
            if self.entries[i].0 == k {
                proof {
                    assert(self@[i as int].0 == key@);
                    lemma_unique_index(self@, key@, i as int);
                }
                return Some(i);
            }
            i = i + 1;
        }
        None
    }

    /// The translation of `key`, if any.
    pub fn get(&self, key: &str) -> (r: Option<&String>)
        requires
            self.wf(),
        ensures
            r is Some == lookup(self@, key@) is Some,
            r is Some ==> r->0@ == lookup(self@, key@)->0,
    {
        proof { lemma_key_index(self@, key@); }
        match self.position(key) {
            Some(i) => Some(&self.entries[i].1),
            None => None,
        }
    }

    /// Maps `key` to `value`, overwriting the translation it had.
    pub fn insert(&mut self, key: String, value: String)
        requires
            old(self).wf(),
        ensures
            final(self)@ == insert_entry(old(self)@, key@, value@),
            final(self).wf(),
    {
        proof { lemma_insert_keeps_unique(self@, key@, value@); lemma_key_index(self@, key@); }
        let ghost k = key@;
        let ghost v = value@;
        match self.position(key.as_str()) {
            Some(i) => {
                self.entries.set(i, (key, value));
                assert(self@ =~= insert_entry(old(self)@, k, v));
            },
            None => {
                self.entries.push((key, value));
                assert(self@ =~= insert_entry(old(self)@, k, v));
            },
        }
    }
}

proof fn lemma_unique_index(es: Seq<EntryView>, k: Seq<char>, i: int)
    requires
        keys_unique(es),
        0 <= i < es.len(),
        es[i].0 == k,
    ensures
        key_index(es, k) == i,
{
    lemma_key_index(es, k);
}

/// The lines of `s` after `cur`, the part of the current line read so far:
/// lines end at each newline, and a last line is only counted if it is not empty.
pub open spec fn split_from(s: Seq<char>, cur: Seq<char>) -> Seq<Seq<char>>
    decreases s.len(),
{
    if s.len() == 0 {
        if cur.len() == 0 { seq![] } else { seq![cur] }
    } else if s[0] == '\n' {
        seq![cur] + split_from(s.drop_first(), seq![])
    } else {
        split_from(s.drop_first(), cur.push(s[0]))
    }
}

/// The lines of `s`.
pub open spec fn lines_of(s: Seq<char>) -> Seq<Seq<char>> {
    split_from(s, seq![])
}

/// The lines of `s`, each trimmed of white space at both ends.
pub open spec fn trimmed_lines(s: Seq<char>) -> Seq<Seq<char>> {
    lines_of(s).map_values(|l: Seq<char>| trim(l))
}

/// Whether `kw` occurs in `s` at position `i`.
pub open spec fn occurs_at(s: Seq<char>, i: int, kw: Seq<char>) -> bool {
    0 <= i && i + kw.len() <= s.len() && s.subrange(i, i + kw.len()) == kw
}

/// The first position at or after `from` where `kw` occurs in `s`, or -1.
pub open spec fn find_from(s: Seq<char>, kw: Seq<char>, from: int) -> int
    decreases s.len() - from,
{
    if from < 0 || from >= s.len() || from + kw.len() > s.len() {
        -1
    } else if occurs_at(s, from, kw) {
        from
    } else {
        find_from(s, kw, from + 1)
    }
}

/// What follows the first occurrence of `kw` in `s`, if it occurs.
pub open spec fn after_keyword(s: Seq<char>, kw: Seq<char>) -> Option<Seq<char>> {
    let i = find_from(s, kw, 0);
    if i < 0 { None } else { Some(s.subrange(i + kw.len(), s.len() as int)) }
}

/// Whether `s` starts with `kw`.
pub open spec fn starts_with(s: Seq<char>, kw: Seq<char>) -> bool {
    occurs_at(s, 0, kw)
}

pub open spec fn msgid_keyword() -> Seq<char> {
    seq!['m', 's', 'g', 'i', 'd']
}

pub open spec fn msgstr_keyword() -> Seq<char> {
    seq!['m', 's', 'g', 's', 't', 'r']
}

/// Where the parser stands between two lines.
pub enum Phase {
    /// Between entries.
    Idle,
    /// Inside the `msgid` block of an entry.
    InKey { key: Seq<char> },
    /// Inside the `msgstr` block of an entry.
    InValue { key: Seq<char>, value: Seq<char> },
}

/// The entries after a finished entry: kept only if both sides are non-empty.
pub open spec fn finish(es: Seq<EntryView>, key: Seq<char>, value: Seq<char>) -> Seq<EntryView> {
    if key.len() > 0 && value.len() > 0 { insert_entry(es, key, value) } else { es }
}

/// Why a catalog did not parse: the 1-based line, and what was wrong there.
pub type ParseFailure = (int, Seq<char>);

/// The reason given for a line that starts no entry.
pub open spec fn unexpected_input() -> Seq<char> {
    "unexpected input"@
}

/// The reason given for a line whose quoted string cannot be read.
pub open spec fn bad_string() -> Seq<char> {
    "could not parse a string"@
}

/// The reason given for a `msgid` block that no `msgstr` line follows.
pub open spec fn missing_msgstr() -> Seq<char> {
    "found 'msgid' without matching 'msgstr'"@
}

/// The message of a parse error in the catalog of `lang` at `line`.
pub open spec fn parse_error_text(lang: Seq<char>, line: nat, reason: Seq<char>) -> Seq<char> {
    "initializing lang '"@ + lang + "' at line "@ + decimal(line) + ", "@ + reason
}

/// The result of parsing the trimmed lines `ls` from line `i` on, in the
/// given phase and with entries `es` so far: the entries, or the 1-based
/// line at which parsing failed with the reason.
pub open spec fn parse_from(ls: Seq<Seq<char>>, i: int, phase: Phase, es: Seq<EntryView>)
    -> core::result::Result<Seq<EntryView>, ParseFailure>
    decreases ls.len() - i,
{
    if i < 0 {
        Err((0, unexpected_input()))
    } else if i >= ls.len() {
        match phase {
            Phase::Idle => Ok(es),
            Phase::InKey { .. } => Err((ls.len() as int, missing_msgstr())),
            Phase::InValue { key, value } => Ok(finish(es, key, value)),
        }
    } else {
        let line = ls[i];
        match phase {
            Phase::Idle => {
                if line.len() == 0 || line[0] == '#' {
                    parse_from(ls, i + 1, Phase::Idle, es)
                } else {
                    match after_keyword(line, msgid_keyword()) {
                        None => Err((i + 1, unexpected_input())),
                        Some(rest) => match literal_chars(rest) {
                            None => Err((i + 1, bad_string())),
                            Some(k) => parse_from(ls, i + 1, Phase::InKey { key: k }, es),
                        },
                    }
                }
            },
            Phase::InKey { key } => {
                if starts_with(line, msgstr_keyword()) {
                    match literal_chars(line.subrange(6, line.len() as int)) {
                        None => Err((i + 1, bad_string())),
                        Some(v) => parse_from(ls, i + 1, Phase::InValue { key, value: v }, es),
                    }
                } else if line.len() > 0 && line[0] == '"' {
                    match literal_chars(line) {
                        None => Err((i + 1, bad_string())),
                        Some(k) => parse_from(ls, i + 1, Phase::InKey { key: key + k }, es),
                    }
                } else {
                    Err((i, missing_msgstr()))
                }
            },
            Phase::InValue { key, value } => {
                if line.len() == 0 {
                    parse_from(ls, i + 1, Phase::Idle, finish(es, key, value))
                } else {
                    match literal_chars(line) {
                        None => Err((i + 1, bad_string())),
                        Some(v) => parse_from(ls, i + 1, Phase::InValue { key, value: value + v }, es),
                    }
                }
            },
        }
    }
}

/// The result of parsing a catalog text: its entries, or the 1-based line
/// at which it fails, with the reason.
pub open spec fn parse_catalog(s: Seq<char>) -> core::result::Result<Seq<EntryView>, ParseFailure> {
    parse_from(trimmed_lines(s), 0, Phase::Idle, seq![])
}

/// The trimmed lines of `s`.
fn split_trimmed_lines(s: &str) -> (r: Vec<Vec<char>>)
    ensures
        r@.len() == trimmed_lines(s@).len(),
        forall|k: int| 0 <= k < r@.len() ==> #[trigger] r@[k]@ == trimmed_lines(s@)[k],
{
    let cs = chars_of(s);
    let mut lines: Vec<Vec<char>> = Vec::new();
    let ghost raw: Seq<Seq<char>> = seq![];
    let mut cur: Vec<char> = Vec::new();
    let mut i: usize = 0;
    assert(cs@.subrange(0, cs@.len() as int) =~= cs@);
    while i < cs.len()
        invariant
            i <= cs@.len(),
            cs@ == s@,
            raw + split_from(cs@.subrange(i as int, cs@.len() as int), cur@) == lines_of(s@),
            lines@.len() == raw.len(),
            forall|k: int| 0 <= k < raw.len() ==> #[trigger] lines@[k]@ == trim(raw[k]),
        decreases cs.len() - i,
    {
        let ghost rest = cs@.subrange(i as int, cs@.len() as int);
        assert(rest.drop_first() =~= cs@.subrange(i + 1, cs@.len() as int));
        if cs[i] == '\n' {
            let t = trim_chars(cur.as_slice());
            proof {
                assert(raw + (seq![cur@] + split_from(rest.drop_first(), seq![])) =~= raw.push(cur@) + split_from(rest.drop_first(), seq![]));
                raw = raw.push(cur@);
            }
            lines.push(t);
            cur = Vec::new();
            assert(cur@ =~= Seq::<char>::empty());
        } else {
            cur.push(cs[i]);
        }
        i = i + 1;
    }
    assert(cs@.subrange(i as int, cs@.len() as int) =~= Seq::<char>::empty());
    if cur.len() > 0 {
        let t = trim_chars(cur.as_slice());
        proof {
            assert(raw + seq![cur@] =~= raw.push(cur@));
            raw = raw.push(cur@);
        }
        lines.push(t);
    } else {
        assert(raw + Seq::<Seq<char>>::empty() =~= raw);
    }
    lines
}

/// Whether `kw` occurs in `s` at position `at`.
fn occurs_at_exec(s: &[char], at: usize, kw: &[char]) -> (r: bool)
    ensures
        r == occurs_at(s@, at as int, kw@),
{
    if at > s.len() || kw.len() > s.len() - at {
        return false;
    }
    let mut k: usize = 0;
    let n = s.len();
    while k < kw.len()
        invariant
            n == s@.len(),
            at + kw@.len() <= s@.len(),
            k <= kw@.len(),
            forall|j: int| 0 <= j < k ==> s@[at + j] == kw@[j],
        decreases kw.len() - k,
    {
        assert(at + k < s@.len());
        if s[at + k] != kw[k] {
            assert(s@.subrange(at as int, at + kw@.len())[k as int] != kw@[k as int]);
            return false;
        }
        k = k + 1;
    }
    assert(s@.subrange(at as int, at + kw@.len()) =~= kw@);
    true
}

/// What follows the first occurrence of `kw` in `s`, if it occurs.
fn after_keyword_exec(s: &[char], kw: &[char]) -> (r: Option<Vec<char>>)
    ensures
        r is Some == after_keyword(s@, kw@) is Some,
        r is Some ==> r->0@ == after_keyword(s@, kw@)->0,
{
    let mut i: usize = 0;
    while i < s.len() && !occurs_at_exec(s, i, kw)
        invariant
            i <= s@.len(),
            find_from(s@, kw@, 0) == find_from(s@, kw@, i as int),
        decreases s.len() - i,
    {
        i = i + 1;
    }
    if i >= s.len() || !occurs_at_exec(s, i, kw) {
        assert(find_from(s@, kw@, i as int) == -1);
        return None;
    }
    let mut out: Vec<char> = Vec::new();
    let start: usize = i + kw.len();
    let mut j: usize = start;
    assert(out@ =~= s@.subrange(start as int, j as int));
    while j < s.len()
        invariant
            start <= j <= s@.len(),
            out@ == s@.subrange(start as int, j as int),
        decreases s.len() - j,
    {
        out.push(s[j]);
        assert(out@ =~= s@.subrange(start as int, j + 1));
        j = j + 1;
    }
    Some(out)
}

/// Struct used to store localization information for a language.
#[derive(Debug, Clone)]
pub struct Lang {
    /// The language code.
    pub lang: String,
    /// The translations.
    pub content: Translations,
}

impl Lang {
    /// Creates a new empty Lang with no content.
    pub fn new(lang: &str) -> (r: Lang)
        ensures
            r.lang@ == lang@,
            r.content@ == Seq::<EntryView>::empty(),
            r.content.wf(),
    {
        Lang { lang: String::from_str(lang), content: Translations::new() }
    }

    /// Inserts a (key, value) pair in the translations.
    pub fn insert(&mut self, key: String, value: String)
        requires
            old(self).content.wf(),
        ensures
            final(self).lang == old(self).lang,
            final(self).content@ == insert_entry(old(self).content@, key@, value@),
            final(self).content.wf(),
    {
        self.content.insert(key, value);
    }

    /// Creates a new Lang from the text of a catalog.
    ///
    /// The text loosely follows `.po` files: lines starting with `#` are
    /// comments, and an entry is of the form
    ///
    /// ```text
    /// msgid "Initial string"
    /// msgstr "Translated string"
    /// ```
    ///
    /// where either string may go on over the lines that follow, each a
    /// bare quoted string. Entries with an empty key or value are dropped.
    pub fn new_from_str(lang: &str, s: &str) -> (r: Result<Lang>)
        ensures
            parse_catalog(s@) is Ok ==> r is Ok && r->Ok_0.lang@ == lang@
                && r->Ok_0.content@ == parse_catalog(s@)->Ok_0 && r->Ok_0.content.wf(),
            parse_catalog(s@) is Err ==> r is Err && r->Err_0.variant == ErrorType::Parse
                && r->Err_0.line == Some(parse_catalog(s@)->Err_0.0 as usize)
                && r->Err_0.msg@ == parse_error_text(
                lang@,
                parse_catalog(s@)->Err_0.0 as nat,
                parse_catalog(s@)->Err_0.1,
            ),
    {
        let mut res = Lang::new(lang);
        let lines = split_trimmed_lines(s);
        let ghost ls = trimmed_lines(s@);
        let kw_id = chars_of("msgid");
        let kw_str = chars_of("msgstr");
        proof {
            reveal_strlit("msgid");
            reveal_strlit("msgstr");
            assert(kw_id@ =~= msgid_keyword());
            assert(kw_str@ =~= msgstr_keyword());
        }
        // 0: between entries; 1: in a msgid block; 2: in a msgstr block
        let mut stage: u8 = 0;
        let mut key: Vec<char> = Vec::new();
        let mut value: Vec<char> = Vec::new();
        let mut i: usize = 0;
        while i < lines.len()
            invariant
                i <= ls.len(),
                lines@.len() == ls.len(),
                forall|k: int| 0 <= k < lines@.len() ==> #[trigger] lines@[k]@ == ls[k],
                ls == trimmed_lines(s@),
                kw_id@ == msgid_keyword(),
                kw_str@ == msgstr_keyword(),
                stage <= 2,
                res.lang@ == lang@,
                res.content.wf(),
                parse_catalog(s@) == parse_from(ls, i as int, phase_of(stage, key@, value@), res.content@),
            decreases lines.len() - i,
        {
            let line = lines[i].as_slice();
            assert(line@ == ls[i as int]);
            if stage == 0 {
                if line.len() == 0 || line[0] == '#' {
                    i = i + 1;
                    continue;
                }
                match after_keyword_exec(line, kw_id.as_slice()) {
                    None => {
                        return Err(parse_error(lang, i + 1, "unexpected input"));
                    },
                    Some(rest) => match find_literal(rest.as_slice()) {
                        None => {
                            return Err(parse_error(lang, i + 1, "could not parse a string"));
                        },
                        Some(k) => {
                            key = k;
                            stage = 1;
                        },
                    },
                }
            } else if stage == 1 {
                if occurs_at_exec(line, 0, kw_str.as_slice()) {
                    match find_literal(&line[6..line.len()]) {
                        None => {
                            return Err(parse_error(lang, i + 1, "could not parse a string"));
                        },
                        Some(v) => {
                            value = v;
                            stage = 2;
                        },
                    }
                } else if line.len() > 0 && line[0] == '"' {
                    match find_literal(line) {
                        None => {
                            return Err(parse_error(lang, i + 1, "could not parse a string"));
                        },
                        Some(k) => {
                            push_all(&mut key, k.as_slice());
                        },
                    }
                } else {
                    return Err(parse_error(lang, i, "found 'msgid' without matching 'msgstr'"));
                }
            } else {
                if line.len() == 0 {
                    res.finish_entry(&key, &value);
                    stage = 0;
                } else {
                    match find_literal(line) {
                        None => {
                            return Err(parse_error(lang, i + 1, "could not parse a string"));
                        },
                        Some(v) => {
                            push_all(&mut value, v.as_slice());
                        },
                    }
                }
            }
            i = i + 1;
        }
        if stage == 1 {
            return Err(parse_error(lang, lines.len(), "found 'msgid' without matching 'msgstr'"));
        } else if stage == 2 {
            res.finish_entry(&key, &value);
        }
        Ok(res)
    }

    /// Inserts the entry (key, value) if neither side is empty.
    fn finish_entry(&mut self, key: &Vec<char>, value: &Vec<char>)
        requires
            old(self).content.wf(),
        ensures
            final(self).lang == old(self).lang,
            final(self).content@ == finish(old(self).content@, key@, value@),
            final(self).content.wf(),
    {
        if key.len() > 0 && value.len() > 0 {
            self.insert(string_of(key.as_slice()), string_of(value.as_slice()));
        }
    }
}

/// The phase that the parser's stage number and buffers stand for.
pub open spec fn phase_of(stage: u8, key: Seq<char>, value: Seq<char>) -> Phase {
    if stage == 0 {
        Phase::Idle
    } else if stage == 1 {
        Phase::InKey { key }
    } else {
        Phase::InValue { key, value }
    }
}

/// A parse error for the catalog of `lang`, found at the 1-based `line`.
fn parse_error(lang: &str, line: usize, reason: &str) -> (e: Error)
    ensures
        e.variant == ErrorType::Parse,
        e.line == Some(line),
        e.msg@ == parse_error_text(lang@, line as nat, reason@),
{
    let mut m: Vec<char> = Vec::new();
    push_str(&mut m, "initializing lang '");
    push_str(&mut m, lang);
    push_str(&mut m, "' at line ");
    push_decimal(&mut m, line);
    push_str(&mut m, ", ");
    push_str(&mut m, reason);
    assert(m@ =~= parse_error_text(lang@, line as nat, reason@));
    Error::parse_at(string_of(m.as_slice()), line)
}

/// The line `msgstr "x"`.
pub open spec fn stray_msgstr_line() -> Seq<char> {
    seq!['m', 's', 'g', 's', 't', 'r', ' ', '"', 'x', '"']
}

/// A catalog text whose first line is `msgstr "x"`, before any `msgid`,
/// fails to parse, at its first line.
pub proof fn lemma_msgstr_first_fails(rest: Seq<char>)
    ensures
        parse_catalog(stray_msgstr_line() + seq!['\n'] + rest) == core::result::Result::<
            Seq<EntryView>,
            ParseFailure,
        >::Err((1, unexpected_input())),
{
    let l = stray_msgstr_line();
    let s = l + seq!['\n'] + rest;
    assert(!l.contains('\n')) by {
        if l.contains('\n') {
            let k = choose|k: int| 0 <= k < l.len() && l[k] == '\n';
        }
    }
    lemma_split_line(l, rest, seq![]);
    assert(Seq::<char>::empty() + l =~= l);
    let ls = trimmed_lines(s);
    lemma_trim_keeps(l);
    assert(ls[0] == l);
    let kw = msgid_keyword();
    assert(!occurs_at(l, 0, kw)) by { assert(l.subrange(0, 5)[3] != kw[3]); }
    assert(!occurs_at(l, 1, kw)) by { assert(l.subrange(1, 6)[0] != kw[0]); }
    assert(!occurs_at(l, 2, kw)) by { assert(l.subrange(2, 7)[0] != kw[0]); }
    assert(!occurs_at(l, 3, kw)) by { assert(l.subrange(3, 8)[0] != kw[0]); }
    assert(!occurs_at(l, 4, kw)) by { assert(l.subrange(4, 9)[0] != kw[0]); }
    assert(!occurs_at(l, 5, kw)) by { assert(l.subrange(5, 10)[0] != kw[0]); }
    assert(find_from(l, kw, 6) == -1);
    assert(find_from(l, kw, 5) == -1);
    assert(find_from(l, kw, 4) == -1);
    assert(find_from(l, kw, 3) == -1);
    assert(find_from(l, kw, 2) == -1);
    assert(find_from(l, kw, 1) == -1);
    assert(find_from(l, kw, 0) == -1);
    assert(after_keyword(l, kw) is None);
}

} // verus!
