//! Merging catalogs into a dispatch table, and writing that table out as
//! the `lformat!` macro.

use vstd::prelude::*;
use crate::chars::{chars_of, push_str, string_of};
use crate::extractor::{Extractor, ExtractorView};
use crate::lang::{EntryView, Lang, lookup};
use crate::message::MessageView;

verus! {

/// Whether `s` from position `from` on holds a placeholder brace: scanning
/// left to right, a doubled `{{` or `}}` is an escaped brace and is passed
/// over as a pair; any other brace is a placeholder.
pub open spec fn has_args_from(s: Seq<char>, from: int) -> bool
    decreases s.len() - from,
{
    if from < 0 || from >= s.len() {
        false
    } else if s[from] == '{' || s[from] == '}' {
        if from + 1 < s.len() && s[from + 1] == s[from] {
            has_args_from(s, from + 2)
        } else {
            true
        }
    } else {
        has_args_from(s, from + 1)
    }
}

/// Whether a message takes arguments: it holds a brace that is not part of
/// a doubled `{{` or `}}` pair.
pub open spec fn has_args(s: Seq<char>) -> bool {
    has_args_from(s, 0)
}

/// Returns true if `s` contains arguments, false otherwise.
pub fn has_arguments(s: &str) -> (r: bool)
    ensures
        r == has_args(s@),
{
    let cs = chars_of(s);
    let mut i: usize = 0;
    while i < cs.len()
        invariant
            i <= cs@.len(),
            cs@ == s@,
            has_args(s@) == has_args_from(s@, i as int),
        decreases cs.len() - i,
    {
        let c = cs[i];
        if c == '{' || c == '}' {
            if i + 1 < cs.len() && cs[i + 1] == c {
                i = i + 2;
            } else {
                return true;
            }
        } else {
            i = i + 1;
        }
    }
    false
}

/// A language catalog: its tag and its entries.
pub type LangView = (Seq<char>, Seq<EntryView>);

/// A row of the dispatch table: the message, its (language, translation)
/// pairs, and whether it takes arguments.
pub type RowView = (Seq<char>, Seq<(Seq<char>, Seq<char>)>, bool);

/// What a dispatch table holds: its rows, and the aliases that send a
/// call-site text to the row of its canonical form.
pub struct TableView {
    pub rows: Seq<RowView>,
    pub aliases: Seq<EntryView>,
}

/// Whether no pair in `ps` is for language `tag`.
pub open spec fn tag_absent(ps: Seq<(Seq<char>, Seq<char>)>, tag: Seq<char>) -> bool {
    forall|i: int| 0 <= i < ps.len() ==> #[trigger] ps[i].0 != tag
}

/// The (language, translation) pairs of message `key`: one per catalog
/// that translates it, in the order the catalogs were added, and only the
/// first for a language tag that comes twice.
pub open spec fn row_pairs(langs: Seq<LangView>, key: Seq<char>) -> Seq<(Seq<char>, Seq<char>)>
    decreases langs.len(),
{
    if langs.len() == 0 {
        seq![]
    } else {
        let prev = row_pairs(langs.drop_last(), key);
        let l = langs.last();
        if lookup(l.1, key) is Some && tag_absent(prev, l.0) {
            prev.push((l.0, lookup(l.1, key)->0))
        } else {
            prev
        }
    }
}

/// The keys of the catalogs, catalog after catalog.
pub open spec fn catalog_keys(langs: Seq<LangView>) -> Seq<Seq<char>>
    decreases langs.len(),
{
    if langs.len() == 0 {
        seq![]
    } else {
        catalog_keys(langs.drop_last()) + langs.last().1.map_values(|e: EntryView| e.0)
    }
}

/// `s` with each element after its first occurrence removed.
pub open spec fn dedup(s: Seq<Seq<char>>) -> Seq<Seq<char>>
    decreases s.len(),
{
    if s.len() == 0 {
        seq![]
    } else if dedup(s.drop_last()).contains(s.last()) {
        dedup(s.drop_last())
    } else {
        dedup(s.drop_last()).push(s.last())
    }
}

/// The messages of the dispatch table: the extracted ones first, then the
/// keys of the catalogs, each once.
pub open spec fn table_messages(ms: Seq<MessageView>, langs: Seq<LangView>) -> Seq<Seq<char>> {
    dedup(ms.map_values(|m: MessageView| m.1) + catalog_keys(langs))
}

/// The dispatch table that merging the catalogs `langs` with the extracted
/// messages `ext` gives.
pub open spec fn dispatch(ext: ExtractorView, langs: Seq<LangView>) -> TableView {
    TableView {
        rows: table_messages(ext.messages, langs).map_values(
            |m: Seq<char>| (m, row_pairs(langs, m), has_args(m)),
        ),
        aliases: ext.originals,
    }
}

/// The catalogs `langs`, as tags and entries.
pub open spec fn langs_view(langs: Seq<Lang>) -> Seq<LangView> {
    langs.map_values(|l: Lang| (l.lang@, l.content@))
}

/// Every catalog has unique keys.
pub open spec fn langs_wf(langs: Seq<Lang>) -> bool {
    forall|i: int| 0 <= i < langs.len() ==> (#[trigger] langs[i]).content.wf()
}

/// A row of the dispatch table.
pub struct DispatchRow {
    /// The message, in canonical form.
    pub msg: String,
    /// Its translations, as (language tag, translated text).
    pub translations: Vec<(String, String)>,
    /// Whether the message takes arguments.
    pub has_args: bool,
}

impl View for DispatchRow {
    type V = RowView;

    open spec fn view(&self) -> RowView {
        (
            self.msg@,
            self.translations@.map_values(|p: (String, String)| (p.0@, p.1@)),
            self.has_args,
        )
    }
}

/// The merged catalogs: for each message, its translations; and the aliases
/// from call-site texts to canonical messages.
pub struct DispatchTable {
    pub rows: Vec<DispatchRow>,
    pub aliases: Vec<(String, String)>,
}

impl View for DispatchTable {
    type V = TableView;

    open spec fn view(&self) -> TableView {
        TableView {
            rows: self.rows@.map_values(|r: DispatchRow| r@),
            aliases: self.aliases@.map_values(|p: (String, String)| (p.0@, p.1@)),
        }
    }
}

/// Whether `v` holds `s`.
fn contains_string(v: &Vec<String>, s: &String) -> (r: bool)
    ensures
        r == v@.map_values(|x: String| x@).contains(s@),
{
    let ghost vv = v@.map_values(|x: String| x@);
    let mut i: usize = 0;
    while i < v.len()
        invariant
            i <= v@.len(),
            vv == v@.map_values(|x: String| x@),
            forall|j: int| 0 <= j < i ==> vv[j] != s@,
        decreases v.len() - i,
    {
        if v[i] == *s {
            assert(vv[i as int] == s@);
            return true;
        }
        i = i + 1;
    }
    false
}

/// Adds `s` to `v` unless it is there already.
fn push_new(v: &mut Vec<String>, s: String, Ghost(seen): Ghost<Seq<Seq<char>>>)
    requires
        old(v)@.map_values(|x: String| x@) == dedup(seen),
    ensures
        final(v)@.map_values(|x: String| x@) == dedup(seen.push(s@)),
{
    assert(seen.push(s@).drop_last() =~= seen);
    if !contains_string(v, &s) {
        let ghost sv = s@;
        v.push(s);
        assert(v@.map_values(|x: String| x@) =~= dedup(seen).push(sv));
    }
}

/// The messages of the table, each once.
fn collect_messages(langs: &[Lang], extractor: &Extractor) -> (r: Vec<String>)
    ensures
        r@.map_values(|x: String| x@) == table_messages(extractor@.messages, langs_view(langs@)),
{
    let ghost lv = langs_view(langs@);
    let ms = extractor.messages();
    let ghost mv = extractor@.messages;
    let mut out: Vec<String> = Vec::new();
    let ghost seen: Seq<Seq<char>> = seq![];
    assert(out@.map_values(|x: String| x@) =~= dedup(seen));
    let mut i: usize = 0;
    while i < ms.len()
        invariant
            i <= ms@.len(),
            ms@.map_values(|m: crate::message::Message| m@) == mv,
            seen == mv.take(i as int).map_values(|m: MessageView| m.1),
            out@.map_values(|x: String| x@) == dedup(seen),
        decreases ms.len() - i,
    {
        let s = ms[i].msg.clone();
        assert(mv[i as int].1 == s@);
        push_new(&mut out, s, Ghost(seen));
        proof {
            assert(mv.take(i + 1).map_values(|m: MessageView| m.1) =~= seen.push(s@));
            seen = seen.push(s@);
        }
        i = i + 1;
    }
    assert(mv.take(i as int) =~= mv);
    let mut l: usize = 0;
    while l < langs.len()
        invariant
            l <= langs@.len(),
            lv == langs_view(langs@),
            seen == mv.map_values(|m: MessageView| m.1) + catalog_keys(lv.take(l as int)),
            out@.map_values(|x: String| x@) == dedup(seen),
        decreases langs.len() - l,
    {
        let content = &langs[l].content;
        let ghost before = seen;
        let mut e: usize = 0;
        while e < content.len()
            invariant
                e <= content@.len(),
                content@ == lv[l as int].1,
                seen == before + content@.take(e as int).map_values(|x: EntryView| x.0),
                out@.map_values(|x: String| x@) == dedup(seen),
            decreases content@.len() - e,
        {
            let (k, _) = content.entry(e);
            let s = k.clone();
            push_new(&mut out, s, Ghost(seen));
            proof {
                assert(content@.take(e + 1).map_values(|x: EntryView| x.0) =~= content@.take(e as int).map_values(|x: EntryView| x.0).push(s@));
                assert(before + content@.take(e + 1).map_values(|x: EntryView| x.0) =~= seen.push(s@));
                seen = seen.push(s@);
            }
            e = e + 1;
        }
        proof {
            assert(content@.take(e as int) =~= content@);
            assert(lv.take(l + 1).drop_last() =~= lv.take(l as int));
            assert(seen =~= mv.map_values(|m: MessageView| m.1) + catalog_keys(lv.take(l + 1)));
        }
        l = l + 1;
    }
    assert(lv.take(l as int) =~= lv);
    out
}

/// Whether some pair of `ps` is for language `tag`.
fn has_tag(ps: &Vec<(String, String)>, tag: &String) -> (r: bool)
    ensures
        r == !tag_absent(ps@.map_values(|p: (String, String)| (p.0@, p.1@)), tag@),
{
    let ghost pv = ps@.map_values(|p: (String, String)| (p.0@, p.1@));
    let mut i: usize = 0;
    while i < ps.len()
        invariant
            i <= ps@.len(),
            pv == ps@.map_values(|p: (String, String)| (p.0@, p.1@)),
            forall|j: int| 0 <= j < i ==> pv[j].0 != tag@,
        decreases ps.len() - i,
    {
        if ps[i].0 == *tag {
            assert(pv[i as int].0 == tag@);
            return true;
        }
        i = i + 1;
    }
    false
}

/// The translations of `msg` in the catalogs, first tag first.
fn pairs_for(langs: &[Lang], msg: &String) -> (r: Vec<(String, String)>)
    requires
        langs_wf(langs@),
    ensures
        r@.map_values(|p: (String, String)| (p.0@, p.1@)) == row_pairs(langs_view(langs@), msg@),
{
    let ghost lv = langs_view(langs@);
    let mut out: Vec<(String, String)> = Vec::new();
    let mut l: usize = 0;
    assert(out@.map_values(|p: (String, String)| (p.0@, p.1@)) =~= row_pairs(lv.take(0), msg@));
    while l < langs.len()
        invariant
            l <= langs@.len(),
            lv == langs_view(langs@),
            langs_wf(langs@),
            out@.map_values(|p: (String, String)| (p.0@, p.1@)) == row_pairs(lv.take(l as int), msg@),
        decreases langs.len() - l,
    {
        let lang = &langs[l];
        assert(lang.content.wf());
        proof {
            assert(lv.take(l + 1).drop_last() =~= lv.take(l as int));
            assert(lv.take(l + 1).last() == lv[l as int]);
        }
        match lang.content.get(msg.as_str()) {
            Some(v) => {
                if !has_tag(&out, &lang.lang) {
                    let ghost before = out@.map_values(|p: (String, String)| (p.0@, p.1@));
                    out.push((lang.lang.clone(), v.clone()));
                    assert(out@.map_values(|p: (String, String)| (p.0@, p.1@)) =~= before.push((lang.lang@, v@)));
                }
            },
            None => {},
        }
        l = l + 1;
    }
    assert(lv.take(l as int) =~= lv);
    out
}

/// Merges the catalogs `langs` with the messages of `extractor` into a
/// dispatch table.
///
/// Each message gets one row: the extracted messages first, in the order in
/// which they were found, then the keys of the catalogs that are not among
/// them. A row lists, for each catalog that translates the message and in
/// the order the catalogs come, its (language, translation) pair; where a
/// language tag comes twice, only its first translation is kept. The
/// catalogs themselves are left as they are.
pub fn build_table(langs: &[Lang], extractor: &Extractor) -> (r: DispatchTable)
    requires
        langs_wf(langs@),
        extractor.wf(),
    ensures
        r@ == dispatch(extractor@, langs_view(langs@)),
{
    let msgs = collect_messages(langs, extractor);
    let ghost mv = table_messages(extractor@.messages, langs_view(langs@));
    let mut rows: Vec<DispatchRow> = Vec::new();
    let mut i: usize = 0;
    while i < msgs.len()
        invariant
            i <= msgs@.len(),
            langs_wf(langs@),
            msgs@.map_values(|x: String| x@) == mv,
            rows@.map_values(|r: DispatchRow| r@) == mv.take(i as int).map_values(
                |m: Seq<char>| (m, row_pairs(langs_view(langs@), m), has_args(m)),
            ),
        decreases msgs.len() - i,
    {
        let m = &msgs[i];
        assert(mv[i as int] == m@);
        let translations = pairs_for(langs, m);
        let takes_args = has_arguments(m.as_str());
        let row = DispatchRow { msg: m.clone(), translations, has_args: takes_args };
        let ghost before = rows@.map_values(|r: DispatchRow| r@);
        assert(row@ == (mv[i as int], row_pairs(langs_view(langs@), mv[i as int]), has_args(mv[i as int])));
        rows.push(row);
        assert(rows@.map_values(|r: DispatchRow| r@) =~= before.push(row@));
        assert(mv.take(i + 1).map_values(
            |m: Seq<char>| (m, row_pairs(langs_view(langs@), m), has_args(m)),
        ) =~= mv.take(i as int).map_values(
            |m: Seq<char>| (m, row_pairs(langs_view(langs@), m), has_args(m)),
        ).push(row@));
        i = i + 1;
    }
    assert(mv.take(i as int) =~= mv);
    let originals = extractor.original_strings();
    let mut aliases: Vec<(String, String)> = Vec::new();
    let mut k: usize = 0;
    while k < originals.len()
        invariant
            k <= originals@.len(),
            originals@ == extractor@.originals,
            aliases@.map_values(|p: (String, String)| (p.0@, p.1@)) == originals@.take(k as int),
        decreases originals@.len() - k,
    {
        let (a, b) = originals.entry(k);
        let ghost before = aliases@.map_values(|p: (String, String)| (p.0@, p.1@));
        let pair = (a.clone(), b.clone());
        aliases.push(pair);
        assert(aliases@.map_values(|p: (String, String)| (p.0@, p.1@)) =~= before.push((a@, b@)));
        assert(originals@.take(k + 1) =~= originals@.take(k as int).push(originals@[k as int]));
        assert(aliases@.map_values(|p: (String, String)| (p.0@, p.1@)) =~= originals@.take(k + 1));
        k = k + 1;
    }
    assert(originals@.take(k as int) =~= originals@);
    DispatchTable { rows, aliases }
}

pub const ARM_OPEN: &'static str = "            \"";
pub const ARM_MID: &'static str = "\" => format!(\"";
pub const DEFAULT_OPEN: &'static str = "            _ => format!(\"";
pub const CLOSE_ARGS: &'static str = "\", $($arg)*),\n";
pub const CLOSE_NOARGS: &'static str = "\"),\n";
pub const ROW_OPEN: &'static str = "    (\"";
pub const ROW_KEY_ARGS: &'static str = "\", $($arg:tt)*) => ({\n";
pub const ROW_KEY_NOARGS: &'static str = "\") => ({\n";
pub const ROW_MATCH: &'static str = "        let __guard = $crate::__get_lang();\n        match __guard.as_str() {\n";
pub const ROW_CLOSE: &'static str = "        }\n    });\n";
pub const ALIAS_ARGS: &'static str = "\", $($arg:tt)*) => (lformat!(\"";
pub const ALIAS_NOARGS: &'static str = "\") => (lformat!(\"";
pub const ALIAS_CLOSE_ARGS: &'static str = "\", $($arg)*));\n";
pub const ALIAS_CLOSE_NOARGS: &'static str = "\"));\n";
pub const LFORMAT_HEAD: &'static str = "/// Localized format macro (or `lformat!` in short)\n///\n/// Should be similar to `format!`, except strings are localized.\n/// Generated automatically, you should not edit it.\n#[macro_export] macro_rules! lformat {\n";
pub const LFORMAT_TAIL: &'static str = "    ($($arg:tt)*) => (format!($($arg)*));\n}";

/// The end of a `format!` call, with or without the arguments.
pub open spec fn close_text(args: bool) -> Seq<char> {
    if args { CLOSE_ARGS@ } else { CLOSE_NOARGS@ }
}

/// The match arm of one translation.
pub open spec fn arm_text(lang: Seq<char>, value: Seq<char>, args: bool) -> Seq<char> {
    ARM_OPEN@ + lang + ARM_MID@ + value + close_text(args)
}

/// The match arms of the translations `ps`.
pub open spec fn arms_text(ps: Seq<(Seq<char>, Seq<char>)>, args: bool) -> Seq<char>
    decreases ps.len(),
{
    if ps.len() == 0 {
        seq![]
    } else {
        arms_text(ps.drop_last(), args) + arm_text(ps.last().0, ps.last().1, args)
    }
}

/// The macro rule of one row of the table.
pub open spec fn row_text(r: RowView) -> Seq<char> {
    ROW_OPEN@ + r.0 + (if r.2 { ROW_KEY_ARGS@ } else { ROW_KEY_NOARGS@ }) + ROW_MATCH@
        + arms_text(r.1, r.2) + DEFAULT_OPEN@ + r.0 + close_text(r.2) + ROW_CLOSE@
}

/// The macro rules of the rows whose messages take arguments (or not, as
/// `args` says).
pub open spec fn rows_text(rs: Seq<RowView>, args: bool) -> Seq<char>
    decreases rs.len(),
{
    if rs.len() == 0 {
        seq![]
    } else {
        rows_text(rs.drop_last(), args) + if rs.last().2 == args { row_text(rs.last()) } else { seq![] }
    }
}

/// The macro rule that sends a call-site text to its canonical form.
pub open spec fn alias_text(orig: Seq<char>, canon: Seq<char>, args: bool) -> Seq<char> {
    ROW_OPEN@ + orig + (if args { ALIAS_ARGS@ } else { ALIAS_NOARGS@ }) + canon + (if args {
        ALIAS_CLOSE_ARGS@
    } else {
        ALIAS_CLOSE_NOARGS@
    })
}

/// The alias rules of the call-site texts that take arguments (or not, as
/// `args` says).
pub open spec fn aliases_text(al: Seq<EntryView>, args: bool) -> Seq<char>
    decreases al.len(),
{
    if al.len() == 0 {
        seq![]
    } else {
        aliases_text(al.drop_last(), args) + if has_args(al.last().0) == args {
            alias_text(al.last().0, al.last().1, args)
        } else {
            seq![]
        }
    }
}

/// The text of the `lformat!` macro for a dispatch table: the rules that
/// take arguments, then those that do not, then a plain `format!` for any
/// other message.
pub open spec fn lformat_text(t: TableView) -> Seq<char> {
    LFORMAT_HEAD@ + rows_text(t.rows, true) + aliases_text(t.aliases, true) + rows_text(t.rows, false)
        + aliases_text(t.aliases, false) + LFORMAT_TAIL@
}

fn push_close(out: &mut Vec<char>, args: bool)
    ensures
        final(out)@ == old(out)@ + close_text(args),
{
    if args { push_str(out, CLOSE_ARGS); } else { push_str(out, CLOSE_NOARGS); }
}

fn push_row(out: &mut Vec<char>, row: &DispatchRow)
    ensures
        final(out)@ == old(out)@ + row_text(row@),
{
    let ghost start = out@;
    push_str(out, ROW_OPEN);
    push_str(out, row.msg.as_str());
    if row.has_args { push_str(out, ROW_KEY_ARGS); } else { push_str(out, ROW_KEY_NOARGS); }
    push_str(out, ROW_MATCH);
    let ghost before_arms = out@;
    let ghost ps = row@.1;
    let mut i: usize = 0;
    while i < row.translations.len()
        invariant
            i <= ps.len(),
            ps == row.translations@.map_values(|p: (String, String)| (p.0@, p.1@)),
            out@ == before_arms + arms_text(ps.take(i as int), row.has_args),
        decreases row.translations.len() - i,
    {
        let ghost o = out@;
        push_str(out, ARM_OPEN);
        push_str(out, row.translations[i].0.as_str());
        push_str(out, ARM_MID);
        push_str(out, row.translations[i].1.as_str());
        push_close(out, row.has_args);
        proof {
            assert(ps.take(i + 1).drop_last() =~= ps.take(i as int));
            assert(ps[i as int] == (row.translations@[i as int].0@, row.translations@[i as int].1@));
            assert(out@ =~= o + arm_text(ps[i as int].0, ps[i as int].1, row.has_args));
        }
        i = i + 1;
    }
    assert(ps.take(i as int) =~= ps);
    push_str(out, DEFAULT_OPEN);
    push_str(out, row.msg.as_str());
    push_close(out, row.has_args);
    push_str(out, ROW_CLOSE);
    assert(out@ =~= start + row_text(row@));
}

fn push_alias(out: &mut Vec<char>, orig: &String, canon: &String, args: bool)
    ensures
        final(out)@ == old(out)@ + alias_text(orig@, canon@, args),
{
    let ghost start = out@;
    push_str(out, ROW_OPEN);
    push_str(out, orig.as_str());
    if args { push_str(out, ALIAS_ARGS); } else { push_str(out, ALIAS_NOARGS); }
    push_str(out, canon.as_str());
    if args { push_str(out, ALIAS_CLOSE_ARGS); } else { push_str(out, ALIAS_CLOSE_NOARGS); }
    assert(out@ =~= start + alias_text(orig@, canon@, args));
}

fn push_variant(out: &mut Vec<char>, t: &DispatchTable, args: bool)
    ensures
        final(out)@ == old(out)@ + rows_text(t@.rows, args) + aliases_text(t@.aliases, args),
{
    let ghost start = out@;
    let ghost rs = t@.rows;
    let ghost al = t@.aliases;
    let mut i: usize = 0;
    assert(rs.take(0) =~= Seq::<RowView>::empty());
    assert(start + rows_text(rs.take(0), args) =~= start);
    while i < t.rows.len()
        invariant
            i <= rs.len(),
            rs == t.rows@.map_values(|r: DispatchRow| r@),
            out@ == start + rows_text(rs.take(i as int), args),
        decreases t.rows.len() - i,
    {
        let ghost o = out@;
        assert(rs.take(i + 1).drop_last() =~= rs.take(i as int));
        assert(rs[i as int] == t.rows@[i as int]@);
        if t.rows[i].has_args == args {
            push_row(out, &t.rows[i]);
            assert(out@ =~= start + rows_text(rs.take(i + 1), args));
        } else {
            assert(out@ =~= start + rows_text(rs.take(i + 1), args));
        }
        i = i + 1;
    }
    assert(rs.take(i as int) =~= rs);
    let ghost mid = out@;
    let mut k: usize = 0;
    assert(al.take(0) =~= Seq::<EntryView>::empty());
    assert(mid + aliases_text(al.take(0), args) =~= mid);
    while k < t.aliases.len()
        invariant
            k <= al.len(),
            al == t.aliases@.map_values(|p: (String, String)| (p.0@, p.1@)),
            out@ == mid + aliases_text(al.take(k as int), args),
        decreases t.aliases.len() - k,
    {
        assert(al.take(k + 1).drop_last() =~= al.take(k as int));
        assert(al[k as int] == (t.aliases@[k as int].0@, t.aliases@[k as int].1@));
        let orig = &t.aliases[k].0;
        if has_arguments(orig.as_str()) == args {
            push_alias(out, orig, &t.aliases[k].1, args);
            assert(out@ =~= mid + aliases_text(al.take(k + 1), args));
        } else {
            assert(out@ =~= mid + aliases_text(al.take(k + 1), args));
        }
        k = k + 1;
    }
    assert(al.take(k as int) =~= al);
}

/// The text of the `lformat!` macro for a dispatch table.
pub fn lformat_of_table(t: &DispatchTable) -> (r: String)
    ensures
        r@ == lformat_text(t@),
{
    let mut out: Vec<char> = Vec::new();
    push_str(&mut out, LFORMAT_HEAD);
    push_variant(&mut out, t, true);
    push_variant(&mut out, t, false);
    push_str(&mut out, LFORMAT_TAIL);
    assert(out@ =~= lformat_text(t@));
    string_of(out.as_slice())
}

/// Generates the `lformat!` macro from the catalogs and the extracted
/// messages.
pub fn generate_lformat(langs: &[Lang], extractor: &Extractor) -> (r: String)
    requires
        langs_wf(langs@),
        extractor.wf(),
    ensures
        r@ == lformat_text(dispatch(extractor@, langs_view(langs@))),
{
    let t = build_table(langs, extractor);
    lformat_of_table(&t)
}

/// The runtime file that the generated macro file starts with: the current
/// language, how to set and read it, and the `lformat!` entry macro.
pub const RUNTIME_PRELUDE: &'static str = "//! This file was generated automatically by crowbook-localize.\n//! It is probably not a good idea to edit it manually.\n//!\n//! # Usage:\n//!\n//! ```rust, no_run\n//! #[macro_use] mod localize_macros;\n//! use localize_macros::set_lang;\n//! set_lang(\"en\");\n//! lformat!(\"Hello, {}\", name);\n//! set_lang(\"fr\");\n//! lformat!(\"Hello, {}\", name);\n//! ```\n\nuse std::sync::RwLock;\nuse std::sync::RwLockReadGuard;\n\nlazy_static! {\n    pub static ref LANG: RwLock<String> = RwLock::new(String::from(\"en\"));\n}\n\n/// Sets the lang\npub fn set_lang<S>(lang: S)\n    where S: Into<String> {\n    *LANG.write().unwrap() = lang.into();\n}\n\n/// Get the lang (or a guard on it)\n///\n/// This function should not be used directly\n#[doc(hidden)]\npub fn __get_lang() -> RwLockReadGuard<'static, String> {\n    LANG.read().unwrap()\n}\n\n/// Localized format macro (or `lformat!` in short)\n/// Should be similar to `format!`, except strings are localized\n#[macro_export] macro_rules! lformat {\n    ($msg:expr) => ({\n        let __guard = $crate::localize_macros::__get_lang();\n        let __lang: &str = __guard.as_str();\n        localize!(__lang, $msg)\n    });\n    ($msg:expr, $($arg:tt)*) => ({\n        let __guard = $crate::localize_macros::__get_lang();\n        let __lang: &str = __guard.as_str();\n        localize!(__lang, $msg, $($arg)*)\n    });\n}\n";

/// Generates the file holding the localization macros: the runtime
/// prelude, then the `lformat!` macro.
pub fn generate_macro_file(langs: &[Lang], extractor: &Extractor) -> (r: String)
    requires
        langs_wf(langs@),
        extractor.wf(),
    ensures
        r@ == RUNTIME_PRELUDE@ + lformat_text(dispatch(extractor@, langs_view(langs@))),
{
    let mut out: Vec<char> = Vec::new();
    push_str(&mut out, RUNTIME_PRELUDE);
    let l = generate_lformat(langs, extractor);
    push_str(&mut out, l.as_str());
    string_of(out.as_slice())
}

} // verus!
