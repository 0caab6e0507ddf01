//! Why a filled-in catalog template reads back as a catalog of the same
//! messages: the template is made of whole lines, which the parser takes
//! one entry at a time.

use vstd::prelude::*;
use crate::chars::{decimal, is_white_space, trim, trim_end, trim_start};
use crate::common::{canonical, lemma_literal_between, literal_chars, scannable};
use crate::lang::{
    EntryView, ParseFailure, Phase, after_keyword, find_from, parse_catalog, finish, insert_entry, key_set, keys_unique,
    lemma_insert_keeps_unique, lines_of, msgid_keyword, msgstr_keyword, occurs_at, parse_from,
    split_from, starts_with, trimmed_lines,
};
use crate::message::{MessageView, SourceView, entry_text_with, sources_text};
use crate::extractor::{POT_HEADER, pot_body_with};

verus! {

/// The text made of the lines `ls`, each ended by a newline.
pub open spec fn joined(ls: Seq<Seq<char>>) -> Seq<char>
    decreases ls.len(),
{
    if ls.len() == 0 {
        seq![]
    } else {
        ls[0] + seq!['\n'] + joined(ls.drop_first())
    }
}

/// Whether no line of `ls` holds a newline.
pub open spec fn single_lines(ls: Seq<Seq<char>>) -> bool {
    forall|i: int| 0 <= i < ls.len() ==> !(#[trigger] ls[i]).contains('\n')
}

pub(crate) proof fn lemma_split_line(x: Seq<char>, rest: Seq<char>, cur: Seq<char>)
    requires
        !x.contains('\n'),
    ensures
        split_from(x + seq!['\n'] + rest, cur) == seq![cur + x] + split_from(rest, seq![]),
    decreases x.len(),
{
    let s = x + seq!['\n'] + rest;
    if x.len() == 0 {
        assert(s.drop_first() =~= rest);
        assert(cur + x =~= cur);
    } else {
        assert(s[0] == x[0]);
        assert(x[0] != '\n');
        let t = x.drop_first();
        assert(!t.contains('\n')) by {
            if t.contains('\n') {
                let k = choose|k: int| 0 <= k < t.len() && t[k] == '\n';
                assert(x[k + 1] == '\n');
            }
        }
        assert(s.drop_first() =~= t + seq!['\n'] + rest);
        lemma_split_line(t, rest, cur.push(x[0]));
        assert(cur.push(x[0]) + t =~= cur + x);
    }
}

/// The lines of a text made of single lines are those lines.
pub proof fn lemma_lines_of_joined(ls: Seq<Seq<char>>)
    requires
        single_lines(ls),
    ensures
        lines_of(joined(ls)) == ls,
    decreases ls.len(),
{
    if ls.len() > 0 {
        let rest = ls.drop_first();
        assert(single_lines(rest)) by {
            assert forall|i: int| 0 <= i < rest.len() implies !(#[trigger] rest[i]).contains('\n') by {
                assert(rest[i] == ls[i + 1]);
            }
        }
        assert(!ls[0].contains('\n'));
        lemma_lines_of_joined(rest);
        lemma_split_line(ls[0], joined(rest), seq![]);
        assert(Seq::<char>::empty() + ls[0] =~= ls[0]);
        assert(seq![ls[0]] + rest =~= ls);
    } else {
        assert(joined(ls) =~= Seq::<char>::empty());
    }
}

/// Joining two runs of lines is joining each and putting them together.
pub proof fn lemma_joined_concat(a: Seq<Seq<char>>, b: Seq<Seq<char>>)
    ensures
        joined(a + b) == joined(a) + joined(b),
    decreases a.len(),
{
    if a.len() == 0 {
        assert(a + b =~= b);
        assert(joined(a) + joined(b) =~= joined(b));
    } else {
        assert((a + b).drop_first() =~= a.drop_first() + b);
        assert((a + b)[0] == a[0]);
        lemma_joined_concat(a.drop_first(), b);
        assert(joined(a + b) =~= joined(a) + joined(b));
    }
}

/// A line that starts and ends with no white space is its own trim.
pub(crate) proof fn lemma_trim_keeps(l: Seq<char>)
    requires
        l.len() > 0 ==> !is_white_space(l[0]) && !is_white_space(l.last()),
    ensures
        trim(l) == l,
{
    assert(trim_start(l) == l);
    assert(trim_end(l) == l);
}

/// The lines of the block of message `m` with translation `value`.
pub open spec fn entry_lines(m: MessageView, value: Seq<char>) -> Seq<Seq<char>> {
    seq![
        seq!['#', ':'] + sources_text(m.0),
        seq!['m', 's', 'g', 'i', 'd', ' ', '"'] + canonical(m.1) + seq!['"'],
        msgstr_line(value),
        seq![],
    ]
}

/// The line `msgstr "value"`.
pub open spec fn msgstr_line(value: Seq<char>) -> Seq<char> {
    seq!['m', 's', 'g', 's', 't', 'r', ' ', '"'] + value + seq!['"']
}

/// The lines of the blocks of the messages `ms`, in order.
pub open spec fn entries_lines(ms: Seq<MessageView>, value: Seq<char>) -> Seq<Seq<char>>
    decreases ms.len(),
{
    if ms.len() == 0 {
        seq![]
    } else {
        entries_lines(ms.drop_last(), value) + entry_lines(ms.last(), value)
    }
}

/// A block is its lines, joined.
pub proof fn lemma_entry_joined(m: MessageView, value: Seq<char>)
    ensures
        entry_text_with(m, value) == joined(entry_lines(m, value)),
{
    let ls = entry_lines(m, value);
    let t1 = ls.drop_first();
    let t2 = t1.drop_first();
    let t3 = t2.drop_first();
    let t4 = t3.drop_first();
    assert(t4.len() == 0);
    assert(joined(t4) == Seq::<char>::empty());
    assert(t3[0] == Seq::<char>::empty());
    assert(joined(t3) =~= seq!['\n']);
    assert(joined(t2) == t2[0] + seq!['\n'] + joined(t3));
    assert(joined(t1) == t1[0] + seq!['\n'] + joined(t2));
    assert(joined(ls) == ls[0] + seq!['\n'] + joined(t1));
    assert(t1[0] == ls[1] && t2[0] == ls[2]);
    assert(entry_text_with(m, value) =~= joined(ls));
}

proof fn lemma_decimal_digits(n: nat)
    ensures
        forall|k: int| 0 <= k < decimal(n).len() ==> '0' <= #[trigger] decimal(n)[k] <= '9',
        decimal(n).len() > 0,
    decreases n,
{
    if n >= 10 {
        lemma_decimal_digits(n / 10);
    }
}

/// Whether no source of `cs` names a file with a newline.
pub open spec fn files_single_line(cs: Seq<SourceView>) -> bool {
    forall|i: int| 0 <= i < cs.len() ==> !(#[trigger] cs[i]).0.contains('\n')
}

proof fn lemma_sources_line(cs: Seq<SourceView>)
    requires
        files_single_line(cs),
    ensures
        !sources_text(cs).contains('\n'),
        sources_text(cs).len() > 0 ==> '0' <= sources_text(cs).last() <= '9',
    decreases cs.len(),
{
    if cs.len() > 0 {
        let d = cs.drop_last();
        assert(files_single_line(d)) by {
            assert forall|i: int| 0 <= i < d.len() implies !(#[trigger] d[i]).0.contains('\n') by {
                assert(d[i] == cs[i]);
            }
        }
        lemma_sources_line(d);
        lemma_decimal_digits(cs.last().1 as nat);
        let dec = decimal(cs.last().1 as nat);
        let f = cs.last().0;
        assert(!f.contains('\n')) by { assert(cs[cs.len() - 1] == cs.last()); }
        let t = sources_text(cs);
        assert(t == sources_text(d) + seq![' '] + f + seq![':'] + dec);
        assert(!t.contains('\n')) by {
            if t.contains('\n') {
                let k = choose|k: int| 0 <= k < t.len() && t[k] == '\n';
                let a = sources_text(d).len() as int;
                if k < a { assert(sources_text(d)[k] == '\n'); }
                else if k == a { }
                else if k < a + 1 + f.len() { assert(f[k - a - 1] == '\n'); }
                else if k == a + 1 + f.len() { }
                else { assert(dec[k - a - 2 - f.len()] == '\n'); }
            }
        }
        assert(t.last() == dec.last());
    }
}

/// Whether a text can stand between the quotes of a catalog line and read
/// back as itself: not empty, on one line, with every quote escaped.
pub open spec fn fits_in_line(t: Seq<char>) -> bool {
    t.len() > 0 && !t.contains('\n') && scannable(t, '"', '\\')
}

/// The parser takes the four lines of a block as one entry.
proof fn lemma_parse_entry(ls: Seq<Seq<char>>, i: int, es: Seq<EntryView>, m: MessageView, value: Seq<char>)
    requires
        0 <= i,
        i + 4 <= ls.len(),
        forall|k: int| 0 <= k < 4 ==> ls[i + k] == #[trigger] entry_lines(m, value)[k],
        fits_in_line(canonical(m.1)),
        fits_in_line(value),
    ensures
        parse_from(ls, i, Phase::Idle, es) == parse_from(
            ls,
            i + 4,
            Phase::Idle,
            insert_entry(es, canonical(m.1), value),
        ),
{
    let c = canonical(m.1);
    let el = entry_lines(m, value);
    assert(ls[i] == el[0]);
    assert(ls[i + 1] == el[1]);
    assert(ls[i + 2] == el[2]);
    assert(ls[i + 3] == el[3]);
    let l0 = ls[i];
    assert(l0[0] == '#');
    assert(parse_from(ls, i, Phase::Idle, es) == parse_from(ls, i + 1, Phase::Idle, es));
    let l1 = ls[i + 1];
    assert(l1.subrange(0, 5) =~= msgid_keyword());
    assert(occurs_at(l1, 0, msgid_keyword()));
    assert(find_from(l1, msgid_keyword(), 0) == 0);
    let rest = l1.subrange(5, l1.len() as int);
    assert(rest =~= seq![' '] + seq!['"'] + c + seq!['"'] + Seq::<char>::empty());
    lemma_literal_between(seq![' '], c, Seq::<char>::empty(), '"', '\\');
    assert(after_keyword(l1, msgid_keyword()) == Some(rest));
    assert(literal_chars(rest) == Some(c));
    assert(l1[0] == 'm');
    assert(parse_from(ls, i + 1, Phase::Idle, es) == parse_from(ls, i + 2, Phase::InKey { key: c }, es));
    let l2 = ls[i + 2];
    assert(l2.subrange(0, 6) =~= msgstr_keyword());
    assert(starts_with(l2, msgstr_keyword()));
    let rest2 = l2.subrange(6, l2.len() as int);
    assert(rest2 =~= seq![' '] + seq!['"'] + value + seq!['"'] + Seq::<char>::empty());
    lemma_literal_between(seq![' '], value, Seq::<char>::empty(), '"', '\\');
    assert(literal_chars(rest2) == Some(value));
    assert(parse_from(ls, i + 2, Phase::InKey { key: c }, es) == parse_from(
        ls,
        i + 3,
        Phase::InValue { key: c, value: value },
        es,
    ));
    assert(ls[i + 3].len() == 0);
    assert(finish(es, c, value) == insert_entry(es, c, value));
}

/// The entries that inserting each message of `ms`, with `value` as its
/// translation, adds to `es`.
pub open spec fn insert_all(es: Seq<EntryView>, ms: Seq<MessageView>, value: Seq<char>) -> Seq<EntryView>
    decreases ms.len(),
{
    if ms.len() == 0 {
        es
    } else {
        insert_entry(insert_all(es, ms.drop_last(), value), canonical(ms.last().1), value)
    }
}

/// The parser takes the blocks of the messages `ms` one after the other.
proof fn lemma_parse_entries(ls: Seq<Seq<char>>, i: int, es: Seq<EntryView>, ms: Seq<MessageView>, value: Seq<char>)
    requires
        0 <= i,
        i + 4 * ms.len() <= ls.len(),
        ls.subrange(i, i + 4 * ms.len()) == entries_lines(ms, value),
        forall|j: int| 0 <= j < ms.len() ==> fits_in_line(canonical(#[trigger] ms[j].1)),
        fits_in_line(value),
    ensures
        parse_from(ls, i, Phase::Idle, es) == parse_from(
            ls,
            i + 4 * ms.len(),
            Phase::Idle,
            insert_all(es, ms, value),
        ),
    decreases ms.len(),
{
    if ms.len() > 0 {
        let d = ms.drop_last();
        let n = ms.len() as int;
        let el = entry_lines(ms.last(), value);
        let sub = ls.subrange(i, i + 4 * n);
        assert(sub == entries_lines(d, value) + el);
        assert(entries_lines(d, value).len() == 4 * (n - 1)) by {
            lemma_entries_lines_len(d, value);
        }
        assert(ls.subrange(i, i + 4 * (n - 1)) =~= entries_lines(d, value)) by {
            assert forall|k: int| 0 <= k < 4 * (n - 1) implies ls.subrange(i, i + 4 * (n - 1))[k] == entries_lines(d, value)[k] by {
                assert(sub[k] == ls[i + k]);
            }
        }
        assert forall|j: int| 0 <= j < d.len() implies fits_in_line(canonical(#[trigger] d[j].1)) by {
            assert(d[j] == ms[j]);
        }
        lemma_parse_entries(ls, i, es, d, value);
        let mid = i + 4 * (n - 1);
        assert forall|k: int| 0 <= k < 4 implies ls[mid + k] == #[trigger] el[k] by {
            assert(sub[4 * (n - 1) + k] == ls[mid + k]);
        }
        assert(fits_in_line(canonical(ms[n - 1].1)));
        lemma_parse_entry(ls, mid, insert_all(es, d, value), ms.last(), value);
    }
}

proof fn lemma_entries_lines_len(ms: Seq<MessageView>, value: Seq<char>)
    ensures
        entries_lines(ms, value).len() == 4 * ms.len(),
    decreases ms.len(),
{
    if ms.len() > 0 {
        lemma_entries_lines_len(ms.drop_last(), value);
    }
}

/// The keys that inserting the messages adds are their canonical texts.
proof fn lemma_insert_all_keys(es: Seq<EntryView>, ms: Seq<MessageView>, value: Seq<char>)
    requires
        keys_unique(es),
    ensures
        keys_unique(insert_all(es, ms, value)),
        key_set(insert_all(es, ms, value)) == key_set(es) + ms.map_values(|m: MessageView| canonical(m.1)).to_set(),
    decreases ms.len(),
{
    if ms.len() == 0 {
        assert(ms.map_values(|m: MessageView| canonical(m.1)).to_set() =~= Set::<Seq<char>>::empty());
        assert(key_set(es) + Set::<Seq<char>>::empty() =~= key_set(es));
    } else {
        let d = ms.drop_last();
        lemma_insert_all_keys(es, d, value);
        let prev = insert_all(es, d, value);
        lemma_insert_keeps_unique(prev, canonical(ms.last().1), value);
        let cm = ms.map_values(|m: MessageView| canonical(m.1));
        let cd = d.map_values(|m: MessageView| canonical(m.1));
        assert(cm =~= cd.push(canonical(ms.last().1)));
        assert(cm.to_set() =~= cd.to_set().insert(canonical(ms.last().1))) by {
            assert forall|x: Seq<char>| cm.to_set().contains(x) <==> cd.to_set().insert(canonical(ms.last().1)).contains(x) by {
                if cm.to_set().contains(x) {
                    let k = choose|k: int| 0 <= k < cm.len() && cm[k] == x;
                    if k < cd.len() { assert(cd[k] == x); }
                }
                if cd.to_set().contains(x) {
                    let k = choose|k: int| 0 <= k < cd.len() && cd[k] == x;
                    assert(cm[k] == x);
                }
                if x == canonical(ms.last().1) {
                    assert(cm[cm.len() - 1] == x);
                }
            }
        }
        assert(key_set(insert_all(es, ms, value)) =~= key_set(es) + cm.to_set());
    }
}

proof fn lemma_joined_step(h: Seq<Seq<char>>, k: int)
    requires
        0 <= k < h.len(),
    ensures
        joined(h.subrange(k, h.len() as int)) == h[k] + seq!['\n'] + joined(h.subrange(k + 1, h.len() as int)),
{
    assert(h.subrange(k, h.len() as int).drop_first() =~= h.subrange(k + 1, h.len() as int));
}

/// The lines of the template's header.
pub open spec fn header_lines() -> Seq<Seq<char>> {
    seq![
        "# SOME DESCRIPTIVE TITLE"@,
        "# Copyright (C) YEAR THE PACKAGE'S COPYRIGHT HOLDER"@,
        "# LICENSE"@,
        "# AUTHOR <EMAIL@ADDRESS>, YEAR."@,
        "#"@,
        "#, fuzzy"@,
        "msgid \"\""@,
        "msgstr \"\""@,
        "\"Content-Type: text/plain; charset=UTF-8\\n\""@,
        ""@,
    ]
}

/// The lines of the template's header, with `value` as its `msgstr`.
pub open spec fn header_lines_with(value: Seq<char>) -> Seq<Seq<char>> {
    header_lines().update(7, msgstr_line(value))
}

/// The text of a filled-in template: the header and the blocks of the
/// messages `ms`, with `value` put in every `msgstr`.
pub open spec fn filled_template(ms: Seq<MessageView>, value: Seq<char>) -> Seq<char> {
    joined(header_lines_with(value)) + pot_body_with(ms, value)
}

proof fn lemma_msgstr_line_ok(value: Seq<char>)
    requires
        !value.contains('\n'),
    ensures
        !msgstr_line(value).contains('\n'),
        trim(msgstr_line(value)) == msgstr_line(value),
{
    let kw2 = seq!['m', 's', 'g', 's', 't', 'r', ' ', '"'];
    let q = seq!['"'];
    assert(!kw2.contains('\n')) by {
        if kw2.contains('\n') { let k = choose|k: int| 0 <= k < kw2.len() && kw2[k] == '\n'; }
    }
    assert(!q.contains('\n')) by {
        if q.contains('\n') { let k = choose|k: int| 0 <= k < q.len() && q[k] == '\n'; }
    }
    lemma_concat_no_newline(kw2, value);
    lemma_concat_no_newline(kw2 + value, q);
    lemma_trim_keeps(msgstr_line(value));
}

/// With its `msgstr` left empty, the filled-in header is the template's.
pub proof fn lemma_header_unfilled()
    ensures
        header_lines_with(seq![]) == header_lines(),
        joined(header_lines_with(seq![])) == POT_HEADER@,
{
    reveal_strlit("msgstr \"\"");
    assert(msgstr_line(seq![]) =~= header_lines()[7]);
    assert(header_lines_with(seq![]) =~= header_lines());
    lemma_header_lines();
}

/// Every line of a filled-in header is a single line that trims to itself.
proof fn lemma_header_with_ok(value: Seq<char>)
    requires
        !value.contains('\n'),
    ensures
        single_lines(header_lines_with(value)),
        forall|i: int| 0 <= i < header_lines_with(value).len() ==> trim(#[trigger] header_lines_with(value)[i])
            == header_lines_with(value)[i],
{
    lemma_header_lines();
    lemma_msgstr_line_ok(value);
    let h = header_lines();
    let hv = header_lines_with(value);
    assert forall|i: int| 0 <= i < hv.len() implies !(#[trigger] hv[i]).contains('\n') && trim(hv[i]) == hv[i] by {
        if i != 7 { assert(hv[i] == h[i]); }
    }
}

/// A filled-in template with an empty value is the template itself.
pub proof fn lemma_filled_template_unfilled(ms: Seq<MessageView>)
    ensures
        filled_template(ms, seq![]) == POT_HEADER@ + pot_body_with(ms, seq![]),
{
    lemma_header_unfilled();
}

/// The header is its lines, joined; each is a single line that trims to
/// itself.
pub proof fn lemma_header_lines()
    ensures
        POT_HEADER@ == joined(header_lines()),
        single_lines(header_lines()),
        forall|i: int| 0 <= i < header_lines().len() ==> trim(#[trigger] header_lines()[i]) == header_lines()[i],
{
    reveal_strlit("# SOME DESCRIPTIVE TITLE");
    reveal_strlit("# Copyright (C) YEAR THE PACKAGE'S COPYRIGHT HOLDER");
    reveal_strlit("# LICENSE");
    reveal_strlit("# AUTHOR <EMAIL@ADDRESS>, YEAR.");
    reveal_strlit("#");
    reveal_strlit("#, fuzzy");
    reveal_strlit("msgid \"\"");
    reveal_strlit("msgstr \"\"");
    reveal_strlit("\"Content-Type: text/plain; charset=UTF-8\\n\"");
    reveal_strlit("");
    reveal_strlit("# SOME DESCRIPTIVE TITLE\n# Copyright (C) YEAR THE PACKAGE'S COPYRIGHT HOLDER\n# LICENSE\n# AUTHOR <EMAIL@ADDRESS>, YEAR.\n#\n#, fuzzy\nmsgid \"\"\nmsgstr \"\"\n\"Content-Type: text/plain; charset=UTF-8\\n\"\n\n");
    let h = header_lines();
    assert(joined(h.subrange(10, 10)) =~= Seq::<char>::empty());
    lemma_joined_step(h, 9);
    lemma_joined_step(h, 8);
    lemma_joined_step(h, 7);
    lemma_joined_step(h, 6);
    lemma_joined_step(h, 5);
    lemma_joined_step(h, 4);
    lemma_joined_step(h, 3);
    lemma_joined_step(h, 2);
    lemma_joined_step(h, 1);
    lemma_joined_step(h, 0);
    assert(h.subrange(0, 10) =~= h);
    assert(POT_HEADER@ =~= joined(h));
    assert forall|i: int| 0 <= i < h.len() implies !(#[trigger] h[i]).contains('\n') by {}
    assert forall|i: int| 0 <= i < h.len() implies trim(#[trigger] h[i]) == h[i] by {
        lemma_trim_keeps(h[i]);
    }
}

/// The parser reads the header as one entry with an empty key, which it drops.
proof fn lemma_parse_header(ls: Seq<Seq<char>>, es: Seq<EntryView>, value: Seq<char>)
    requires
        ls.len() >= 10,
        forall|k: int| 0 <= k < 10 ==> ls[k] == #[trigger] header_lines_with(value)[k],
        scannable(value, '"', '\\'),
    ensures
        parse_from(ls, 0, Phase::Idle, es) == parse_from(ls, 10, Phase::Idle, es),
{
    reveal_strlit("# SOME DESCRIPTIVE TITLE");
    reveal_strlit("# Copyright (C) YEAR THE PACKAGE'S COPYRIGHT HOLDER");
    reveal_strlit("# LICENSE");
    reveal_strlit("# AUTHOR <EMAIL@ADDRESS>, YEAR.");
    reveal_strlit("#");
    reveal_strlit("#, fuzzy");
    reveal_strlit("msgid \"\"");
    reveal_strlit("msgstr \"\"");
    reveal_strlit("\"Content-Type: text/plain; charset=UTF-8\\n\"");
    reveal_strlit("");
    let h = header_lines_with(value);
    assert(ls[0] == h[0] && ls[1] == h[1] && ls[2] == h[2] && ls[3] == h[3] && ls[4] == h[4]);
    assert(ls[5] == h[5] && ls[6] == h[6] && ls[7] == h[7] && ls[8] == h[8] && ls[9] == h[9]);
    assert(parse_from(ls, 0, Phase::Idle, es) == parse_from(ls, 6, Phase::Idle, es)) by {
        assert(parse_from(ls, 0, Phase::Idle, es) == parse_from(ls, 1, Phase::Idle, es));
        assert(parse_from(ls, 1, Phase::Idle, es) == parse_from(ls, 2, Phase::Idle, es));
        assert(parse_from(ls, 2, Phase::Idle, es) == parse_from(ls, 3, Phase::Idle, es));
        assert(parse_from(ls, 3, Phase::Idle, es) == parse_from(ls, 4, Phase::Idle, es));
        assert(parse_from(ls, 4, Phase::Idle, es) == parse_from(ls, 5, Phase::Idle, es));
        assert(parse_from(ls, 5, Phase::Idle, es) == parse_from(ls, 6, Phase::Idle, es));
    }
    let e = Seq::<char>::empty();
    let l6 = ls[6];
    assert(l6.subrange(0, 5) =~= msgid_keyword());
    assert(find_from(l6, msgid_keyword(), 0) == 0);
    let r6 = l6.subrange(5, l6.len() as int);
    assert(r6 =~= seq![' '] + seq!['"'] + e + seq!['"'] + e);
    lemma_literal_between(seq![' '], e, e, '"', '\\');
    assert(literal_chars(r6) == Some(e));
    assert(parse_from(ls, 6, Phase::Idle, es) == parse_from(ls, 7, Phase::InKey { key: e }, es));
    let l7 = ls[7];
    assert(l7.subrange(0, 6) =~= msgstr_keyword());
    let r7 = l7.subrange(6, l7.len() as int);
    assert(r7 =~= seq![' '] + seq!['"'] + value + seq!['"'] + e);
    lemma_literal_between(seq![' '], value, e, '"', '\\');
    assert(literal_chars(r7) == Some(value));
    assert(parse_from(ls, 7, Phase::InKey { key: e }, es) == parse_from(ls, 8, Phase::InValue { key: e, value: value }, es));
    let l8 = ls[8];
    let inner = l8.subrange(1, l8.len() - 1);
    assert(l8 =~= e + seq!['"'] + inner + seq!['"'] + e);
    assert(scannable(inner, '"', '\\')) by {
        assert forall|j: int| 0 <= j < inner.len() && #[trigger] inner[j] == '"' implies j > 0 && inner[j - 1] == '\\' by {
            assert(inner[j] == l8[j + 1]);
        }
    }
    lemma_literal_between(e, inner, e, '"', '\\');
    assert(literal_chars(l8) == Some(inner));
    assert(parse_from(ls, 8, Phase::InValue { key: e, value: value }, es) == parse_from(ls, 9, Phase::InValue { key: e, value: value + inner }, es));
    assert(ls[9].len() == 0);
    assert(finish(es, e, value + inner) == es);
}

proof fn lemma_concat_no_newline(a: Seq<char>, b: Seq<char>)
    requires
        !a.contains('\n'),
        !b.contains('\n'),
    ensures
        !(a + b).contains('\n'),
{
    if (a + b).contains('\n') {
        let k = choose|k: int| 0 <= k < (a + b).len() && (a + b)[k] == '\n';
        if k < a.len() { assert(a[k] == '\n'); } else { assert(b[k - a.len()] == '\n'); }
    }
}

/// Whether each message of `ms` and `value` fit in a catalog line, and each
/// source names a file on one line.
pub open spec fn template_fits(ms: Seq<MessageView>, value: Seq<char>) -> bool {
    &&& forall|j: int| 0 <= j < ms.len() ==> fits_in_line(canonical(#[trigger] ms[j].1))
    &&& forall|j: int| 0 <= j < ms.len() ==> files_single_line(#[trigger] ms[j].0)
    &&& fits_in_line(value)
}

proof fn lemma_entry_lines_ok(m: MessageView, value: Seq<char>)
    requires
        fits_in_line(canonical(m.1)),
        files_single_line(m.0),
        fits_in_line(value),
    ensures
        single_lines(entry_lines(m, value)),
        forall|k: int| 0 <= k < 4 ==> trim(#[trigger] entry_lines(m, value)[k]) == entry_lines(m, value)[k],
{
    let el = entry_lines(m, value);
    let c = canonical(m.1);
    lemma_sources_line(m.0);
    let hd = seq!['#', ':'];
    assert(!hd.contains('\n')) by {
        if hd.contains('\n') { let k = choose|k: int| 0 <= k < hd.len() && hd[k] == '\n'; }
    }
    lemma_concat_no_newline(hd, sources_text(m.0));
    let kw1 = seq!['m', 's', 'g', 'i', 'd', ' ', '"'];
    let kw2 = seq!['m', 's', 'g', 's', 't', 'r', ' ', '"'];
    let q = seq!['"'];
    assert(!kw1.contains('\n')) by {
        if kw1.contains('\n') { let k = choose|k: int| 0 <= k < kw1.len() && kw1[k] == '\n'; }
    }
    assert(!kw2.contains('\n')) by {
        if kw2.contains('\n') { let k = choose|k: int| 0 <= k < kw2.len() && kw2[k] == '\n'; }
    }
    assert(!q.contains('\n')) by {
        if q.contains('\n') { let k = choose|k: int| 0 <= k < q.len() && q[k] == '\n'; }
    }
    lemma_concat_no_newline(kw1, c);
    lemma_concat_no_newline(kw1 + c, q);
    lemma_concat_no_newline(kw2, value);
    lemma_concat_no_newline(kw2 + value, q);
    assert(!Seq::<char>::empty().contains('\n'));
    assert forall|i: int| 0 <= i < el.len() implies !(#[trigger] el[i]).contains('\n') by {}
    lemma_trim_keeps(el[0]);
    lemma_trim_keeps(el[1]);
    lemma_trim_keeps(el[2]);
    lemma_trim_keeps(el[3]);
}

proof fn lemma_entries_ok(ms: Seq<MessageView>, value: Seq<char>)
    requires
        template_fits(ms, value),
    ensures
        single_lines(entries_lines(ms, value)),
        forall|k: int| 0 <= k < entries_lines(ms, value).len() ==> trim(#[trigger] entries_lines(ms, value)[k])
            == entries_lines(ms, value)[k],
        pot_body_with(ms, value) == joined(entries_lines(ms, value)),
    decreases ms.len(),
{
    if ms.len() == 0 {
        assert(entries_lines(ms, value) =~= Seq::<Seq<char>>::empty());
    } else {
        let d = ms.drop_last();
        assert(template_fits(d, value)) by {
            assert forall|j: int| 0 <= j < d.len() implies fits_in_line(canonical(#[trigger] d[j].1)) && files_single_line(d[j].0) by {
                assert(d[j] == ms[j]);
            }
        }
        lemma_entries_ok(d, value);
        let n = ms.len() as int;
        assert(fits_in_line(canonical(ms[n - 1].1)) && files_single_line(ms[n - 1].0));
        lemma_entry_lines_ok(ms.last(), value);
        let a = entries_lines(d, value);
        let b = entry_lines(ms.last(), value);
        let all = entries_lines(ms, value);
        assert(all == a + b);
        assert forall|k: int| 0 <= k < all.len() implies !(#[trigger] all[k]).contains('\n') && trim(all[k]) == all[k] by {
            if k < a.len() { assert(all[k] == a[k]); } else { assert(all[k] == b[k - a.len()]); }
        }
        lemma_entry_joined(ms.last(), value);
        lemma_joined_concat(a, b);
    }
}

/// A filled-in template splits into the lines of its header and blocks,
/// each already trimmed.
pub proof fn lemma_template_lines(ms: Seq<MessageView>, value: Seq<char>)
    requires
        template_fits(ms, value),
    ensures
        trimmed_lines(filled_template(ms, value)) == header_lines_with(value) + entries_lines(ms, value),
{
    lemma_header_with_ok(value);
    lemma_entries_ok(ms, value);
    let h = header_lines_with(value);
    let e = entries_lines(ms, value);
    let all = h + e;
    lemma_joined_concat(h, e);
    assert(single_lines(all)) by {
        assert forall|k: int| 0 <= k < all.len() implies !(#[trigger] all[k]).contains('\n') by {
            if k < h.len() { assert(all[k] == h[k]); } else { assert(all[k] == e[k - h.len()]); }
        }
    }
    lemma_lines_of_joined(all);
    assert(lines_of(filled_template(ms, value)) == all);
    assert(all.map_values(|l: Seq<char>| trim(l)) =~= all) by {
        assert forall|k: int| 0 <= k < all.len() implies trim(all[k]) == all[k] by {
            if k < h.len() { assert(all[k] == h[k]); } else { assert(all[k] == e[k - h.len()]); }
        }
    }
}

/// Parsing a filled-in template gives one entry per message, keyed by its
/// canonical text, with the filled-in value.
pub proof fn lemma_template_parses(ms: Seq<MessageView>, value: Seq<char>)
    requires
        template_fits(ms, value),
    ensures
        parse_catalog(filled_template(ms, value)) == core::result::Result::<Seq<EntryView>, ParseFailure>::Ok(
            insert_all(seq![], ms, value),
        ),
        key_set(insert_all(seq![], ms, value)) == ms.map_values(|m: MessageView| canonical(m.1)).to_set(),
{
    lemma_template_lines(ms, value);
    let h = header_lines_with(value);
    let e = entries_lines(ms, value);
    let all = h + e;
    lemma_entries_lines_len(ms, value);
    assert forall|k: int| 0 <= k < 10 implies all[k] == #[trigger] h[k] by {}
    lemma_parse_header(all, seq![], value);
    assert(all.subrange(10, 10 + 4 * ms.len() as int) =~= e);
    lemma_parse_entries(all, 10, seq![], ms, value);
    assert(parse_from(all, 10 + 4 * ms.len() as int, Phase::Idle, insert_all(seq![], ms, value)) == core::result::Result::<Seq<EntryView>, ParseFailure>::Ok(insert_all(seq![], ms, value)));
    assert(keys_unique(Seq::<EntryView>::empty()));
    lemma_insert_all_keys(seq![], ms, value);
    assert(key_set(Seq::<EntryView>::empty()) =~= Set::<Seq<char>>::empty());
    assert(Set::<Seq<char>>::empty() + ms.map_values(|m: MessageView| canonical(m.1)).to_set() =~= ms.map_values(|m: MessageView| canonical(m.1)).to_set());
}

} // verus!
