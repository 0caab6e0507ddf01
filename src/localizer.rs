//! The entry point of localization: catalogs are added one language at a
//! time, then merged with the extracted messages; and the dispatch done at
//! run time, for a current language.

use vstd::prelude::*;
use crate::error::{ErrorType, Result};
use crate::extractor::Extractor;
use crate::lang::{Lang, parse_catalog, parse_error_text, lookup};
use crate::macrogen::{row_pairs, tag_absent};
use crate::macrogen::{
    DispatchTable, TableView, LangView, RowView, build_table, dispatch, generate_macro_file,
    langs_view, langs_wf, lformat_text, RUNTIME_PRELUDE,
};

verus! {

/// Main struct for initiating localization for a project.
#[derive(Debug, Clone)]
pub struct Localizer<'a> {
    langs: Vec<Lang>,
    extractor: &'a Extractor,
}

impl<'a> Localizer<'a> {
    /// The catalogs added so far, in order.
    pub closed spec fn langs(&self) -> Seq<LangView> {
        langs_view(self.langs@)
    }

    /// The extractor whose messages are merged.
    pub closed spec fn extractor(&self) -> &'a Extractor {
        self.extractor
    }

    /// The well-formedness of a localizer: every catalog has unique keys and
    /// the extractor is well formed.
    pub closed spec fn wf(&self) -> bool {
        langs_wf(self.langs@) && self.extractor.wf()
    }

    /// Creates a new Localizer, with no catalog yet.
    pub fn new(extractor: &'a Extractor) -> (r: Localizer<'a>)
        requires
            extractor.wf(),
        ensures
            r.langs() == Seq::<LangView>::empty(),
            r.extractor() == extractor,
            r.wf(),
    {
        let r = Localizer { langs: Vec::new(), extractor };
        assert(r.langs() =~= Seq::<LangView>::empty());
        r
    }

    /// Adds the catalog of a language, parsed from its text; nothing is
    /// added where the text does not parse.
    pub fn add_lang(&mut self, lang: &str, s: &str) -> (r: Result<()>)
        requires
            old(self).wf(),
        ensures
            final(self).wf(),
            final(self).extractor() == old(self).extractor(),
            parse_catalog(s@) is Ok ==> r is Ok && final(self).langs() == old(self).langs().push(
                (lang@, parse_catalog(s@)->Ok_0),
            ),
            parse_catalog(s@) is Err ==> r is Err && final(self).langs() == old(self).langs()
                && r->Err_0.variant == ErrorType::Parse && r->Err_0.line == Some(
                parse_catalog(s@)->Err_0.0 as usize) && r->Err_0.msg@ == parse_error_text(
                lang@,
                parse_catalog(s@)->Err_0.0 as nat,
                parse_catalog(s@)->Err_0.1,
            ),
    {
        let l = Lang::new_from_str(lang, s)?;
        let ghost before = self.langs@;
        self.langs.push(l);
        assert(langs_view(self.langs@) =~= langs_view(before).push((lang@, parse_catalog(s@)->Ok_0)));
        Ok(())
    }

    /// Merges the catalogs with the extracted messages.
    pub fn dispatch_table(&self) -> (r: DispatchTable)
        requires
            self.wf(),
        ensures
            r@ == dispatch(self.extractor()@, self.langs()),
    {
        build_table(self.langs.as_slice(), self.extractor)
    }

    /// Generates the file holding the localization macros.
    pub fn generate_macro_file(self) -> (r: String)
        requires
            self.wf(),
        ensures
            r@ == RUNTIME_PRELUDE@ + lformat_text(dispatch(self.extractor()@, self.langs())),
    {
        generate_macro_file(self.langs.as_slice(), self.extractor)
    }
}

/// The language in which messages are shown.
pub struct CurrentLang {
    lang: String,
}

impl View for CurrentLang {
    type V = Seq<char>;

    closed spec fn view(&self) -> Seq<char> {
        self.lang@
    }
}

impl CurrentLang {
    /// The default current language, `en`.
    pub fn new() -> (r: CurrentLang)
        ensures
            r@ == seq!['e', 'n'],
    {
        proof { reveal_strlit("en"); }
        CurrentLang { lang: String::from_str("en") }
    }

    /// The current language.
    pub fn get(&self) -> (r: &str)
        ensures
            r@ == self@,
    {
        self.lang.as_str()
    }
}

/// Sets the current language.
pub fn set_lang(current: &mut CurrentLang, lang: &str)
    ensures
        final(current)@ == lang@,
{
    current.lang = String::from_str(lang);
}

/// The position of the row of message `m`, or -1.
pub open spec fn row_index(rs: Seq<RowView>, m: Seq<char>) -> int
    decreases rs.len(),
{
    if rs.len() == 0 {
        -1
    } else if row_index(rs.drop_last(), m) >= 0 {
        row_index(rs.drop_last(), m)
    } else if rs.last().0 == m {
        rs.len() - 1
    } else {
        -1
    }
}

/// The translation of the first pair for language `lang`, if any.
pub open spec fn pair_for(ps: Seq<(Seq<char>, Seq<char>)>, lang: Seq<char>) -> Option<Seq<char>>
    decreases ps.len(),
{
    if ps.len() == 0 {
        None
    } else if pair_for(ps.drop_last(), lang) is Some {
        pair_for(ps.drop_last(), lang)
    } else if ps.last().0 == lang {
        Some(ps.last().1)
    } else {
        None
    }
}

/// What a row gives in language `lang`: its translation, or else the
/// message itself.
pub open spec fn row_result(r: RowView, lang: Seq<char>) -> Seq<char> {
    match pair_for(r.1, lang) {
        Some(v) => v,
        None => r.0,
    }
}

/// What the table gives for message `m` in language `lang`: the row of the
/// message; else, for an aliased call-site text, the row of its canonical
/// form (or that form itself); else the message unchanged.
pub open spec fn localized(t: TableView, lang: Seq<char>, m: Seq<char>) -> Seq<char> {
    let i = row_index(t.rows, m);
    if i >= 0 {
        row_result(t.rows[i], lang)
    } else {
        let a = pair_for(t.aliases, m);
        if a is Some {
            let j = row_index(t.rows, a->0);
            if j >= 0 { row_result(t.rows[j], lang) } else { a->0 }
        } else {
            m
        }
    }
}

proof fn lemma_row_index(rs: Seq<RowView>, m: Seq<char>)
    ensures
        -1 <= row_index(rs, m) < rs.len(),
        row_index(rs, m) >= 0 ==> rs[row_index(rs, m)].0 == m,
        row_index(rs, m) >= 0 ==> forall|j: int| 0 <= j < row_index(rs, m) ==> rs[j].0 != m,
        row_index(rs, m) < 0 ==> forall|j: int| 0 <= j < rs.len() ==> rs[j].0 != m,
    decreases rs.len(),
{
    if rs.len() > 0 {
        lemma_row_index(rs.drop_last(), m);
        assert forall|j: int| 0 <= j < rs.len() - 1 implies rs[j] == rs.drop_last()[j] by {}
    }
}

proof fn lemma_pair_for(ps: Seq<(Seq<char>, Seq<char>)>, k: Seq<char>)
    ensures
        pair_for(ps, k) is None ==> forall|j: int| 0 <= j < ps.len() ==> ps[j].0 != k,
        pair_for(ps, k) is Some ==> exists|j: int| 0 <= j < ps.len() && ps[j].0 == k,
        forall|i: int| 0 <= i < ps.len() && ps[i].0 == k && (forall|j: int| 0 <= j < i ==> ps[j].0 != k)
            ==> pair_for(ps, k) == Some(ps[i].1),
    decreases ps.len(),
{
    if ps.len() > 0 {
        let d = ps.drop_last();
        lemma_pair_for(d, k);
        assert forall|j: int| 0 <= j < ps.len() - 1 implies ps[j] == d[j] by {}
        assert forall|i: int| 0 <= i < ps.len() && ps[i].0 == k && (forall|j: int| 0 <= j < i ==> ps[j].0 != k)
            implies pair_for(ps, k) == Some(ps[i].1) by {
            if i < ps.len() - 1 {
                assert(d[i].0 == k);
                assert(forall|j: int| 0 <= j < i ==> d[j].0 != k);
            } else {
                assert(forall|j: int| 0 <= j < d.len() ==> d[j].0 != k);
                if pair_for(d, k) is Some {
                    let j = choose|j: int| 0 <= j < d.len() && d[j].0 == k;
                    assert(false);
                }
            }
        }
        if pair_for(ps, k) is Some {
            if pair_for(d, k) is Some {
                let j = choose|j: int| 0 <= j < d.len() && d[j].0 == k;
                assert(ps[j].0 == k);
            } else {
                assert(ps[ps.len() - 1].0 == k);
            }
        }
    }
}

/// The first translation for `lang` among `ps`, if any.
fn find_pair(ps: &Vec<(String, String)>, key: &str) -> (r: Option<String>)
    ensures
        r is Some == pair_for(ps@.map_values(|p: (String, String)| (p.0@, p.1@)), key@) is Some,
        r is Some ==> r->0@ == pair_for(ps@.map_values(|p: (String, String)| (p.0@, p.1@)), key@)->0,
{
    let ghost pv = ps@.map_values(|p: (String, String)| (p.0@, p.1@));
    proof { lemma_pair_for(pv, key@); }
    let k = String::from_str(key);
    let mut i: usize = 0;
    while i < ps.len()
        invariant
            i <= ps@.len(),
            k@ == key@,
            pv == ps@.map_values(|p: (String, String)| (p.0@, p.1@)),
            forall|j: int| 0 <= j < i ==> pv[j].0 != key@,
            forall|i: int| 0 <= i < pv.len() && pv[i].0 == key@ && (forall|j: int| 0 <= j < i ==> pv[j].0 != key@)
                ==> pair_for(pv, key@) == Some(pv[i].1),
            pair_for(pv, key@) is None ==> forall|j: int| 0 <= j < pv.len() ==> pv[j].0 != key@,
            pair_for(pv, key@) is Some ==> exists|j: int| 0 <= j < pv.len() && pv[j].0 == key@,
        decreases ps.len() - i,
    {
        if ps[i].0 == k {
            assert(pv[i as int].0 == key@);
            return Some(ps[i].1.clone());
        }
        i = i + 1;
    }
    None
}

impl DispatchTable {
    /// The position of the row of message `m`, if any.
    fn find_row(&self, m: &str) -> (r: Option<usize>)
        ensures
            r is Some <==> row_index(self@.rows, m@) >= 0,
            r is Some ==> r->0 == row_index(self@.rows, m@),
            r is Some ==> r->0 < self@.rows.len(),
    {
        let ghost rs = self@.rows;
        proof { lemma_row_index(rs, m@); }
        let k = String::from_str(m);
        let mut i: usize = 0;
        while i < self.rows.len()
            invariant
                i <= rs.len(),
                k@ == m@,
                rs == self.rows@.map_values(|r: crate::macrogen::DispatchRow| r@),
                forall|j: int| 0 <= j < i ==> rs[j].0 != m@,
                -1 <= row_index(rs, m@) < rs.len(),
                row_index(rs, m@) >= 0 ==> rs[row_index(rs, m@)].0 == m@,
                row_index(rs, m@) >= 0 ==> forall|j: int| 0 <= j < row_index(rs, m@) ==> rs[j].0 != m@,
                row_index(rs, m@) < 0 ==> forall|j: int| 0 <= j < rs.len() ==> rs[j].0 != m@,
            decreases self.rows.len() - i,
        {
            if self.rows[i].msg == k {
                assert(rs[i as int].0 == m@);
                return Some(i);
            }
            i = i + 1;
        }
        None
    }

    /// What row `i` gives in language `lang`.
    fn row_localized(&self, i: usize, lang: &str) -> (r: String)
        requires
            i < self@.rows.len(),
        ensures
            r@ == row_result(self@.rows[i as int], lang@),
    {
        let row = &self.rows[i];
        assert(self@.rows[i as int] == row@);
        match find_pair(&row.translations, lang) {
            Some(v) => v,
            None => row.msg.clone(),
        }
    }

    /// The text of message `msg` in the current language: its translation,
    /// or the message itself where there is none.
    pub fn localize(&self, current: &CurrentLang, msg: &str) -> (r: String)
        ensures
            r@ == localized(self@, current@, msg@),
    {
        let lang = current.get();
        match self.find_row(msg) {
            Some(i) => self.row_localized(i, lang),
            None => match find_pair(&self.aliases, msg) {
                Some(canon) => match self.find_row(canon.as_str()) {
                    Some(j) => self.row_localized(j, lang),
                    None => canon,
                },
                None => String::from_str(msg),
            },
        }
    }
}

proof fn lemma_row_pairs_source(langs: Seq<LangView>, key: Seq<char>, i: int)
    requires
        0 <= i < row_pairs(langs, key).len(),
    ensures
        exists|j: int| 0 <= j < langs.len() && langs[j].0 == row_pairs(langs, key)[i].0
            && lookup(langs[j].1, key) == Some(row_pairs(langs, key)[i].1)
            && (forall|h: int| 0 <= h < j && langs[h].0 == langs[j].0 ==> lookup(langs[h].1, key) is None),
    decreases langs.len(),
{
    let d = langs.drop_last();
    let prev = row_pairs(d, key);
    assert forall|h: int| 0 <= h < d.len() implies langs[h] == d[h] by {}
    if i < prev.len() {
        lemma_row_pairs_source(d, key, i);
        let j = choose|j: int| 0 <= j < d.len() && d[j].0 == prev[i].0
            && lookup(d[j].1, key) == Some(prev[i].1)
            && (forall|h: int| 0 <= h < j && d[h].0 == d[j].0 ==> lookup(d[h].1, key) is None);
        assert(langs[j] == d[j]);
    } else {
        let j = langs.len() - 1;
        assert(tag_absent(prev, langs[j].0));
        assert forall|h: int| 0 <= h < j && langs[h].0 == langs[j].0 implies lookup(langs[h].1, key) is None by {
            if lookup(langs[h].1, key) is Some {
                lemma_tag_present(d, key, h);
                let q = choose|q: int| 0 <= q < prev.len() && prev[q].0 == d[h].0;
                assert(prev[q].0 != langs[j].0);
            }
        }
    }
}

proof fn lemma_tag_present(langs: Seq<LangView>, key: Seq<char>, h: int)
    requires
        0 <= h < langs.len(),
        lookup(langs[h].1, key) is Some,
    ensures
        exists|q: int| 0 <= q < row_pairs(langs, key).len() && row_pairs(langs, key)[q].0 == langs[h].0,
    decreases langs.len(),
{
    let d = langs.drop_last();
    let prev = row_pairs(d, key);
    if h < langs.len() - 1 {
        assert(langs[h] == d[h]);
        lemma_tag_present(d, key, h);
        let q = choose|q: int| 0 <= q < prev.len() && prev[q].0 == d[h].0;
        assert(row_pairs(langs, key)[q] == prev[q]);
    } else if !tag_absent(prev, langs[h].0) {
        let q = choose|q: int| 0 <= q < prev.len() && prev[q].0 == langs[h].0;
        assert(row_pairs(langs, key)[q] == prev[q]);
    } else {
        assert(row_pairs(langs, key)[prev.len() as int].0 == langs[h].0);
    }
}

proof fn lemma_row_tags_unique(langs: Seq<LangView>, key: Seq<char>)
    ensures
        forall|i: int, j: int| 0 <= i < j < row_pairs(langs, key).len() ==> row_pairs(langs, key)[i].0
            != row_pairs(langs, key)[j].0,
    decreases langs.len(),
{
    if langs.len() > 0 {
        let d = langs.drop_last();
        lemma_row_tags_unique(d, key);
        let prev = row_pairs(d, key);
        let ps = row_pairs(langs, key);
        assert forall|i: int, j: int| 0 <= i < j < ps.len() implies ps[i].0 != ps[j].0 by {
            if j >= prev.len() {
                assert(tag_absent(prev, langs.last().0));
                assert(ps[i] == prev[i]);
                assert(ps[j].0 == langs.last().0);
            } else {
                assert(ps[i] == prev[i] && ps[j] == prev[j]);
            }
        }
    }
}

/// Where catalogs with the same language tag both translate a message, the
/// row of that message holds one pair for the tag: the translation of the
/// first such catalog.
pub proof fn lemma_first_catalog_wins(langs: Seq<LangView>, key: Seq<char>, a: int)
    requires
        0 <= a < langs.len(),
        lookup(langs[a].1, key) is Some,
        forall|h: int| 0 <= h < a && langs[h].0 == langs[a].0 ==> lookup(langs[h].1, key) is None,
    ensures
        pair_for(row_pairs(langs, key), langs[a].0) == lookup(langs[a].1, key),
        forall|i: int, j: int| 0 <= i < j < row_pairs(langs, key).len() ==> row_pairs(langs, key)[i].0
            != row_pairs(langs, key)[j].0,
{
    let ps = row_pairs(langs, key);
    let tag = langs[a].0;
    lemma_row_tags_unique(langs, key);
    lemma_tag_present(langs, key, a);
    let q = choose|q: int| 0 <= q < ps.len() && ps[q].0 == tag;
    lemma_row_pairs_source(langs, key, q);
    let j = choose|j: int| 0 <= j < langs.len() && langs[j].0 == ps[q].0
        && lookup(langs[j].1, key) == Some(ps[q].1)
        && (forall|h: int| 0 <= h < j && langs[h].0 == langs[j].0 ==> lookup(langs[h].1, key) is None);
    if j < a {
        assert(lookup(langs[j].1, key) is None);
    } else if j > a {
        assert(lookup(langs[a].1, key) is None);
    }
    lemma_pair_for(ps, tag);
}

} // verus!
