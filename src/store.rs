//! The translation index: for each loaded locale, its keys and their entries.
use vstd::prelude::*;
use crate::locale::{extract_locale_from_path, inferred_locale, name_view, resource_file};
use crate::locale::format_spec;
use crate::parser::{parsed, TranslationParser};
use crate::location::{find_key_line, key_line};
use crate::text::same_text;
use crate::tree::{keys_unique, pairs_map, Translations};

verus! {

broadcast use vstd::std_specs::vec::group_vec_axioms, vstd::seq::group_seq_axioms;

/// One translation: a key's text in one locale, and the file it came from.
pub struct TranslationEntry {
    pub key: String,
    pub value: String,
    pub file_path: String,
    pub locale: String,
    /// The defining line; zero when unknown.
    pub line: usize,
}

/// Where a translation is defined.
pub struct TranslationLocation {
    pub file_path: String,
    pub locale: String,
    pub line: usize,
}

impl TranslationEntry {
    /// A copy of the entry.
    pub fn duplicate(&self) -> (r: TranslationEntry)
        ensures
            r == *self,
    {
        TranslationEntry {
            key: self.key.clone(),
            value: self.value.clone(),
            file_path: self.file_path.clone(),
            locale: self.locale.clone(),
            line: self.line,
        }
    }
}

/// The entries of a locale by key, a later entry overriding an earlier one.
pub open spec fn entries_map(s: Seq<TranslationEntry>) -> Map<Seq<char>, TranslationEntry>
    decreases s.len(),
{
    if s.len() == 0 {
        Map::empty()
    } else {
        entries_map(s.drop_last()).insert(s.last().key@, s.last())
    }
}

pub open spec fn entry_keys_unique(s: Seq<TranslationEntry>) -> bool {
    forall|i: int, j: int| 0 <= i < j < s.len() ==> s[i].key@ != s[j].key@
}

proof fn lemma_entries_dom(s: Seq<TranslationEntry>, k: Seq<char>)
    ensures
        entries_map(s).contains_key(k) <==> exists|i: int| 0 <= i < s.len() && s[i].key@ == k,
    decreases s.len(),
{
    if s.len() > 0 {
        lemma_entries_dom(s.drop_last(), k);
        if entries_map(s).contains_key(k) && s.last().key@ != k {
            let i = choose|i: int| 0 <= i < s.len() - 1 && s.drop_last()[i].key@ == k;
            assert(s[i].key@ == k);
        }
        if exists|i: int| 0 <= i < s.len() && s[i].key@ == k {
            let i = choose|i: int| 0 <= i < s.len() && s[i].key@ == k;
            if i < s.len() - 1 {
                assert(s.drop_last()[i].key@ == k);
            }
        }
    }
}

proof fn lemma_entries_at(s: Seq<TranslationEntry>, i: int)
    requires
        entry_keys_unique(s),
        0 <= i < s.len(),
    ensures
        entries_map(s).contains_key(s[i].key@),
        entries_map(s)[s[i].key@] == s[i],
    decreases s.len(),
{
    if i < s.len() - 1 {
        lemma_entries_at(s.drop_last(), i);
    }
}

proof fn lemma_entries_update(s: Seq<TranslationEntry>, i: int, e: TranslationEntry)
    requires
        entry_keys_unique(s),
        0 <= i < s.len(),
        e.key@ == s[i].key@,
    ensures
        entries_map(s.update(i, e)) == entries_map(s).insert(e.key@, e),
        entry_keys_unique(s.update(i, e)),
    decreases s.len(),
{
    let t = s.update(i, e);
    if i == s.len() - 1 {
        assert(t.drop_last() =~= s.drop_last());
        assert(entries_map(t) =~= entries_map(s).insert(e.key@, e));
    } else {
        lemma_entries_update(s.drop_last(), i, e);
        assert(t.drop_last() =~= s.drop_last().update(i, e));
        assert(entries_map(t) =~= entries_map(s).insert(e.key@, e));
    }
}

proof fn lemma_entries_push(s: Seq<TranslationEntry>, e: TranslationEntry)
    requires
        entry_keys_unique(s),
        !entries_map(s).contains_key(e.key@),
    ensures
        entries_map(s.push(e)) == entries_map(s).insert(e.key@, e),
        entry_keys_unique(s.push(e)),
{
    assert(s.push(e).drop_last() =~= s);
    assert forall|i: int, j: int| 0 <= i < j < s.len() + 1 implies #[trigger] s.push(e)[i].key@
        != #[trigger] s.push(e)[j].key@ by {
        if j == s.len() {
            lemma_entries_dom(s, e.key@);
        }
    }
}

/// The translations of one locale.
struct LocaleTable {
    locale: String,
    entries: Vec<TranslationEntry>,
}

/// The index over all loaded locales, in the order they were first loaded.
pub struct TranslationStore {
    tables: Vec<LocaleTable>,
}

impl TranslationStore {
    /// The loaded locale codes, in load order.
    pub closed spec fn locales(&self) -> Seq<Seq<char>> {
        self.tables@.map_values(|t: LocaleTable| t.locale@)
    }

    /// The entries of the `i`-th locale, by key.
    pub closed spec fn table(&self, i: int) -> Map<Seq<char>, TranslationEntry> {
        entries_map(self.tables@[i].entries@)
    }

    /// Locale codes are distinct; within a locale keys are distinct, and each
    /// entry names its own locale.
    pub closed spec fn wf(&self) -> bool {
        &&& forall|i: int, j: int|
            0 <= i < j < self.tables@.len() ==> self.tables@[i].locale@ != self.tables@[j].locale@
        &&& forall|i: int|
            0 <= i < self.tables@.len() ==> entry_keys_unique(#[trigger] self.tables@[i].entries@)
        &&& forall|i: int, j: int|
            0 <= i < self.tables@.len() && 0 <= j < self.tables@[i].entries@.len()
                ==> #[trigger] self.tables@[i].entries@[j].locale@ == self.tables@[i].locale@
    }

    /// Whether some locale has `key`.
    pub open spec fn present(&self, key: Seq<char>) -> bool {
        exists|i: int| 0 <= i < self.locales().len() && #[trigger] self.table(i).contains_key(key)
    }

    /// The locales among the first `n` that lack `key`, in load order.
    pub open spec fn missing_upto(&self, key: Seq<char>, n: int) -> Seq<Seq<char>>
        decreases n,
    {
        if n <= 0 {
            Seq::empty()
        } else if self.table(n - 1).contains_key(key) {
            self.missing_upto(key, n - 1)
        } else {
            self.missing_upto(key, n - 1).push(self.locales()[n - 1])
        }
    }

    /// The locales that lack `key`, in load order.
    pub open spec fn missing(&self, key: Seq<char>) -> Seq<Seq<char>> {
        self.missing_upto(key, self.locales().len() as int)
    }

    /// The locales among the first `n` that have `key`, in load order.
    pub open spec fn holding_upto(&self, key: Seq<char>, n: int) -> Seq<Seq<char>>
        decreases n,
    {
        if n <= 0 {
            Seq::empty()
        } else if self.table(n - 1).contains_key(key) {
            self.holding_upto(key, n - 1).push(self.locales()[n - 1])
        } else {
            self.holding_upto(key, n - 1)
        }
    }

    /// The text of `key` in `locale`, if that locale is loaded and has it.
    pub open spec fn lookup(&self, key: Seq<char>, locale: Seq<char>) -> Option<Seq<char>> {
        if exists|i: int|
            0 <= i < self.locales().len() && self.locales()[i] == locale && #[trigger] self.table(
                i,
            ).contains_key(key) {
            let i = choose|i: int|
                0 <= i < self.locales().len() && self.locales()[i] == locale && #[trigger] self.table(
                    i,
                ).contains_key(key);
            Some(self.table(i)[key].value@)
        } else {
            None
        }
    }

    /// Whether `e` is the entry of `key` in some loaded locale.
    pub open spec fn holds_entry(&self, key: Seq<char>, e: TranslationEntry) -> bool {
        exists|i: int|
            0 <= i < self.locales().len() && #[trigger] self.table(i).contains_key(key)
                && self.table(i)[key] == e
    }

    /// An empty index.
    pub fn new() -> (r: TranslationStore)
        ensures
            r.wf(),
            r.locales().len() == 0,
    {
        TranslationStore { tables: Vec::new() }
    }

    /// The position of `locale` among the loaded locales.
    fn find_table(&self, locale: &str) -> (r: Option<usize>)
        requires
            self.wf(),
        ensures
            match r {
                Some(i) => i < self.locales().len() && self.locales()[i as int] == locale@,
                None => forall|i: int| 0 <= i < self.locales().len() ==> self.locales()[i] != locale@,
            },
    {
        let mut i: usize = 0;
        while i < self.tables.len()
            invariant
                i <= self.tables.len(),
                forall|j: int| 0 <= j < i ==> self.tables@[j].locale@ != locale@,
            decreases self.tables.len() - i,
        {
            if same_text(&self.tables[i].locale, locale) {
                return Some(i);
            }
            i += 1;
        }
        None
    }

    /// The position of `key` in the `t`-th locale.
    fn find_entry(&self, t: usize, key: &str) -> (r: Option<usize>)
        requires
            self.wf(),
            t < self.locales().len(),
        ensures
            match r {
                Some(j) => j < self.tables@[t as int].entries@.len()
                    && self.tables@[t as int].entries@[j as int].key@ == key@
                    && self.table(t as int).contains_key(key@)
                    && self.table(t as int)[key@] == self.tables@[t as int].entries@[j as int],
                None => !self.table(t as int).contains_key(key@),
            },
    {
        let entries = &self.tables[t].entries;
        let mut j: usize = 0;
        while j < entries.len()
            invariant
                self.wf(),
                t < self.tables.len(),
                *entries == self.tables@[t as int].entries,
                j <= entries.len(),
                forall|k: int| 0 <= k < j ==> entries@[k].key@ != key@,
            decreases entries.len() - j,
        {
            if same_text(&entries[j].key, key) {
                proof {
                    assert(entry_keys_unique(self.tables@[t as int].entries@));
                    lemma_entries_at(entries@, j as int);
                }
                return Some(j);
            }
            j += 1;
        }
        proof {
            lemma_entries_dom(entries@, key@);
        }
        None
    }

    /// The text of `key` in `locale`.
    pub fn get_translation(&self, key: &str, locale: &str) -> (r: Option<String>)
        requires
            self.wf(),
        ensures
            r matches Some(v) ==> self.lookup(key@, locale@) == Some(v@),
            r is None ==> self.lookup(key@, locale@) is None,
    {
        match self.get_entry(key, locale) {
            Some(e) => Some(e.value),
            None => None,
        }
    }

    /// The entry of `key` in `locale`.
    pub fn get_entry(&self, key: &str, locale: &str) -> (r: Option<TranslationEntry>)
        requires
            self.wf(),
        ensures
            r matches Some(e) ==> self.lookup(key@, locale@) == Some(e.value@) && e.key@ == key@
                && e.locale@ == locale@ && self.table_of(locale@).contains_key(key@)
                && self.table_of(locale@)[key@] == e,
            r is None ==> self.lookup(key@, locale@) is None,
    {
        match self.find_table(locale) {
            Some(t) => match self.find_entry(t, key) {
                Some(j) => {
                    let e = self.tables[t].entries[j].duplicate();
                    proof {
                        let i = choose|i: int|
                            0 <= i < self.locales().len() && self.locales()[i] == locale@
                                && #[trigger] self.table(i).contains_key(key@);
                        assert(i == t);
                        self.lemma_table_of(t as int);
                    }
                    Some(e)
                },
                None => {
                    proof {
                        assert forall|i: int|
                            0 <= i < self.locales().len() && self.locales()[i] == locale@
                                implies !#[trigger] self.table(i).contains_key(key@) by {
                            assert(i == t);
                        }
                    }
                    None
                },
            },
            None => None,
        }
    }

    /// Whether any loaded locale has `key`.
    pub fn key_exists(&self, key: &str) -> (r: bool)
        requires
            self.wf(),
        ensures
            r == self.present(key@),
    {
        let mut t: usize = 0;
        while t < self.tables.len()
            invariant
                self.wf(),
                t <= self.tables.len(),
                forall|i: int| 0 <= i < t ==> !#[trigger] self.table(i).contains_key(key@),
            decreases self.tables.len() - t,
        {
            if self.find_entry(t, key).is_some() {
                return true;
            }
            t += 1;
        }
        false
    }

    /// The loaded locales that lack `key`, in load order: all of them when
    /// no locale has it.
    pub fn get_missing_locales(&self, key: &str) -> (r: Vec<String>)
        requires
            self.wf(),
        ensures
            string_views(r@) == self.missing(key@),
    {
        let mut r: Vec<String> = Vec::new();
        let mut t: usize = 0;
        while t < self.tables.len()
            invariant
                self.wf(),
                t <= self.tables.len(),
                string_views(r@) == self.missing_upto(key@, t as int),
            decreases self.tables.len() - t,
        {
            let ghost before = r@;
            if self.find_entry(t, key).is_none() {
                r.push(self.tables[t].locale.clone());
                assert(string_views(r@) =~= string_views(before).push(
                    self.locales()[t as int],
                ));
            }
            t += 1;
        }
        r
    }

    /// The loaded locale codes, in load order.
    pub fn get_locales(&self) -> (r: Vec<String>)
        ensures
            string_views(r@) == self.locales(),
    {
        let mut r: Vec<String> = Vec::new();
        let mut t: usize = 0;
        while t < self.tables.len()
            invariant
                t <= self.tables.len(),
                string_views(r@) == self.locales().take(t as int),
            decreases self.tables.len() - t,
        {
            assert(self.locales()[t as int] == self.tables@[t as int].locale@);
            let ghost before = r@;
            r.push(self.tables[t].locale.clone());
            assert(string_views(r@) =~= string_views(before).push(self.locales()[t as int]));
            assert(self.locales().take(t + 1) =~= self.locales().take(t as int).push(
                self.locales()[t as int],
            ));
            t += 1;
        }
        assert(self.locales().take(t as int) =~= self.locales());
        r
    }

    /// The entries of `key` in each locale that has it, in load order.
    pub fn get_all_translations(&self, key: &str) -> (r: Vec<TranslationEntry>)
        requires
            self.wf(),
        ensures
            entry_locales(r@) == self.holding_upto(
                key@,
                self.locales().len() as int,
            ),
            forall|j: int| 0 <= j < r@.len() ==> self.holds_entry(key@, #[trigger] r@[j]),
    {
        let mut r: Vec<TranslationEntry> = Vec::new();
        let mut t: usize = 0;
        while t < self.tables.len()
            invariant
                self.wf(),
                t <= self.tables.len(),
                entry_locales(r@) == self.holding_upto(key@, t as int),
                forall|j: int| 0 <= j < r@.len() ==> self.holds_entry(key@, #[trigger] r@[j]),
            decreases self.tables.len() - t,
        {
            let ghost before = r@;
            match self.find_entry(t, key) {
                Some(j) => {
                    let e = self.tables[t].entries[j].duplicate();
                    proof {
                        assert(self.tables@[t as int].entries@[j as int].locale@
                            == self.tables@[t as int].locale@);
                    }
                    r.push(e);
                    assert(entry_locales(r@) =~= entry_locales(before).push(self.locales()[t as int]));
                    assert forall|k: int| 0 <= k < r@.len() implies self.holds_entry(
                        key@,
                        #[trigger] r@[k],
                    ) by {
                        if k == r@.len() - 1 {
                            assert(self.table(t as int).contains_key(key@));
                            assert(self.table(t as int)[key@] == r@[k]);
                        } else {
                            assert(r@[k] == before[k]);
                        }
                    }
                },
                None => {},
            }
            t += 1;
        }
        r
    }

    /// Whether one of the first `t` locales has `key`.
    pub open spec fn present_upto(&self, key: Seq<char>, t: int) -> bool {
        exists|i: int| 0 <= i < t && #[trigger] self.table(i).contains_key(key)
    }

    /// Every key of every locale, each once, in order of first appearance.
    pub fn get_all_keys(&self) -> (r: Vec<String>)
        requires
            self.wf(),
        ensures
            forall|k: Seq<char>| #[trigger] shown(r@, k) <==> self.present(k),
            forall|a: int, b: int| 0 <= a < b < r@.len() ==> r@[a]@ != r@[b]@,
    {
        let mut r: Vec<String> = Vec::new();
        let mut t: usize = 0;
        while t < self.tables.len()
            invariant
                self.wf(),
                t <= self.tables.len(),
                forall|a: int, b: int| 0 <= a < b < r@.len() ==> r@[a]@ != r@[b]@,
                forall|k: Seq<char>| #[trigger] shown(r@, k) <==> self.present_upto(k, t as int),
            decreases self.tables.len() - t,
        {
            let entries = &self.tables[t].entries;
            let ghost r0 = r@;
            let mut j: usize = 0;
            while j < entries.len()
                invariant
                    self.wf(),
                    t < self.tables.len(),
                    *entries == self.tables@[t as int].entries,
                    j <= entries.len(),
                    forall|a: int, b: int| 0 <= a < b < r@.len() ==> r@[a]@ != r@[b]@,
                    forall|k: Seq<char>| #[trigger] shown(r@, k) <==> (shown(r0, k) || key_among(
                        entries@,
                        j as int,
                        k,
                    )),
                decreases entries.len() - j,
            {
                let key = &entries[j].key;
                let mut seen = false;
                let mut x: usize = 0;
                while x < r.len()
                    invariant
                        x <= r.len(),
                        !seen ==> forall|z: int| 0 <= z < x ==> r@[z]@ != key@,
                        seen ==> shown(r@, key@),
                    decreases r.len() - x,
                {
                    if r[x] == *key {
                        seen = true;
                    }
                    x += 1;
                }
                let ghost before = r@;
                if !seen {
                    r.push(key.clone());
                    assert forall|a: int, b: int| 0 <= a < b < r@.len() implies r@[a]@ != r@[b]@ by {
                        if b == r@.len() - 1 {
                            assert(before[a]@ != key@);
                        } else {
                            assert(r@[a] == before[a] && r@[b] == before[b]);
                        }
                    }
                    assert forall|k: Seq<char>| #[trigger] shown(r@, k) <==> (shown(before, k) || k
                        == key@) by {
                        if shown(r@, k) {
                            let x = choose|x: int| 0 <= x < r@.len() && r@[x]@ == k;
                            if x < before.len() {
                                assert(before[x]@ == k);
                            }
                        }
                        if shown(before, k) {
                            let x = choose|x: int| 0 <= x < before.len() && before[x]@ == k;
                            assert(r@[x] == before[x]);
                        }
                        if k == key@ {
                            assert(r@[before.len() as int]@ == key@);
                        }
                    }
                }
                proof {
                    assert forall|k: Seq<char>| #[trigger] key_among(entries@, j + 1, k) <==> (
                    key_among(entries@, j as int, k) || k == key@) by {
                        if key_among(entries@, j + 1, k) {
                            let y = choose|y: int| 0 <= y < j + 1 && entries@[y].key@ == k;
                            if y < j {
                                assert(key_among(entries@, j as int, k));
                            }
                        }
                        if key_among(entries@, j as int, k) {
                            let y = choose|y: int| 0 <= y < j && entries@[y].key@ == k;
                            assert(entries@[y].key@ == k);
                        }
                        if k == key@ {
                            assert(entries@[j as int].key@ == k);
                        }
                    }
                }
                j += 1;
            }
            proof {
                assert forall|k: Seq<char>| #[trigger] shown(r@, k) <==> self.present_upto(
                    k,
                    t + 1,
                ) by {
                    lemma_entries_dom(entries@, k);
                    if self.present_upto(k, t + 1) {
                        let i = choose|i: int| 0 <= i < t + 1 && #[trigger] self.table(i).contains_key(k);
                        if i < t {
                            assert(self.present_upto(k, t as int));
                        } else {
                            let y = choose|y: int| 0 <= y < entries@.len() && entries@[y].key@ == k;
                            assert(key_among(entries@, j as int, k));
                        }
                    }
                    if key_among(entries@, j as int, k) {
                        let y = choose|y: int| 0 <= y < j && entries@[y].key@ == k;
                        assert(entries@[y].key@ == k);
                        assert(self.table(t as int).contains_key(k));
                    }
                    if self.present_upto(k, t as int) {
                        let i = choose|i: int| 0 <= i < t && #[trigger] self.table(i).contains_key(k);
                        assert(self.table(i).contains_key(k));
                    }
                }
            }
            t += 1;
        }
        r
    }
}

impl TranslationStore {
    /// The entries of `locale` by key; empty when the locale is not loaded.
    pub open spec fn table_of(&self, locale: Seq<char>) -> Map<Seq<char>, TranslationEntry> {
        if exists|i: int| 0 <= i < self.locales().len() && #[trigger] self.locales()[i] == locale {
            let i = choose|i: int| 0 <= i < self.locales().len() && #[trigger] self.locales()[i] == locale;
            self.table(i)
        } else {
            Map::empty()
        }
    }

    /// Whether `new` is `old` with the texts of `t`, read from `file`, merged
    /// into `locale`: a new locale goes last, a text of `t` replaces the
    /// locale's earlier entry for its key, and nothing else changes.
    pub open spec fn merged(
        old: &TranslationStore,
        new: &TranslationStore,
        locale: Seq<char>,
        file: Seq<char>,
        t: Map<Seq<char>, Seq<char>>,
    ) -> bool {
        &&& new.locales() == (if old.locales().contains(locale) {
            old.locales()
        } else {
            old.locales().push(locale)
        })
        &&& forall|i: int|
            0 <= i < old.locales().len() && old.locales()[i] != locale ==> #[trigger] new.table(i)
                == old.table(i)
        &&& forall|k: Seq<char>|
            #[trigger] new.table_of(locale).contains_key(k) <==> (old.table_of(locale).contains_key(
                k,
            ) || t.contains_key(k))
        &&& forall|k: Seq<char>|
            #[trigger] t.contains_key(k) ==> {
                let e = new.table_of(locale)[k];
                &&& e.value@ == t[k]
                &&& e.file_path@ == file
                &&& e.locale@ == locale
                &&& e.key@ == k
                &&& e.line == 0
            }
        &&& forall|k: Seq<char>|
            !t.contains_key(k) && #[trigger] old.table_of(locale).contains_key(k) ==> new.table_of(
                locale,
            )[k] == old.table_of(locale)[k]
    }

    proof fn lemma_table_of(&self, i: int)
        requires
            self.wf(),
            0 <= i < self.locales().len(),
        ensures
            self.table_of(self.locales()[i]) == self.table(i),
    {
        let l = self.locales()[i];
        let j = choose|j: int| 0 <= j < self.locales().len() && #[trigger] self.locales()[j] == l;
        assert(self.tables@[j].locale@ == self.tables@[i].locale@);
    }

    /// Merges the texts of one file into `locale`, a text replacing the
    /// locale's earlier entry for the same key.
    pub fn add_translations(&mut self, locale: &str, file_path: &str, t: &Translations)
        requires
            old(self).wf(),
            t.wf(),
        ensures
            final(self).wf(),
            TranslationStore::merged(old(self), final(self), locale@, file_path@, t@),
    {
        let li = match self.find_table(locale) {
            Some(i) => i,
            None => {
                let ghost before = self.tables@;
                self.tables.push(LocaleTable { locale: locale.to_owned(), entries: Vec::new() });
                proof {
                    assert(self.tables@.drop_last() =~= before);
                    assert(self.locales() =~= old(self).locales().push(locale@));
                    assert forall|i: int, j: int|
                        0 <= i < j < self.tables@.len() implies self.tables@[i].locale@
                        != self.tables@[j].locale@ by {
                        if j == self.tables@.len() - 1 {
                            assert(old(self).locales()[i] != locale@);
                        }
                    }
                }
                self.tables.len() - 1
            },
        };
        let ghost mid = *self;
        proof {
            assert(self.locales()[li as int] == locale@);
            if !old(self).locales().contains(locale@) {
                assert(self.table(li as int) =~= Map::empty());
            }
        }
        let mut table = self.tables.remove(li);
        let ghost old_map = entries_map(table.entries@);
        let ghost file = file_path@;
        let mut p: usize = 0;
        let n = t.pair_count();
        proof {
            t.lemma_view_is_pairs_map();
            t.lemma_view_pairs();
        }
        while p < n
            invariant
                n == t.pairs().len(),
                file == file_path@,
                p <= n,
                t.wf(),
                keys_unique(t.pairs()),
                table.locale@ == locale@,
                entry_keys_unique(table.entries@),
                forall|j: int|
                    0 <= j < table.entries@.len() ==> #[trigger] table.entries@[j].locale@ == locale@,
                forall|k: Seq<char>|
                    #[trigger] entries_map(table.entries@).contains_key(k) <==> (old_map.contains_key(
                        k,
                    ) || pairs_map(t.pairs().take(p as int)).contains_key(k)),
                forall|k: Seq<char>|
                    #[trigger] pairs_map(t.pairs().take(p as int)).contains_key(k) ==> {
                        let e = entries_map(table.entries@)[k];
                        &&& e.value@ == pairs_map(t.pairs().take(p as int))[k]
                        &&& e.file_path@ == file
                        &&& e.locale@ == locale@
                        &&& e.key@ == k
                        &&& e.line == 0
                    },
                forall|k: Seq<char>|
                    !pairs_map(t.pairs().take(p as int)).contains_key(k) && #[trigger] old_map.contains_key(
                        k,
                    ) ==> entries_map(table.entries@)[k] == old_map[k],
            decreases n - p,
        {
            let (k, v) = t.pair_at(p);
            let e = TranslationEntry {
                key: k.clone(),
                value: v.clone(),
                file_path: file_path.to_owned(),
                locale: locale.to_owned(),
                line: 0,
            };
            let ghost before = table.entries@;
            upsert(&mut table.entries, e);
            proof {
                assert(t.pairs().take(p + 1).drop_last() =~= t.pairs().take(p as int));
                assert(t.pairs().take(p + 1).last() == t.pairs()[p as int]);
                assert(pairs_map(t.pairs().take(p + 1)) == pairs_map(t.pairs().take(p as int)).insert(
                    k@,
                    v@,
                ));
                let pm0 = pairs_map(t.pairs().take(p as int));
                let pm1 = pairs_map(t.pairs().take(p + 1));
                assert forall|kk: Seq<char>| #[trigger] pm1.contains_key(kk) implies {
                    let x = entries_map(table.entries@)[kk];
                    &&& x.value@ == pm1[kk]
                    &&& x.file_path@ == file
                    &&& x.locale@ == locale@
                    &&& x.key@ == kk
                    &&& x.line == 0
                } by {
                    if kk == k@ {
                        assert(entries_map(table.entries@)[kk] == e);
                        assert(e.value@ == v@);
                        assert(pm1[kk] == v@);
                        assert(e.file_path@ == file);
                        assert(e.key@ == kk);
                    } else {
                        assert(pm0.contains_key(kk));
                        assert(entries_map(table.entries@)[kk] == entries_map(before)[kk]);
                    }
                }
                assert forall|j: int|
                    0 <= j < table.entries@.len() implies #[trigger] table.entries@[j].locale@
                    == locale@ by {
                    lemma_entries_at(table.entries@, j);
                    let kj = table.entries@[j].key@;
                    if kj != e.key@ {
                        assert(entries_map(before).contains_key(kj));
                        lemma_entries_dom(before, kj);
                        let jj = choose|jj: int| 0 <= jj < before.len() && before[jj].key@ == kj;
                        lemma_entries_at(before, jj);
                    }
                }
            }
            p += 1;
        }
        proof {
            assert(t.pairs().take(n as int) =~= t.pairs());
        }
        self.tables.insert(li, table);
        proof {
            assert(self.tables@ =~= mid.tables@.update(li as int, table));
            assert(self.locales() =~= mid.locales());
            assert forall|i: int|
                0 <= i < old(self).locales().len() && old(self).locales()[i] != locale@
                    implies #[trigger] self.table(i) == old(self).table(i) by {
                assert(i != li);
            }
            self.lemma_table_of(li as int);
            if old(self).locales().contains(locale@) {
                let j = choose|j: int| 0 <= j < old(self).locales().len() && old(self).locales()[j] == locale@;
                old(self).lemma_table_of(j);
                assert(j == li);
            } else {
                assert forall|k: Seq<char>| !#[trigger] old(self).table_of(locale@).contains_key(k) by {
                    if exists|i: int| 0 <= i < old(self).locales().len() && #[trigger] old(self).locales()[i] == locale@ {
                        let i = choose|i: int| 0 <= i < old(self).locales().len() && #[trigger] old(self).locales()[i] == locale@;
                        assert(old(self).locales().contains(locale@));
                    }
                }
            }
        }
    }

    /// Reads one file of a locale directory into the index. A file whose
    /// extension is not a resource extension, whose locale cannot be
    /// inferred, or whose text does not parse is skipped, leaving the index
    /// as it was; the result says whether the file was merged.
    pub fn load_file(
        &mut self,
        file_name: &str,
        parent_name: Option<&str>,
        file_path: &str,
        content: &str,
    ) -> (r: bool)
        requires
            old(self).wf(),
        ensures
            final(self).wf(),
            !r ==> *final(self) == *old(self),
            r <==> (resource_file(file_name@) && inferred_locale(file_name@, name_view(parent_name))
                is Some && parsed(content@, format_spec(file_name@)) is Ok),
            r ==> TranslationStore::merged(
                old(self),
                final(self),
                inferred_locale(file_name@, name_view(parent_name))->0,
                file_path@,
                parsed(content@, format_spec(file_name@))->Ok_0,
            ),
    {
        if !crate::locale::is_resource_file(file_name) {
            return false;
        }
        match extract_locale_from_path(file_name, parent_name) {
            None => false,
            Some(locale) => match TranslationParser::parse_file(file_name, content) {
                Ok(t) => {
                    self.add_translations(locale.as_str(), file_path, &t);
                    true
                },
                Err(_) => false,
            },
        }
    }

    /// Replaces the whole index by one built beside it. Readers see either
    /// the old index or the new one, never a partial or emptied state.
    pub fn reload(&mut self, fresh: TranslationStore)
        ensures
            *final(self) == fresh,
    {
        *self = fresh;
    }
}

impl TranslationStore {
    /// Where `key` is defined for `locale`: the file of its entry, and the
    /// line that the textual search of `location::find_key_line` picks in that
    /// file's content. No location when the locale lacks the key, when no
    /// content is given, or when no line matches.
    pub fn get_translation_location(
        &self,
        key: &str,
        locale: &str,
        file_content: Option<&str>,
    ) -> (r: Option<TranslationLocation>)
        requires
            self.wf(),
        ensures
            r is Some <==> (self.lookup(key@, locale@) is Some && (file_content matches Some(c)
                && key_line(c@, key@) is Some)),
            r matches Some(loc) ==> {
                &&& loc.file_path@ == self.table_of(locale@)[key@].file_path@
                &&& loc.locale@ == locale@
                &&& file_content matches Some(c) && key_line(c@, key@) == Some(loc.line as int)
            },
    {
        match self.get_entry(key, locale) {
            None => None,
            Some(e) => match file_content {
                Some(c) => match find_key_line(c, key) {
                    Some(line) => Some(
                        TranslationLocation { file_path: e.file_path, locale: e.locale, line },
                    ),
                    None => None,
                },
                None => None,
            },
        }
    }
}

proof fn lemma_missing_upto(store: &TranslationStore, key: Seq<char>, n: int)
    requires
        0 <= n <= store.locales().len(),
    ensures
        store.missing_upto(key, n).len() <= n,
        store.present_upto(key, n) <==> store.missing_upto(key, n).len() < n,
        !store.present_upto(key, n) ==> store.missing_upto(key, n) == store.locales().take(n),
    decreases n,
{
    if n > 0 {
        lemma_missing_upto(store, key, n - 1);
        if store.present_upto(key, n) && !store.table(n - 1).contains_key(key) {
            let i = choose|i: int| 0 <= i < n && #[trigger] store.table(i).contains_key(key);
            assert(store.present_upto(key, n - 1));
        }
        if store.present_upto(key, n - 1) {
            let i = choose|i: int| 0 <= i < n - 1 && #[trigger] store.table(i).contains_key(key);
            assert(store.table(i).contains_key(key));
        }
        if !store.present_upto(key, n) {
            assert(!store.table(n - 1).contains_key(key));
            assert(store.locales().take(n) =~= store.locales().take(n - 1).push(
                store.locales()[n - 1],
            ));
        }
    } else {
        assert(store.locales().take(0) =~= Seq::<Seq<char>>::empty());
    }
}

/// A key is present in some locale exactly when fewer locales lack it than
/// are loaded, and a key present in no locale is missing from every loaded
/// locale, in load order.
pub proof fn lemma_presence_and_missing(store: &TranslationStore, key: Seq<char>)
    ensures
        store.present(key) <==> store.missing(key).len() < store.locales().len(),
        !store.present(key) ==> store.missing(key) == store.locales(),
{
    let n = store.locales().len() as int;
    lemma_missing_upto(store, key, n);
    assert(store.locales().take(n) =~= store.locales());
    if store.present(key) {
        let i = choose|i: int| 0 <= i < n && #[trigger] store.table(i).contains_key(key);
        assert(store.present_upto(key, n));
    }
    if store.present_upto(key, n) {
        let i = choose|i: int| 0 <= i < n && #[trigger] store.table(i).contains_key(key);
        assert(store.present(key));
    }
}

proof fn lemma_missing_upto_members(store: &TranslationStore, key: Seq<char>, n: int)
    requires
        store.wf(),
        0 <= n <= store.locales().len(),
    ensures
        forall|l: Seq<char>|
            #[trigger] store.missing_upto(key, n).contains(l) <==> exists|i: int|
                0 <= i < n && store.locales()[i] == l && !store.table(i).contains_key(key),
        forall|a: int, b: int|
            0 <= a < b < store.missing_upto(key, n).len() ==> store.missing_upto(key, n)[a]
                != store.missing_upto(key, n)[b],
    decreases n,
{
    if n > 0 {
        lemma_missing_upto_members(store, key, n - 1);
        let prev = store.missing_upto(key, n - 1);
        let cur = store.missing_upto(key, n);
        assert forall|l: Seq<char>| #[trigger] cur.contains(l) <==> exists|i: int|
            0 <= i < n && store.locales()[i] == l && !store.table(i).contains_key(key) by {
            if cur.contains(l) {
                if prev.contains(l) {
                    let i = choose|i: int| 0 <= i < n - 1 && store.locales()[i] == l && !store.table(i).contains_key(key);
                } else {
                    let k = choose|k: int| 0 <= k < cur.len() && cur[k] == l;
                    assert(k == prev.len());
                }
            }
            if exists|i: int| 0 <= i < n && store.locales()[i] == l && !store.table(i).contains_key(key) {
                let i = choose|i: int| 0 <= i < n && store.locales()[i] == l && !store.table(i).contains_key(key);
                if i < n - 1 {
                    assert(prev.contains(l));
                    let k = choose|k: int| 0 <= k < prev.len() && prev[k] == l;
                    assert(cur[k] == l);
                } else {
                    assert(cur[cur.len() - 1] == l);
                }
            }
        }
        if !store.table(n - 1).contains_key(key) {
            assert forall|a: int, b: int| 0 <= a < b < cur.len() implies cur[a] != cur[b] by {
                if b == cur.len() - 1 {
                    assert(prev.contains(cur[a]));
                    assert(store.tables@[n - 1].locale@ == store.locales()[n - 1]);
                    let i = choose|i: int| 0 <= i < n - 1 && store.locales()[i] == cur[a] && !store.table(i).contains_key(key);
                    assert(store.tables@[i].locale@ == store.locales()[i]);
                }
            }
        }
    }
}

/// Loaded locale codes are distinct; so the locales that lack a key are
/// distinct too, and they are exactly the loaded locales whose table lacks it.
pub proof fn lemma_missing_distinct(store: &TranslationStore, key: Seq<char>)
    requires
        store.wf(),
    ensures
        forall|a: int, b: int|
            0 <= a < b < store.locales().len() ==> store.locales()[a] != store.locales()[b],
        forall|a: int, b: int|
            0 <= a < b < store.missing(key).len() ==> store.missing(key)[a] != store.missing(key)[b],
        forall|l: Seq<char>|
            #[trigger] store.missing(key).contains(l) <==> exists|i: int|
                0 <= i < store.locales().len() && store.locales()[i] == l && !store.table(i).contains_key(key),
{
    assert forall|a: int, b: int| 0 <= a < b < store.locales().len() implies store.locales()[a]
        != store.locales()[b] by {
        assert(store.tables@[a].locale@ == store.locales()[a]);
        assert(store.tables@[b].locale@ == store.locales()[b]);
    }
    lemma_missing_upto_members(store, key, store.locales().len() as int);
}

/// Stores `e` under its key, replacing an earlier entry for that key.
fn upsert(entries: &mut Vec<TranslationEntry>, e: TranslationEntry)
    requires
        entry_keys_unique(old(entries)@),
    ensures
        entry_keys_unique(final(entries)@),
        entries_map(final(entries)@) == entries_map(old(entries)@).insert(e.key@, e),
{
    let mut j: usize = 0;
    while j < entries.len()
        invariant
            entries@ == old(entries)@,
            entry_keys_unique(entries@),
            forall|k: int| 0 <= k < j ==> entries@[k].key@ != e.key@,
        decreases entries.len() - j,
    {
        if entries[j].key == e.key {
            proof {
                lemma_entries_update(entries@, j as int, e);
            }
            entries.set(j, e);
            return;
        }
        j += 1;
    }
    proof {
        lemma_entries_dom(entries@, e.key@);
        lemma_entries_push(entries@, e);
    }
    entries.push(e);
}

/// The texts of a sequence of strings.
pub open spec fn string_views(v: Seq<String>) -> Seq<Seq<char>> {
    v.map_values(|s: String| s@)
}

/// The locales named by a sequence of entries.
pub open spec fn entry_locales(v: Seq<TranslationEntry>) -> Seq<Seq<char>> {
    v.map_values(|e: TranslationEntry| e.locale@)
}

/// Whether some string in `r` reads `k`.
pub open spec fn shown(r: Seq<String>, k: Seq<char>) -> bool {
    exists|x: int| 0 <= x < r.len() && r[x]@ == k
}

/// Whether one of the first `j` entries has key `k`.
pub open spec fn key_among(entries: Seq<TranslationEntry>, j: int, k: Seq<char>) -> bool {
    exists|y: int| 0 <= y < j && entries[y].key@ == k
}

} // verus!
