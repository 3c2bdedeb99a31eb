//! Classifying each usage of a key against the translation index.
//!
//! A usage whose key no locale has is a missing translation (a warning); one
//! whose key some but not all locales have is an incomplete translation (a
//! hint, naming the locales that lack it); one whose key every locale has
//! needs no diagnostic.
use vstd::prelude::*;
use crate::key_finder::FoundKey;
use crate::store::{lemma_presence_and_missing, string_views, TranslationStore};
use crate::text::{chars_of, string_of};

verus! {

broadcast use vstd::std_specs::vec::group_vec_axioms, vstd::seq::group_seq_axioms;

/// What a diagnostic reports.
#[derive(Clone, Copy, PartialEq, Eq, Structural, Debug)]
pub enum DiagnosticKind {
    /// No locale has the key.
    MissingTranslation,
    /// Some locales lack the key.
    IncompleteTranslation,
}

/// How serious a diagnostic is.
#[derive(Clone, Copy, PartialEq, Eq, Structural, Debug)]
pub enum Severity {
    Warning,
    Hint,
}

/// A diagnostic for one usage of a key.
pub struct KeyDiagnostic {
    pub kind: DiagnosticKind,
    pub severity: Severity,
    pub line: usize,
    pub start_char: usize,
    pub end_char: usize,
    pub key: String,
    /// The locales that lack the key, in load order; empty for a missing key.
    pub missing_locales: Vec<String>,
    pub message: String,
}

/// `parts` joined with `sep` between them.
pub open spec fn join(parts: Seq<Seq<char>>, sep: Seq<char>) -> Seq<char>
    decreases parts.len(),
{
    if parts.len() == 0 {
        Seq::empty()
    } else if parts.len() == 1 {
        parts[0]
    } else {
        join(parts.drop_last(), sep) + sep + parts.last()
    }
}

/// The message of a missing translation.
pub open spec fn missing_message(key: Seq<char>) -> Seq<char> {
    "Translation key '"@ + key + "' not found"@
}

/// The message of an incomplete translation.
pub open spec fn incomplete_message(key: Seq<char>, missing: Seq<Seq<char>>) -> Seq<char> {
    "Translation '"@ + key + "' missing in: "@ + join(missing, ", "@)
}

/// Whether a usage needs a diagnostic: no locale has its key, or some
/// locale lacks it.
pub open spec fn needs_diagnostic(store: TranslationStore, fk: FoundKey) -> bool {
    !store.present(fk.key@) || store.missing(fk.key@).len() > 0
}

/// Whether `d` is the diagnostic of usage `fk` against `store`.
pub open spec fn diagnoses(store: TranslationStore, fk: FoundKey, d: KeyDiagnostic) -> bool {
    &&& d.line == fk.line
    &&& d.start_char == fk.start_char
    &&& d.end_char == fk.end_char
    &&& d.key@ == fk.key@
    &&& if !store.present(fk.key@) {
        &&& d.kind == DiagnosticKind::MissingTranslation
        &&& d.severity == Severity::Warning
        &&& d.missing_locales@.len() == 0
        &&& d.message@ == missing_message(fk.key@)
    } else {
        &&& d.kind == DiagnosticKind::IncompleteTranslation
        &&& d.severity == Severity::Hint
        &&& string_views(d.missing_locales@) == store.missing(fk.key@)
        &&& d.message@ == incomplete_message(fk.key@, store.missing(fk.key@))
    }
}

/// The usages among `found` that need a diagnostic, in order.
pub open spec fn flagged(store: TranslationStore, found: Seq<FoundKey>) -> Seq<FoundKey>
    decreases found.len(),
{
    if found.len() == 0 {
        Seq::empty()
    } else if needs_diagnostic(store, found.last()) {
        flagged(store, found.drop_last()).push(found.last())
    } else {
        flagged(store, found.drop_last())
    }
}

impl KeyDiagnostic {
    /// The diagnostic's code: `missing-translation` or `incomplete-translation`.
    pub fn code(&self) -> (r: String)
        ensures
            self.kind == DiagnosticKind::MissingTranslation ==> r@ == "missing-translation"@,
            self.kind == DiagnosticKind::IncompleteTranslation ==> r@ == "incomplete-translation"@,
    {
        match self.kind {
            DiagnosticKind::MissingTranslation => "missing-translation".to_owned(),
            DiagnosticKind::IncompleteTranslation => "incomplete-translation".to_owned(),
        }
    }
}

fn append_str(v: &mut Vec<char>, s: &str)
    ensures
        final(v)@ == old(v)@ + s@,
{
    let c = chars_of(s);
    let ghost start = v@;
    let mut i: usize = 0;
    while i < c.len()
        invariant
            i <= c.len(),
            v@ == start + c@.take(i as int),
        decreases c.len() - i,
    {
        v.push(c[i]);
        i += 1;
        assert(v@ =~= start + c@.take(i as int));
    }
    assert(c@.take(c@.len() as int) =~= c@);
}

fn join_strings(parts: &Vec<String>, sep: &str) -> (r: Vec<char>)
    ensures
        r@ == join(string_views(parts@), sep@),
{
    let mut r: Vec<char> = Vec::new();
    let mut i: usize = 0;
    while i < parts.len()
        invariant
            i <= parts.len(),
            r@ == join(string_views(parts@.take(i as int)), sep@),
        decreases parts.len() - i,
    {
        let ghost before = r@;
        let ghost t = string_views(parts@.take(i + 1));
        assert(t.drop_last() =~= string_views(parts@.take(i as int)));
        assert(t.last() == parts@[i as int]@);
        if i > 0 {
            append_str(&mut r, sep);
        } else {
            assert(t =~= seq![parts@[0]@]);
        }
        append_str(&mut r, parts[i].as_str());
        i += 1;
    }
    assert(parts@.take(parts@.len() as int) =~= parts@);
    r
}

/// The diagnostic for one usage, if it needs one.
pub fn classify(found: &FoundKey, store: &TranslationStore) -> (r: Option<KeyDiagnostic>)
    requires
        store.wf(),
    ensures
        r is Some <==> needs_diagnostic(*store, *found),
        r matches Some(d) ==> diagnoses(*store, *found, d),
{
    proof {
        lemma_presence_and_missing(store, found.key@);
    }
    let key = found.key.as_str();
    if !store.key_exists(key) {
        let mut m: Vec<char> = Vec::new();
        append_str(&mut m, "Translation key '");
        append_str(&mut m, key);
        append_str(&mut m, "' not found");
        return Some(
            KeyDiagnostic {
                kind: DiagnosticKind::MissingTranslation,
                severity: Severity::Warning,
                line: found.line,
                start_char: found.start_char,
                end_char: found.end_char,
                key: found.key.clone(),
                missing_locales: Vec::new(),
                message: string_of(&m),
            },
        );
    }
    let missing = store.get_missing_locales(key);
    if missing.len() == 0 {
        return None;
    }
    let mut m: Vec<char> = Vec::new();
    append_str(&mut m, "Translation '");
    append_str(&mut m, key);
    append_str(&mut m, "' missing in: ");
    let joined = join_strings(&missing, ", ");
    let ghost before = m@;
    let mut i: usize = 0;
    while i < joined.len()
        invariant
            i <= joined.len(),
            m@ == before + joined@.take(i as int),
        decreases joined.len() - i,
    {
        m.push(joined[i]);
        i += 1;
        assert(m@ =~= before + joined@.take(i as int));
    }
    assert(joined@.take(joined@.len() as int) =~= joined@);
    Some(
        KeyDiagnostic {
            kind: DiagnosticKind::IncompleteTranslation,
            severity: Severity::Hint,
            line: found.line,
            start_char: found.start_char,
            end_char: found.end_char,
            key: found.key.clone(),
            missing_locales: missing,
            message: string_of(&m),
        },
    )
}

/// The diagnostics of a document's usages, in the usages' order: one for
/// each usage whose key some locale lacks, none for the others.
pub fn compute_diagnostics(found: &Vec<FoundKey>, store: &TranslationStore) -> (r: Vec<
    KeyDiagnostic,
>)
    requires
        store.wf(),
    ensures
        r@.len() == flagged(*store, found@).len(),
        forall|i: int|
            0 <= i < r@.len() ==> diagnoses(*store, flagged(*store, found@)[i], #[trigger] r@[i]),
{
    let mut r: Vec<KeyDiagnostic> = Vec::new();
    let mut i: usize = 0;
    while i < found.len()
        invariant
            store.wf(),
            i <= found.len(),
            r@.len() == flagged(*store, found@.take(i as int)).len(),
            forall|j: int|
                0 <= j < r@.len() ==> diagnoses(
                    *store,
                    flagged(*store, found@.take(i as int))[j],
                    #[trigger] r@[j],
                ),
        decreases found.len() - i,
    {
        let ghost before = r@;
        assert(found@.take(i + 1).drop_last() =~= found@.take(i as int));
        assert(found@.take(i + 1).last() == found@[i as int]);
        match classify(&found[i], store) {
            Some(d) => {
                r.push(d);
                assert forall|j: int| 0 <= j < r@.len() implies diagnoses(
                    *store,
                    flagged(*store, found@.take(i + 1))[j],
                    #[trigger] r@[j],
                ) by {
                    if j < before.len() {
                        assert(r@[j] == before[j]);
                    }
                }
            },
            None => {},
        }
        i += 1;
    }
    assert(found@.take(found@.len() as int) =~= found@);
    r
}

/// For a single usage: a key in no locale gets exactly one diagnostic, a
/// missing translation over the usage's exact range; a key in every loaded
/// locale gets none; a key in some but not all locales gets exactly one, an
/// incomplete translation listing precisely the locales that lack it.
pub proof fn lemma_single_usage(store: TranslationStore, fk: FoundKey, d: Seq<KeyDiagnostic>)
    requires
        d.len() == flagged(store, seq![fk]).len(),
        forall|i: int| 0 <= i < d.len() ==> diagnoses(store, flagged(store, seq![fk])[i], #[trigger] d[i]),
    ensures
        !store.present(fk.key@) ==> d.len() == 1 && d[0].kind
            == DiagnosticKind::MissingTranslation && d[0].line == fk.line && d[0].start_char
            == fk.start_char && d[0].end_char == fk.end_char,
        store.present(fk.key@) && store.missing(fk.key@).len() == 0 ==> d.len() == 0,
        store.present(fk.key@) && store.missing(fk.key@).len() > 0 ==> d.len() == 1 && d[0].kind
            == DiagnosticKind::IncompleteTranslation && string_views(d[0].missing_locales@)
            == store.missing(fk.key@),
{
    lemma_presence_and_missing(&store, fk.key@);
    let s = seq![fk];
    assert(s.drop_last() =~= Seq::<FoundKey>::empty());
    assert(s.last() == fk);
    assert(flagged(store, s.drop_last()) == Seq::<FoundKey>::empty());
    if needs_diagnostic(store, fk) {
        assert(flagged(store, s) =~= seq![fk]);
        assert(diagnoses(store, fk, d[0]));
    } else {
        assert(flagged(store, s) =~= Seq::<FoundKey>::empty());
    }
}

} // verus!
