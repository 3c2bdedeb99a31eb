//! Editor features built on the index and the key finder: hover text,
//! completion candidates and the prefix they complete, and inlay hints.
use vstd::prelude::*;
use vstd::string::StringSliceAdditionalSpecFns;
use crate::key_finder::FoundKey;
use crate::store::{TranslationEntry, TranslationStore};
use crate::text::{chars_of, occurs_at, string_of};

verus! {

broadcast use vstd::std_specs::vec::group_vec_axioms, vstd::seq::group_seq_axioms;

/// At most `max_chars` characters of `s`: `s` itself when it fits, else its
/// first `max_chars - 3` characters (none if that is negative) and `...`.
pub open spec fn truncated(s: Seq<char>, max_chars: nat) -> Seq<char> {
    if s.len() <= max_chars {
        s
    } else if max_chars >= 3 {
        s.take(max_chars - 3) + "..."@
    } else {
        "..."@
    }
}

fn push_all(v: &mut Vec<char>, s: &Vec<char>)
    ensures
        final(v)@ == old(v)@ + s@,
{
    let ghost start = v@;
    let mut i: usize = 0;
    while i < s.len()
        invariant
            i <= s.len(),
            v@ == start + s@.take(i as int),
        decreases s.len() - i,
    {
        v.push(s[i]);
        i += 1;
        assert(v@ =~= start + s@.take(i as int));
    }
    assert(s@.take(s@.len() as int) =~= s@);
}

fn push_str(v: &mut Vec<char>, s: &str)
    ensures
        final(v)@ == old(v)@ + s@,
{
    let c = chars_of(s);
    push_all(v, &c);
}

fn take_chars(s: &Vec<char>, n: usize) -> (r: Vec<char>)
    requires
        n <= s.len(),
    ensures
        r@ == s@.take(n as int),
{
    let mut r: Vec<char> = Vec::new();
    let mut i: usize = 0;
    while i < n
        invariant
            i <= n <= s.len(),
            r@ == s@.take(i as int),
        decreases n - i,
    {
        r.push(s[i]);
        i += 1;
        assert(r@ =~= s@.take(i as int));
    }
    r
}

/// Shortens a text for display to at most `max_chars` characters.
pub fn truncate_string(s: &str, max_chars: usize) -> (r: String)
    ensures
        r@ == truncated(s@, max_chars as nat),
{
    let c = chars_of(s);
    if c.len() <= max_chars {
        return string_of(&c);
    }
    let keep = if max_chars >= 3 {
        max_chars - 3
    } else {
        0
    };
    let mut r = take_chars(&c, keep);
    push_str(&mut r, "...");
    if max_chars < 3 {
        assert(c@.take(0) =~= Seq::<char>::empty());
        assert(r@ =~= "..."@);
    }
    string_of(&r)
}

/// The text of an inlay hint for a translation.
pub open spec fn hint_label(translation: Seq<char>) -> Seq<char> {
    "= "@ + truncated(translation, 30)
}

/// The label shown after a key: `= ` and the translation, shortened to 30 characters.
pub fn inlay_hint_label(translation: &str) -> (r: String)
    ensures
        r@ == hint_label(translation@),
{
    let t = truncate_string(translation, 30);
    let mut r: Vec<char> = Vec::new();
    push_str(&mut r, "= ");
    push_str(&mut r, t.as_str());
    string_of(&r)
}

/// Where an inlay hint goes on a line: just past the key, and past its
/// closing quote when one follows (`end_char` counts bytes).
pub fn hint_column(line: &str, end_char: usize) -> (r: usize)
    ensures
        r == if end_char < line.spec_bytes().len() && (line.spec_bytes()[end_char as int] == 39u8
            || line.spec_bytes()[end_char as int] == 34u8) {
            end_char + 1
        } else {
            end_char as int
        },
{
    let b = line.as_bytes();
    if end_char < b.len() && (b[end_char] == 39u8 || b[end_char] == 34u8) {
        end_char + 1
    } else {
        end_char
    }
}

/// Whether position `(l1, c1)` comes no later than `(l2, c2)`.
pub open spec fn position_leq(l1: usize, c1: usize, l2: usize, c2: usize) -> bool {
    l1 < l2 || (l1 == l2 && c1 <= c2)
}

/// Whether the span from `(line, start)` to `(line, end)` overlaps the range
/// from `(rs_line, rs_char)` to `(re_line, re_char)`, ends included.
pub fn ranges_overlap(
    line: usize,
    start: usize,
    end: usize,
    rs_line: usize,
    rs_char: usize,
    re_line: usize,
    re_char: usize,
) -> (r: bool)
    ensures
        r == (position_leq(rs_line, rs_char, line, end) && position_leq(line, start, re_line, re_char)),
{
    let a = rs_line < line || (rs_line == line && rs_char <= end);
    let b = line < re_line || (line == re_line && start <= re_char);
    a && b
}

/// Whether a found key lies in a requested range (`None`: the whole text),
/// ends included.
pub open spec fn in_range(fk: FoundKey, range: Option<(usize, usize, usize, usize)>) -> bool {
    match range {
        None => true,
        Some(r) => position_leq(r.0, r.1, fk.line, fk.end_char) && position_leq(
            fk.line,
            fk.start_char,
            r.2,
            r.3,
        ),
    }
}

/// The found keys that get an inlay hint: those in range whose key has a
/// translation in the source locale, in order.
pub open spec fn hinted(
    store: TranslationStore,
    source: Seq<char>,
    range: Option<(usize, usize, usize, usize)>,
    found: Seq<FoundKey>,
) -> Seq<FoundKey>
    decreases found.len(),
{
    if found.len() == 0 {
        Seq::empty()
    } else {
        let rest = hinted(store, source, range, found.drop_last());
        let fk = found.last();
        if in_range(fk, range) && store.lookup(fk.key@, source) is Some {
            rest.push(fk)
        } else {
            rest
        }
    }
}

/// The column of a key's hint: just past the key, and past its closing
/// quote when one follows it in the text's bytes `b`.
pub open spec fn hint_column_at(b: Seq<u8>, fk: FoundKey) -> int {
    if fk.end_offset < b.len() && (b[fk.end_offset as int] == 39u8 || b[fk.end_offset as int]
        == 34u8) && fk.end_char < usize::MAX {
        fk.end_char + 1
    } else {
        fk.end_char as int
    }
}

/// An inlay hint to show: where it goes and its text.
pub struct HintSpot {
    pub line: usize,
    pub column: usize,
    pub label: String,
}

/// Whether `h` is the hint of found key `fk`.
pub open spec fn shows(
    store: TranslationStore,
    source: Seq<char>,
    b: Seq<u8>,
    fk: FoundKey,
    h: HintSpot,
) -> bool {
    &&& h.line == fk.line
    &&& h.column == hint_column_at(b, fk)
    &&& h.label@ == hint_label(store.lookup(fk.key@, source)->0)
}

/// The inlay hints of a document's found keys: for each key in range with a
/// translation in the source locale, that translation after the key.
pub fn inlay_hints(
    found: &Vec<FoundKey>,
    store: &TranslationStore,
    source_locale: &str,
    content: &str,
    range: Option<(usize, usize, usize, usize)>,
) -> (r: Vec<HintSpot>)
    requires
        store.wf(),
    ensures
        r@.len() == hinted(*store, source_locale@, range, found@).len(),
        forall|i: int|
            0 <= i < r@.len() ==> shows(
                *store,
                source_locale@,
                content.spec_bytes(),
                hinted(*store, source_locale@, range, found@)[i],
                #[trigger] r@[i],
            ),
{
    let b = content.as_bytes();
    let mut r: Vec<HintSpot> = Vec::new();
    let mut i: usize = 0;
    while i < found.len()
        invariant
            store.wf(),
            i <= found.len(),
            b@ == content.spec_bytes(),
            r@.len() == hinted(*store, source_locale@, range, found@.take(i as int)).len(),
            forall|j: int|
                0 <= j < r@.len() ==> shows(
                    *store,
                    source_locale@,
                    content.spec_bytes(),
                    hinted(*store, source_locale@, range, found@.take(i as int))[j],
                    #[trigger] r@[j],
                ),
        decreases found.len() - i,
    {
        let ghost before = r@;
        assert(found@.take(i + 1).drop_last() =~= found@.take(i as int));
        assert(found@.take(i + 1).last() == found@[i as int]);
        let fk = &found[i];
        let wanted = match range {
            None => true,
            Some(rg) => ranges_overlap(fk.line, fk.start_char, fk.end_char, rg.0, rg.1, rg.2, rg.3),
        };
        if wanted {
            match store.get_translation(fk.key.as_str(), source_locale) {
                Some(t) => {
                    let column = if fk.end_offset < b.len() && (b[fk.end_offset] == 39u8
                        || b[fk.end_offset] == 34u8) && fk.end_char < usize::MAX {
                        fk.end_char + 1
                    } else {
                        fk.end_char
                    };
                    r.push(HintSpot { line: fk.line, column, label: inlay_hint_label(t.as_str()) });
                    assert forall|j: int| 0 <= j < r@.len() implies shows(
                        *store,
                        source_locale@,
                        content.spec_bytes(),
                        hinted(*store, source_locale@, range, found@.take(i + 1))[j],
                        #[trigger] r@[j],
                    ) by {
                        if j < before.len() {
                            assert(r@[j] == before[j]);
                        }
                    }
                },
                None => {},
            }
        }
        i += 1;
    }
    assert(found@.take(found@.len() as int) =~= found@);
    r
}

/// The latest index at or before `at` where `p` occurs in `t`.
pub open spec fn last_occurrence_from(t: Seq<char>, p: Seq<char>, at: int) -> Option<int>
    decreases at + 1,
{
    if at < 0 {
        None
    } else if occurs_at(t, p, at) {
        Some(at)
    } else {
        last_occurrence_from(t, p, at - 1)
    }
}

/// What follows the last occurrence of `p` in `t`, if it holds no quote.
pub open spec fn after_last(t: Seq<char>, p: Seq<char>) -> Option<Seq<char>> {
    match last_occurrence_from(t, p, t.len() as int) {
        Some(at) => {
            let rest = t.subrange(at + p.len(), t.len() as int);
            if rest.contains('"') || rest.contains('\'') {
                None
            } else {
                Some(rest)
            }
        },
        None => None,
    }
}

/// The openings of a translation call that completion looks for.
pub open spec fn call_openings() -> Seq<Seq<char>> {
    seq!["t(\""@, "t('"@, "$t(\""@, "$t('"@, "i18n.t(\""@, "i18n.t('"@]
}

/// The key prefix typed so far: for the first opening (in the order of
/// `call_openings`) whose last occurrence before the cursor is followed by
/// no quote, the text after it.
pub open spec fn completion_prefix(before: Seq<char>, k: int) -> Option<Seq<char>>
    decreases call_openings().len() - k,
{
    if k < 0 || k >= call_openings().len() {
        None
    } else {
        match after_last(before, call_openings()[k]) {
            Some(rest) => Some(rest),
            None => completion_prefix(before, k + 1),
        }
    }
}

fn last_occurrence(t: &Vec<char>, p: &Vec<char>) -> (r: Option<usize>)
    ensures
        match r {
            Some(at) => last_occurrence_from(t@, p@, t@.len() as int) == Some(at as int)
                && occurs_at(t@, p@, at as int),
            None => last_occurrence_from(t@, p@, t@.len() as int) is None,
        },
{
    let mut at: usize = t.len();
    loop
        invariant
            at <= t.len(),
            last_occurrence_from(t@, p@, t@.len() as int) == last_occurrence_from(t@, p@, at as int),
        decreases at,
    {
        if crate::text::matches_at(t, p, at) {
            return Some(at);
        }
        if at == 0 {
            return None;
        }
        at -= 1;
    }
}

fn has_quote(t: &Vec<char>, from: usize) -> (r: bool)
    requires
        from <= t.len(),
    ensures
        r == (t@.subrange(from as int, t@.len() as int).contains('"') || t@.subrange(
            from as int,
            t@.len() as int,
        ).contains('\'')),
{
    let ghost rest = t@.subrange(from as int, t@.len() as int);
    let mut i = from;
    while i < t.len()
        invariant
            from <= i <= t.len(),
            rest == t@.subrange(from as int, t@.len() as int),
            forall|j: int| from <= j < i ==> t@[j] != '"' && t@[j] != '\'',
        decreases t.len() - i,
    {
        if t[i] == '"' || t[i] == '\'' {
            assert(rest[i - from] == t@[i as int]);
            return true;
        }
        i += 1;
    }
    assert forall|j: int| 0 <= j < rest.len() implies rest[j] != '"' && rest[j] != '\'' by {
        assert(rest[j] == t@[from + j]);
    }
    false
}

/// The key prefix being typed at `character` (a character count) on
/// `line`, when the cursor sits inside a translation call's string.
pub fn extract_completion_prefix(line: &str, character: usize) -> (r: Option<String>)
    ensures
        match r {
            Some(p) => completion_prefix(line@.take(min_len(character, line@.len())), 0) == Some(p@),
            None => completion_prefix(line@.take(min_len(character, line@.len())), 0) is None,
        },
{
    let all = chars_of(line);
    let n = if character < all.len() {
        character
    } else {
        all.len()
    };
    let before = take_chars(&all, n);
    let openings = vec![
        chars_of("t(\""),
        chars_of("t('"),
        chars_of("$t(\""),
        chars_of("$t('"),
        chars_of("i18n.t(\""),
        chars_of("i18n.t('"),
    ];
    let ghost views = openings@.map_values(|v: Vec<char>| v@);
    assert(views =~= call_openings());
    let mut k: usize = 0;
    while k < openings.len()
        invariant
            k <= openings.len(),
            before@ == line@.take(min_len(character, line@.len())),
            openings@.len() == call_openings().len(),
            forall|i: int| 0 <= i < openings@.len() ==> #[trigger] openings@[i]@ == call_openings()[i],
            completion_prefix(before@, 0) == completion_prefix(before@, k as int),
        decreases openings.len() - k,
    {
        assert(openings@[k as int]@ == call_openings()[k as int]);
        match last_occurrence(&before, &openings[k]) {
            Some(at) => {
                let from = at + openings[k].len();
                if !has_quote(&before, from) {
                    let mut rest: Vec<char> = Vec::new();
                    let mut i = from;
                    while i < before.len()
                        invariant
                            from <= i <= before.len(),
                            rest@ == before@.subrange(from as int, i as int),
                        decreases before.len() - i,
                    {
                        rest.push(before[i]);
                        i += 1;
                        assert(rest@ =~= before@.subrange(from as int, i as int));
                    }
                    assert(after_last(before@, call_openings()[k as int]) == Some(rest@));
                    return Some(string_of(&rest));
                }
            },
            None => {},
        }
        k += 1;
    }
    None
}

/// The smaller of two lengths.
pub open spec fn min_len(a: usize, b: nat) -> int {
    if (a as nat) < b {
        a as int
    } else {
        b as int
    }
}

/// The keys among `keys` that start with `prefix`, in order.
pub open spec fn starting_with(keys: Seq<String>, prefix: Seq<char>) -> Seq<String>
    decreases keys.len(),
{
    if keys.len() == 0 {
        Seq::empty()
    } else if occurs_at(keys.last()@, prefix, 0) {
        starting_with(keys.drop_last(), prefix).push(keys.last())
    } else {
        starting_with(keys.drop_last(), prefix)
    }
}

/// The most completion candidates offered at once.
pub const MAX_COMPLETIONS: usize = 100;

/// Completion candidates: the keys that start with `prefix` (all keys for
/// an empty prefix), in order, at most `MAX_COMPLETIONS` of them.
pub fn completion_keys(keys: &Vec<String>, prefix: &str) -> (r: Vec<String>)
    ensures
        r@ == (if starting_with(keys@, prefix@).len() <= MAX_COMPLETIONS {
            starting_with(keys@, prefix@)
        } else {
            starting_with(keys@, prefix@).take(MAX_COMPLETIONS as int)
        }),
{
    let p = chars_of(prefix);
    let mut r: Vec<String> = Vec::new();
    let mut i: usize = 0;
    while i < keys.len() && r.len() < MAX_COMPLETIONS
        invariant
            i <= keys.len(),
            p@ == prefix@,
            r@.len() <= MAX_COMPLETIONS,
            r@.len() < MAX_COMPLETIONS ==> r@ == starting_with(keys@.take(i as int), prefix@),
            r@.len() == MAX_COMPLETIONS ==> r@ == starting_with(keys@.take(i as int), prefix@).take(
                MAX_COMPLETIONS as int,
            ) || r@ == starting_with(keys@.take(i as int), prefix@),
            starting_with(keys@.take(i as int), prefix@).len() >= r@.len(),
        decreases keys.len() - i,
    {
        let ghost t = keys@.take(i + 1);
        assert(t.drop_last() =~= keys@.take(i as int));
        assert(t.last() == keys@[i as int]);
        let k = chars_of(keys[i].as_str());
        if crate::text::matches_at(&k, &p, 0) {
            r.push(keys[i].clone());
        }
        i += 1;
    }
    proof {
        lemma_starting_with_len(keys@, prefix@, i as int);
        if i == keys.len() {
            assert(keys@.take(i as int) =~= keys@);
        }
    }
    r
}

proof fn lemma_starting_with_len(keys: Seq<String>, prefix: Seq<char>, i: int)
    requires
        0 <= i <= keys.len(),
    ensures
        starting_with(keys.take(i), prefix).len() <= starting_with(keys, prefix).len(),
        starting_with(keys.take(i), prefix) == starting_with(keys, prefix).take(
            starting_with(keys.take(i), prefix).len() as int,
        ),
    decreases keys.len() - i,
{
    if i < keys.len() {
        lemma_starting_with_len(keys, prefix, i + 1);
        let t = keys.take(i + 1);
        assert(t.drop_last() =~= keys.take(i));
        let a = starting_with(keys.take(i), prefix);
        let b = starting_with(t, prefix);
        let c = starting_with(keys, prefix);
        assert(a =~= c.take(a.len() as int)) by {
            assert(a =~= b.take(a.len() as int));
        }
    } else {
        assert(keys.take(i) =~= keys);
        let c = starting_with(keys, prefix);
        assert(c.take(c.len() as int) =~= c);
    }
}

/// One locale's line of a hover: `**locale**: text` and a blank line.
pub open spec fn locale_line(locale: Seq<char>, value: Seq<char>) -> Seq<char> {
    "**"@ + locale + "**: "@ + value + "\n\n"@
}

/// The line of the first entry in the source locale, if any.
pub open spec fn source_part(entries: Seq<TranslationEntry>, source: Seq<char>) -> Seq<char>
    decreases entries.len(),
{
    if entries.len() == 0 {
        Seq::empty()
    } else if entries[0].locale@ == source {
        locale_line(source, entries[0].value@)
    } else {
        source_part(entries.drop_first(), source)
    }
}

/// The lines of the entries in other locales, in order.
pub open spec fn other_parts(entries: Seq<TranslationEntry>, source: Seq<char>) -> Seq<char>
    decreases entries.len(),
{
    if entries.len() == 0 {
        Seq::empty()
    } else if entries.last().locale@ != source {
        other_parts(entries.drop_last(), source) + locale_line(entries.last().locale@, entries.last().value@)
    } else {
        other_parts(entries.drop_last(), source)
    }
}

/// The hover text of a key: a heading, the source locale's translation,
/// a rule, then every other locale's translation; none without translations.
pub open spec fn hover_text(key: Seq<char>, entries: Seq<TranslationEntry>, source: Seq<char>) -> Option<Seq<char>> {
    if entries.len() == 0 {
        None
    } else {
        Some("### \u{1F310} `"@ + key + "`\n\n"@ + source_part(entries, source) + "---\n\n"@ + other_parts(entries, source))
    }
}

fn push_locale_line(v: &mut Vec<char>, locale: &String, value: &String)
    ensures
        final(v)@ == old(v)@ + locale_line(locale@, value@),
{
    push_str(v, "**");
    push_str(v, locale.as_str());
    push_str(v, "**: ");
    push_str(v, value.as_str());
    push_str(v, "\n\n");
    assert(final(v)@ =~= old(v)@ + locale_line(locale@, value@));
}

/// The hover text for `key` from its translations (as the index lists them).
pub fn get_hover_content(key: &str, translations: &Vec<TranslationEntry>, source_locale: &str) -> (r: Option<String>)
    ensures
        match r {
            Some(t) => hover_text(key@, translations@, source_locale@) == Some(t@),
            None => hover_text(key@, translations@, source_locale@) is None,
        },
{
    if translations.len() == 0 {
        return None;
    }
    let mut v: Vec<char> = Vec::new();
    push_str(&mut v, "### \u{1F310} `");
    push_str(&mut v, key);
    push_str(&mut v, "`\n\n");
    let ghost head = v@;
    let ghost es = translations@;
    let mut i: usize = 0;
    let mut found = false;
    assert(es.subrange(0, es.len() as int) =~= es);
    while i < translations.len()
        invariant
            i <= translations.len(),
            es == translations@,
            !found ==> v@ == head,
            !found ==> source_part(es, source_locale@) == source_part(
                es.subrange(i as int, es.len() as int),
                source_locale@,
            ),
            found ==> v@ == head + source_part(es, source_locale@),
        decreases translations.len() - i,
    {
        let ghost rest = es.subrange(i as int, es.len() as int);
        assert(rest.drop_first() =~= es.subrange(i + 1, es.len() as int));
        assert(rest[0] == es[i as int]);
        if !found && crate::text::same_text(&translations[i].locale, source_locale) {
            assert(source_part(rest, source_locale@) == locale_line(
                source_locale@,
                es[i as int].value@,
            ));
            push_locale_line(&mut v, &translations[i].locale, &translations[i].value);
            found = true;
        }
        i += 1;
    }
    if !found {
        let ghost e = es.subrange(es.len() as int, es.len() as int);
        assert(e.len() == 0);
        assert(source_part(e, source_locale@) == Seq::<char>::empty());
        assert(v@ =~= head + source_part(es, source_locale@));
    }
    push_str(&mut v, "---\n\n");
    let ghost mid = v@;
    let mut j: usize = 0;
    assert(es.take(0) =~= Seq::<TranslationEntry>::empty());
    while j < translations.len()
        invariant
            j <= translations.len(),
            es == translations@,
            v@ == mid + other_parts(es.take(j as int), source_locale@),
        decreases translations.len() - j,
    {
        let ghost t = es.take(j + 1);
        assert(t.drop_last() =~= es.take(j as int));
        assert(t.last() == es[j as int]);
        if !crate::text::same_text(&translations[j].locale, source_locale) {
            let ghost before = v@;
            push_locale_line(&mut v, &translations[j].locale, &translations[j].value);
            assert(v@ =~= mid + other_parts(t, source_locale@));
        }
        j += 1;
    }
    assert(es.take(es.len() as int) =~= es);
    assert(v@ =~= "### \u{1F310} `"@ + key@ + "`\n\n"@ + source_part(es, source_locale@) + "---\n\n"@ + other_parts(es, source_locale@));
    Some(string_of(&v))
}

} // verus!
