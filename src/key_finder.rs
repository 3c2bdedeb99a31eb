//! Finding usages of translation keys in source text with configurable patterns.
//!
//! Each pattern is a regular expression whose first capture group is the key.
//! Matches of all patterns are pooled, ordered by start offset, and only the
//! first match (in pattern order, then match order) at each start survives.
//! Offsets are byte offsets into the text; a key's line is the number of line
//! breaks before it, and its columns count bytes from the start of its line.
use vstd::prelude::*;
use vstd::string::StringSliceAdditionalSpecFns;
use vstd::utf8::encode_utf8;

verus! {

broadcast use vstd::std_specs::vec::group_vec_axioms, vstd::seq::group_seq_axioms;

/// Whether `regex::Regex::new` accepts the pattern.
pub uninterp spec fn regex_valid(pattern: Seq<char>) -> bool;

/// The spans (byte offsets) of the first capture group of each successive
/// match of the pattern in the text, as `regex::Regex::captures_iter` finds
/// them; `None` for a match where the group took no part.
pub uninterp spec fn group_one_spans(pattern: Seq<char>, text: Seq<char>) -> Seq<Option<(usize, usize)>>;

/// Relies on `regex::Regex::new`, which accepts or refuses a pattern by its text alone.
#[verifier::external_body]
fn pattern_compiles(pattern: &str) -> (r: bool)
    ensures
        r == regex_valid(pattern@),
{
    regex::Regex::new(pattern).is_ok()
}

/// Relies on `regex::Regex::captures_iter` and `Captures::get(1)`: the
/// matches come in order, and a group's `Match` gives its byte offsets and
/// `as_str`, the haystack between them.
#[verifier::external_body]
fn group_matches(pattern: &str, text: &str) -> (r: Vec<Option<(usize, usize, String)>>)
    requires
        regex_valid(pattern@),
    ensures
        r@.len() == group_one_spans(pattern@, text@).len(),
        forall|i: int|
            0 <= i < r@.len() ==> match #[trigger] r@[i] {
                Some(m) => {
                    &&& group_one_spans(pattern@, text@)[i] == Some((m.0, m.1))
                    &&& m.0 <= m.1 <= text.spec_bytes().len()
                    &&& encode_utf8(m.2@) == text.spec_bytes().subrange(m.0 as int, m.1 as int)
                },
                None => group_one_spans(pattern@, text@)[i] is None,
            },
{
    let re = regex::Regex::new(pattern).unwrap();
    re.captures_iter(text).map(|c| c.get(1).map(|m| (m.start(), m.end(), m.as_str().to_string()))).collect()
}

/// A usage of a key in a text.
pub struct FoundKey {
    pub key: String,
    /// Byte offset where the key starts.
    pub start_offset: usize,
    /// Byte offset just past the key.
    pub end_offset: usize,
    /// Line of the key, from zero.
    pub line: usize,
    /// Column of the key's start, in bytes from the start of its line.
    pub start_char: usize,
    /// Column just past the key, in bytes from the start of its line.
    pub end_char: usize,
}

impl FoundKey {
    /// A copy of the found key.
    pub fn duplicate(&self) -> (r: FoundKey)
        ensures
            r == *self,
    {
        FoundKey {
            key: self.key.clone(),
            start_offset: self.start_offset,
            end_offset: self.end_offset,
            line: self.line,
            start_char: self.start_char,
            end_char: self.end_char,
        }
    }
}

/// The number of line breaks among the first `k` bytes.
pub open spec fn newlines_before(b: Seq<u8>, k: int) -> nat
    decreases k,
{
    if k <= 0 {
        0
    } else {
        newlines_before(b, k - 1) + if b[k - 1] == 10u8 {
            1nat
        } else {
            0nat
        }
    }
}

/// Where the line holding byte `k` starts: just past the last line break
/// before `k`, or zero.
pub open spec fn line_start(b: Seq<u8>, k: int) -> int
    decreases k,
{
    if k <= 0 {
        0
    } else if b[k - 1] == 10u8 {
        k
    } else {
        line_start(b, k - 1)
    }
}

/// Whether `fk` is the found key for the match span `span` in text bytes `b`.
#[verifier::opaque]
pub open spec fn describes(b: Seq<u8>, span: (usize, usize), fk: FoundKey) -> bool {
    &&& fk.start_offset == span.0
    &&& fk.end_offset == span.1
    &&& encode_utf8(fk.key@) == b.subrange(span.0 as int, span.1 as int)
    &&& fk.line == newlines_before(b, span.0 as int)
    &&& fk.start_char == span.0 - line_start(b, span.0 as int)
    &&& fk.end_char == span.1 - line_start(b, span.0 as int)
}

/// The spans that are present, in order.
pub open spec fn present_spans(s: Seq<Option<(usize, usize)>>) -> Seq<(usize, usize)>
    decreases s.len(),
{
    if s.len() == 0 {
        Seq::empty()
    } else {
        let rest = present_spans(s.drop_last());
        match s.last() {
            Some(x) => rest.push(x),
            None => rest,
        }
    }
}

/// The pooled key spans of all patterns over a text: each pattern's matches
/// in order, pattern after pattern.
pub open spec fn pooled(patterns: Seq<String>, text: Seq<char>) -> Seq<(usize, usize)>
    decreases patterns.len(),
{
    if patterns.len() == 0 {
        Seq::empty()
    } else {
        pooled(patterns.drop_last(), text) + present_spans(
            group_one_spans(patterns.last()@, text),
        )
    }
}

/// Whether the `j`-th pooled span is the first with its start offset.
pub open spec fn survives(pool: Seq<(usize, usize)>, j: int) -> bool {
    0 <= j < pool.len() && forall|i: int| 0 <= i < j ==> pool[i].0 != pool[j].0
}

/// Whether `keys`, ordered by strictly increasing start, holds exactly one
/// found key for each start offset of `pool`: the one for the first span
/// with that start.
pub open spec fn keys_of_pool(b: Seq<u8>, pool: Seq<(usize, usize)>, keys: Seq<FoundKey>) -> bool {
    &&& sorted_by_start(keys)
    &&& each_describes_survivor(b, pool, keys)
    &&& every_start_kept(pool, keys)
}

/// Whether the keys come by strictly increasing start offset.
pub open spec fn sorted_by_start(keys: Seq<FoundKey>) -> bool {
    forall|a: int, c: int| 0 <= a < c < keys.len() ==> keys[a].start_offset < keys[c].start_offset
}

/// Whether each key is the found key of a span that is first at its start.
pub open spec fn each_describes_survivor(b: Seq<u8>, pool: Seq<(usize, usize)>, keys: Seq<FoundKey>) -> bool {
    forall|a: int| 0 <= a < keys.len() ==> describes_survivor(b, pool, #[trigger] keys[a])
}

/// Whether `fk` is the found key of a span that is first at its start.
pub open spec fn describes_survivor(b: Seq<u8>, pool: Seq<(usize, usize)>, fk: FoundKey) -> bool {
    exists|j: int| survives(pool, j) && describes(b, pool[j], fk)
}

/// Whether some key starts at `s`.
pub open spec fn start_kept(keys: Seq<FoundKey>, s: usize) -> bool {
    exists|a: int| 0 <= a < keys.len() && keys[a].start_offset == s
}

/// Whether every start offset of the pool has a key.
pub open spec fn every_start_kept(pool: Seq<(usize, usize)>, keys: Seq<FoundKey>) -> bool {
    forall|j: int| 0 <= j < pool.len() ==> start_kept(keys, (#[trigger] pool[j]).0)
}

fn newline_scan(b: &[u8], start: usize) -> (r: (usize, usize))
    requires
        start <= b@.len(),
    ensures
        r.0 == newlines_before(b@, start as int),
        r.1 == line_start(b@, start as int),
        r.1 <= start,
{
    let mut line: usize = 0;
    let mut ls: usize = 0;
    let mut i: usize = 0;
    while i < start
        invariant
            i <= start <= b@.len(),
            line == newlines_before(b@, i as int),
            ls == line_start(b@, i as int),
            line <= i,
            ls <= i,
        decreases start - i,
    {
        if b[i] == 10u8 {
            line = line + 1;
            ls = i + 1;
        }
        i += 1;
    }
    (line, ls)
}

/// Line and columns of the span `start..end`: the number of line breaks
/// before `start`, and both offsets counted from the start of that line.
pub fn offset_to_position(content: &str, start_offset: usize, end_offset: usize) -> (r: (
    usize,
    usize,
    usize,
))
    requires
        start_offset <= end_offset <= content.spec_bytes().len(),
    ensures
        r.0 == newlines_before(content.spec_bytes(), start_offset as int),
        r.1 == start_offset - line_start(content.spec_bytes(), start_offset as int),
        r.2 == end_offset - line_start(content.spec_bytes(), start_offset as int),
{
    let b = content.as_bytes();
    let (line, ls) = newline_scan(b, start_offset);
    (line, start_offset - ls, end_offset - ls)
}

/// A finder for the usages of keys, built from extraction patterns.
pub struct KeyFinder {
    patterns: Vec<String>,
}

impl KeyFinder {
    /// The patterns kept: those that compiled, in the order given.
    pub closed spec fn patterns(&self) -> Seq<String> {
        self.patterns@
    }

    /// Every pattern kept compiles.
    #[verifier::type_invariant]
    pub closed spec fn wf(&self) -> bool {
        forall|i: int| 0 <= i < self.patterns@.len() ==> regex_valid(#[trigger] self.patterns@[i]@)
    }

    /// A finder with the given patterns; a pattern that does not compile is dropped.
    pub fn new(patterns: &[String]) -> (r: KeyFinder)
        ensures
            r.patterns().map_values(|p: String| p@) == kept_patterns(
                patterns@.map_values(|p: String| p@),
            ),
    {
        let mut kept: Vec<String> = Vec::new();
        let mut i: usize = 0;
        while i < patterns.len()
            invariant
                i <= patterns@.len(),
                forall|j: int| 0 <= j < kept@.len() ==> regex_valid(#[trigger] kept@[j]@),
                kept@.map_values(|p: String| p@) == kept_patterns(
                    patterns@.take(i as int).map_values(|p: String| p@),
                ),
            decreases patterns@.len() - i,
        {
            let ghost before = kept@;
            let ghost views = patterns@.take(i + 1).map_values(|p: String| p@);
            assert(views.drop_last() =~= patterns@.take(i as int).map_values(|p: String| p@));
            if pattern_compiles(patterns[i].as_str()) {
                kept.push(patterns[i].clone());
                assert(kept@.map_values(|p: String| p@) =~= before.map_values(|p: String| p@).push(
                    patterns@[i as int]@,
                ));
            }
            i += 1;
        }
        assert(patterns@.take(patterns@.len() as int) =~= patterns@);
        KeyFinder { patterns: kept }
    }

    /// The usages of keys in `content`, by increasing start offset, one per
    /// start offset: where several matches start at the same offset, the
    /// first pattern's (then the first match's) is kept.
    pub fn find_keys(&self, content: &str) -> (r: Vec<FoundKey>)
        ensures
            keys_of_pool(content.spec_bytes(), pooled(self.patterns(), content@), r@),
    {
        proof {
            use_type_invariant(self);
        }
        let ghost b = content.spec_bytes();
        let mut keys: Vec<FoundKey> = Vec::new();
        let ghost mut done: Seq<(usize, usize)> = Seq::empty();
        let mut p: usize = 0;
        assert(self.patterns@.take(0) =~= Seq::<String>::empty());
        while p < self.patterns.len()
            invariant
                self.wf(),
                p <= self.patterns@.len(),
                b == content.spec_bytes(),
                done == pooled(self.patterns@.take(p as int), content@),
                keys_of_pool(b, done, keys@),
            decreases self.patterns@.len() - p,
        {
            let matches = group_matches(self.patterns[p].as_str(), content);
            let ghost spans = group_one_spans(self.patterns@[p as int]@, content@);
            let ghost done0 = done;
            let mut m: usize = 0;
            assert(spans.take(0) =~= Seq::<Option<(usize, usize)>>::empty());
            assert(done0 + present_spans(spans.take(0)) =~= done0);
            while m < matches.len()
                invariant
                    m <= matches@.len(),
                    b == content.spec_bytes(),
                    matches@.len() == spans.len(),
                    forall|i: int|
                        0 <= i < matches@.len() ==> match #[trigger] matches@[i] {
                            Some(x) => {
                                &&& spans[i] == Some((x.0, x.1))
                                &&& x.0 <= x.1 <= b.len()
                                &&& encode_utf8(x.2@) == b.subrange(x.0 as int, x.1 as int)
                            },
                            None => spans[i] is None,
                        },
                    done == done0 + present_spans(spans.take(m as int)),
                    keys_of_pool(b, done, keys@),
                decreases matches@.len() - m,
            {
                assert(spans.take(m + 1).drop_last() =~= spans.take(m as int));
                assert(spans.take(m + 1).last() == spans[m as int]);
                match &matches[m] {
                    Some(x) => {
                        let (line, sc, ec) = offset_to_position(content, x.0, x.1);
                        let fk = FoundKey {
                            key: x.2.clone(),
                            start_offset: x.0,
                            end_offset: x.1,
                            line,
                            start_char: sc,
                            end_char: ec,
                        };
                        proof {
                            reveal(describes);
                            assert(describes(b, (x.0, x.1), fk));
                        }
                        add_found(&mut keys, fk, Ghost(b), Ghost(done), Ghost((x.0, x.1)));
                        proof {
                            assert(done0 + present_spans(spans.take(m + 1)) =~= done.push(
                                (x.0, x.1),
                            ));
                            done = done.push((x.0, x.1));
                        }
                    },
                    None => {
                        assert(present_spans(spans.take(m + 1)) == present_spans(
                            spans.take(m as int),
                        ));
                    },
                }
                m += 1;
            }
            proof {
                assert(spans.take(spans.len() as int) =~= spans);
                let pt = self.patterns@.take(p + 1);
                assert(pt.drop_last() =~= self.patterns@.take(p as int));
                assert(pt.last() == self.patterns@[p as int]);
            }
            p += 1;
        }
        assert(self.patterns@.take(self.patterns@.len() as int) =~= self.patterns@);
        keys
    }
}

/// Whether a found key covers column `character` of line `line`, both ends included.
pub open spec fn at_position(fk: FoundKey, line: usize, character: usize) -> bool {
    fk.line == line && fk.start_char <= character && character <= fk.end_char
}

proof fn lemma_same_survivor(b: Seq<u8>, pool: Seq<(usize, usize)>, keys: Seq<FoundKey>, fk: FoundKey)
    requires
        keys_of_pool(b, pool, keys),
        describes_survivor(b, pool, fk),
    ensures
        exists|a: int|
            0 <= a < keys.len() && keys[a].start_offset == fk.start_offset && keys[a].line == fk.line
                && keys[a].start_char == fk.start_char && keys[a].end_char == fk.end_char,
{
    reveal(describes);
    let j = choose|j: int| survives(pool, j) && describes(b, pool[j], fk);
    assert(start_kept(keys, pool[j].0));
    let a = choose|a: int| 0 <= a < keys.len() && keys[a].start_offset == pool[j].0;
    assert(describes_survivor(b, pool, keys[a]));
    let j2 = choose|j2: int| survives(pool, j2) && describes(b, pool[j2], keys[a]);
    if j2 < j {
        assert(pool[j2].0 == pool[j].0);
    } else if j < j2 {
        assert(pool[j2].0 == pool[j].0);
    }
    assert(j == j2);
}

impl KeyFinder {
    /// The first found key (by start offset) on line `line` whose columns
    /// cover `character`, both ends included.
    pub fn find_key_at_position(&self, content: &str, line: usize, character: usize) -> (r: Option<
        FoundKey,
    >)
        ensures
            r matches Some(fk) ==> {
                &&& describes_survivor(content.spec_bytes(), pooled(self.patterns(), content@), fk)
                &&& at_position(fk, line, character)
                &&& forall|o: FoundKey|
                    describes_survivor(content.spec_bytes(), pooled(self.patterns(), content@), o)
                        && #[trigger] at_position(o, line, character) ==> o.start_offset
                        >= fk.start_offset
            },
            r is None ==> forall|o: FoundKey|
                describes_survivor(content.spec_bytes(), pooled(self.patterns(), content@), o)
                    ==> !#[trigger] at_position(o, line, character),
    {
        let keys = self.find_keys(content);
        let ghost b = content.spec_bytes();
        let ghost pool = pooled(self.patterns(), content@);
        let mut i: usize = 0;
        while i < keys.len()
            invariant
                i <= keys@.len(),
                b == content.spec_bytes(),
                pool == pooled(self.patterns(), content@),
                keys_of_pool(b, pool, keys@),
                forall|a: int| 0 <= a < i ==> !at_position(#[trigger] keys@[a], line, character),
            decreases keys@.len() - i,
        {
            let k = &keys[i];
            if k.line == line && character >= k.start_char && character <= k.end_char {
                let found = k.duplicate();
                proof {
                    assert(describes_survivor(b, pool, keys@[i as int]));
                    assert forall|o: FoundKey|
                        describes_survivor(b, pool, o) && #[trigger] at_position(o, line, character)
                            implies o.start_offset >= found.start_offset by {
                        lemma_same_survivor(b, pool, keys@, o);
                        let a = choose|a: int|
                            0 <= a < keys@.len() && keys@[a].start_offset == o.start_offset
                                && keys@[a].line == o.line && keys@[a].start_char == o.start_char
                                && keys@[a].end_char == o.end_char;
                        assert(at_position(keys@[a], line, character));
                        if a > i {
                            assert(keys@[i as int].start_offset < keys@[a].start_offset);
                        }
                    }
                }
                return Some(found);
            }
            i += 1;
        }
        proof {
            assert forall|o: FoundKey| describes_survivor(b, pool, o) implies !#[trigger] at_position(
                o,
                line,
                character,
            ) by {
                lemma_same_survivor(b, pool, keys@, o);
            }
        }
        None
    }
}

/// The patterns a finder uses when none are configured: call-style `t(...)`,
/// `i18n.t(...)`, `$t(...)`, `formatMessage({ id: ... })` and `<Trans i18nKey=...>`.
pub open spec fn builtin_patterns() -> Seq<Seq<char>> {
    seq![
        "t\\s*\\(\\s*[\"']([^\"']+)[\"']"@,
        "i18n\\.t\\s*\\(\\s*[\"']([^\"']+)[\"']"@,
        "\\$t\\s*\\(\\s*[\"']([^\"']+)[\"']"@,
        "formatMessage\\s*\\(\\s*\\{\\s*id:\\s*[\"']([^\"']+)[\"']"@,
        "<Trans\\s+i18nKey\\s*=\\s*[\"']([^\"']+)[\"']"@,
    ]
}

/// The built-in extraction patterns.
pub fn default_patterns() -> (r: Vec<String>)
    ensures
        r@.map_values(|p: String| p@) == builtin_patterns(),
{
    let r = vec![
        "t\\s*\\(\\s*[\"']([^\"']+)[\"']".to_owned(),
        "i18n\\.t\\s*\\(\\s*[\"']([^\"']+)[\"']".to_owned(),
        "\\$t\\s*\\(\\s*[\"']([^\"']+)[\"']".to_owned(),
        "formatMessage\\s*\\(\\s*\\{\\s*id:\\s*[\"']([^\"']+)[\"']".to_owned(),
        "<Trans\\s+i18nKey\\s*=\\s*[\"']([^\"']+)[\"']".to_owned(),
    ];
    assert(r@.map_values(|p: String| p@) =~= builtin_patterns());
    r
}

impl Default for KeyFinder {
    /// A finder with the built-in patterns.
    fn default() -> (r: KeyFinder)
        ensures
            r.patterns().map_values(|p: String| p@) == kept_patterns(builtin_patterns()),
    {
        let patterns = default_patterns();
        let r = KeyFinder::new(patterns.as_slice());
        r
    }
}

/// Found keys never share a start offset: for each start offset among the
/// pooled matches there is exactly one found key, and it is the one of the
/// first match (in pattern order, then match order) starting there.
pub proof fn lemma_one_key_per_start(b: Seq<u8>, pool: Seq<(usize, usize)>, keys: Seq<FoundKey>, j: int)
    requires
        keys_of_pool(b, pool, keys),
        0 <= j < pool.len(),
    ensures
        exists|a: int| 0 <= a < keys.len() && keys[a].start_offset == pool[j].0,
        forall|a: int, c: int|
            0 <= a < keys.len() && 0 <= c < keys.len() && keys[a].start_offset == pool[j].0
                && keys[c].start_offset == pool[j].0 ==> a == c,
        forall|a: int|
            0 <= a < keys.len() && keys[a].start_offset == pool[j].0 ==> exists|i: int|
                survives(pool, i) && pool[i].0 == pool[j].0 && describes(b, pool[i], keys[a]),
{
    assert(start_kept(keys, pool[j].0));
    assert forall|a: int|
        0 <= a < keys.len() && keys[a].start_offset == pool[j].0 implies exists|i: int|
            survives(pool, i) && pool[i].0 == pool[j].0 && describes(b, pool[i], keys[a]) by {
        assert(describes_survivor(b, pool, keys[a]));
        let i = choose|i: int| survives(pool, i) && describes(b, pool[i], keys[a]);
        reveal(describes);
        assert(pool[i].0 == keys[a].start_offset);
    }
}

/// The patterns among `ps` that compile, in order.
pub open spec fn kept_patterns(ps: Seq<Seq<char>>) -> Seq<Seq<char>>
    decreases ps.len(),
{
    if ps.len() == 0 {
        Seq::empty()
    } else if regex_valid(ps.last()) {
        kept_patterns(ps.drop_last()).push(ps.last())
    } else {
        kept_patterns(ps.drop_last())
    }
}

proof fn lemma_survives_push(done: Seq<(usize, usize)>, span: (usize, usize), j: int)
    requires
        0 <= j < done.len(),
    ensures
        survives(done.push(span), j) == survives(done, j),
        done.push(span)[j] == done[j],
{
    let pool = done.push(span);
    assert forall|i: int| 0 <= i < j implies pool[i] == done[i] by {}
}

proof fn lemma_survivor_push(b: Seq<u8>, done: Seq<(usize, usize)>, span: (usize, usize), fk: FoundKey)
    requires
        describes_survivor(b, done, fk),
    ensures
        describes_survivor(b, done.push(span), fk),
{
    let j = choose|j: int| survives(done, j) && describes(b, done[j], fk);
    lemma_survives_push(done, span, j);
    assert(survives(done.push(span), j) && describes(b, done.push(span)[j], fk));
}

proof fn lemma_skip(b: Seq<u8>, done: Seq<(usize, usize)>, span: (usize, usize), keys: Seq<FoundKey>, pos: int)
    requires
        keys_of_pool(b, done, keys),
        0 <= pos < keys.len(),
        keys[pos].start_offset == span.0,
    ensures
        keys_of_pool(b, done.push(span), keys),
{
    let pool = done.push(span);
    assert forall|a: int| 0 <= a < keys.len() implies describes_survivor(b, pool, #[trigger] keys[a]) by {
        lemma_survivor_push(b, done, span, keys[a]);
    }
    assert forall|j: int| 0 <= j < pool.len() implies start_kept(keys, (#[trigger] pool[j]).0) by {
        if j < done.len() {
            assert(pool[j] == done[j]);
        } else {
            assert(keys[pos].start_offset == pool[j].0);
        }
    }
}

proof fn lemma_fresh_start(done: Seq<(usize, usize)>, span: (usize, usize), keys: Seq<FoundKey>, pos: int)
    requires
        sorted_by_start(keys),
        every_start_kept(done, keys),
        0 <= pos <= keys.len(),
        forall|a: int| 0 <= a < pos ==> keys[a].start_offset < span.0,
        pos < keys.len() ==> keys[pos].start_offset > span.0,
    ensures
        survives(done.push(span), done.len() as int),
{
    let pool = done.push(span);
    assert forall|j: int| 0 <= j < done.len() implies (#[trigger] pool[j]).0 != span.0 by {
        assert(pool[j] == done[j]);
        assert(start_kept(keys, done[j].0));
        let a = choose|a: int| 0 <= a < keys.len() && keys[a].start_offset == done[j].0;
        if a > pos {
            assert(keys[pos].start_offset < keys[a].start_offset);
        }
    }
    assert(pool[done.len() as int] == span);
}

proof fn lemma_insert_sorted(keys: Seq<FoundKey>, fk: FoundKey, pos: int)
    requires
        sorted_by_start(keys),
        0 <= pos <= keys.len(),
        forall|a: int| 0 <= a < pos ==> keys[a].start_offset < fk.start_offset,
        pos < keys.len() ==> keys[pos].start_offset > fk.start_offset,
    ensures
        sorted_by_start(keys.insert(pos, fk)),
{
    let k1 = keys.insert(pos, fk);
    assert forall|a: int, c: int| 0 <= a < c < k1.len() implies k1[a].start_offset
        < k1[c].start_offset by {
        if c > pos {
            assert(k1[c] == keys[c - 1]);
            if c - 1 > pos {
                assert(keys[pos].start_offset < keys[c - 1].start_offset);
            }
        }
        if a > pos {
            assert(k1[a] == keys[a - 1]);
        }
    }
}

proof fn lemma_insert(
    b: Seq<u8>,
    done: Seq<(usize, usize)>,
    span: (usize, usize),
    fk: FoundKey,
    keys: Seq<FoundKey>,
    pos: int,
)
    requires
        keys_of_pool(b, done, keys),
        describes(b, span, fk),
        fk.start_offset == span.0,
        0 <= pos <= keys.len(),
        forall|a: int| 0 <= a < pos ==> keys[a].start_offset < span.0,
        pos < keys.len() ==> keys[pos].start_offset > span.0,
    ensures
        keys_of_pool(b, done.push(span), keys.insert(pos, fk)),
{
    let pool = done.push(span);
    let n = done.len() as int;
    let k1 = keys.insert(pos, fk);
    lemma_fresh_start(done, span, keys, pos);
    lemma_insert_sorted(keys, fk, pos);
    assert forall|a: int| 0 <= a < k1.len() implies describes_survivor(b, pool, #[trigger] k1[a]) by {
        if a == pos {
            assert(survives(pool, n) && describes(b, pool[n], k1[a]));
        } else {
            let a0 = if a < pos {
                a
            } else {
                a - 1
            };
            assert(k1[a] == keys[a0]);
            lemma_survivor_push(b, done, span, keys[a0]);
        }
    }
    assert forall|j: int| 0 <= j < pool.len() implies start_kept(k1, (#[trigger] pool[j]).0) by {
        if j < n {
            assert(pool[j] == done[j]);
            assert(start_kept(keys, done[j].0));
            let a = choose|a: int| 0 <= a < keys.len() && keys[a].start_offset == done[j].0;
            if a < pos {
                assert(k1[a] == keys[a]);
            } else {
                assert(k1[a + 1] == keys[a]);
            }
        } else {
            assert(k1[pos] == fk);
        }
    }
}

/// Adds the found key for the next pooled span, unless an earlier span
/// started at the same offset.
fn add_found(
    keys: &mut Vec<FoundKey>,
    fk: FoundKey,
    Ghost(b): Ghost<Seq<u8>>,
    Ghost(done): Ghost<Seq<(usize, usize)>>,
    Ghost(span): Ghost<(usize, usize)>,
)
    requires
        keys_of_pool(b, done, old(keys)@),
        describes(b, span, fk),
        fk.start_offset == span.0,
    ensures
        keys_of_pool(b, done.push(span), final(keys)@),
{
    let s = fk.start_offset;
    let mut pos: usize = 0;
    while pos < keys.len() && keys[pos].start_offset < s
        invariant
            pos <= keys@.len(),
            keys@ == old(keys)@,
            forall|a: int| 0 <= a < pos ==> keys@[a].start_offset < s,
        decreases keys@.len() - pos,
    {
        pos += 1;
    }
    if pos < keys.len() && keys[pos].start_offset == s {
        proof {
            lemma_skip(b, done, span, keys@, pos as int);
        }
        return;
    }
    proof {
        lemma_insert(b, done, span, fk, keys@, pos as int);
    }
    keys.insert(pos, fk);
}

} // verus!
