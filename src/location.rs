//! Best-effort search for the line that defines a key in a resource file.
//!
//! The search is textual: it reports the first line holding the key's last
//! dotted segment in one of a few shapes (`"seg"`, `'seg'`, `seg: `, `seg:`).
//! In files that repeat that segment it may name the wrong line; it is an
//! approximation, not a structural position.
use vstd::prelude::*;
use crate::locale::last_dot;
use crate::text::{chars_of, contains_chars, contains_seq};

verus! {

broadcast use vstd::std_specs::vec::group_vec_axioms, vstd::seq::group_seq_axioms;

/// The lines of a text: the pieces between `\n` characters.
pub open spec fn split_lines(t: Seq<char>) -> Seq<Seq<char>>
    decreases t.len(),
{
    if t.len() == 0 {
        seq![Seq::empty()]
    } else {
        let rest = split_lines(t.drop_last());
        if t.last() == '\n' {
            rest.push(Seq::empty())
        } else {
            rest.update(rest.len() - 1, rest.last().push(t.last()))
        }
    }
}

proof fn lemma_split_lines_nonempty(t: Seq<char>)
    ensures
        split_lines(t).len() >= 1,
    decreases t.len(),
{
    if t.len() > 0 {
        lemma_split_lines_nonempty(t.drop_last());
    }
}

/// What follows the last `.` of a key, or the whole key.
pub open spec fn last_segment(key: Seq<char>) -> Seq<char> {
    key.subrange(last_dot(key) + 1, key.len() as int)
}

/// Whether a line mentions `seg` as a quoted string or as a mapping key.
pub open spec fn line_hit(line: Seq<char>, seg: Seq<char>) -> bool {
    ||| contains_seq(line, seq!['"'] + seg + seq!['"'])
    ||| contains_seq(line, seq!['\''] + seg + seq!['\''])
    ||| contains_seq(line, seg + seq![':', ' '])
    ||| contains_seq(line, seg + seq![':'])
}

/// The first line at or after `m` that mentions `seg`.
pub open spec fn first_hit(lines: Seq<Seq<char>>, seg: Seq<char>, m: int) -> Option<int>
    decreases lines.len() - m,
{
    if m < 0 || m >= lines.len() {
        None
    } else if line_hit(lines[m], seg) {
        Some(m)
    } else {
        first_hit(lines, seg, m + 1)
    }
}

/// The line of `content` taken to define `key`, if any line mentions the
/// key's last segment.
pub open spec fn key_line(content: Seq<char>, key: Seq<char>) -> Option<int> {
    first_hit(split_lines(content), last_segment(key), 0)
}

proof fn lemma_first_hit(lines: Seq<Seq<char>>, seg: Seq<char>, m: int, n: Option<int>)
    requires
        0 <= m <= lines.len(),
        forall|j: int| m <= j < lines.len() && (n is None || j < n->0) ==> !line_hit(lines[j], seg),
        n is Some ==> m <= n->0 < lines.len() && line_hit(lines[n->0], seg),
    ensures
        first_hit(lines, seg, m) == n,
    decreases lines.len() - m,
{
    if m < lines.len() && !(n is Some && n->0 == m) {
        lemma_first_hit(lines, seg, m + 1, n);
    }
}

fn views(v: &Vec<Vec<char>>) -> (r: Ghost<Seq<Seq<char>>>)
    ensures
        r@.len() == v@.len(),
        forall|i: int| 0 <= i < v@.len() ==> r@[i] == #[trigger] v@[i]@,
{
    Ghost(v@.map_values(|x: Vec<char>| x@))
}

/// Splits a text into its lines.
fn lines_of(t: &Vec<char>) -> (r: Vec<Vec<char>>)
    ensures
        r@.len() == split_lines(t@).len(),
        forall|i: int| 0 <= i < r@.len() ==> #[trigger] r@[i]@ == split_lines(t@)[i],
{
    let mut r: Vec<Vec<char>> = Vec::new();
    r.push(Vec::new());
    let mut i: usize = 0;
    assert(t@.take(0) =~= Seq::<char>::empty());
    while i < t.len()
        invariant
            i <= t.len(),
            r@.len() == split_lines(t@.take(i as int)).len(),
            r@.len() >= 1,
            forall|j: int| 0 <= j < r@.len() ==> #[trigger] r@[j]@ == split_lines(t@.take(i as int))[j],
        decreases t.len() - i,
    {
        let ghost before = r@;
        let ghost pre = split_lines(t@.take(i as int));
        assert(t@.take(i + 1).drop_last() =~= t@.take(i as int));
        assert(t@.take(i + 1).last() == t@[i as int]);
        if t[i] == '\n' {
            r.push(Vec::new());
            assert forall|j: int| 0 <= j < r@.len() implies #[trigger] r@[j]@ == split_lines(
                t@.take(i + 1),
            )[j] by {
                if j < before.len() {
                    assert(r@[j] == before[j]);
                }
            }
        } else {
            let last = r.len() - 1;
            let mut line = r.pop().unwrap();
            line.push(t[i]);
            r.push(line);
            assert forall|j: int| 0 <= j < r@.len() implies #[trigger] r@[j]@ == split_lines(
                t@.take(i + 1),
            )[j] by {
                if j < last {
                    assert(r@[j] == before[j]);
                }
            }
        }
        i += 1;
    }
    assert(t@.take(t@.len() as int) =~= t@);
    r
}

fn append(a: &mut Vec<char>, b: &Vec<char>)
    ensures
        final(a)@ == old(a)@ + b@,
{
    let mut i: usize = 0;
    let ghost start = a@;
    while i < b.len()
        invariant
            i <= b.len(),
            a@ == start + b@.take(i as int),
        decreases b.len() - i,
    {
        a.push(b[i]);
        i += 1;
        assert(a@ =~= start + b@.take(i as int));
    }
    assert(b@.take(b@.len() as int) =~= b@);
}

fn hit(line: &Vec<char>, seg: &Vec<char>) -> (r: bool)
    ensures
        r == line_hit(line@, seg@),
{
    let mut dq = vec!['"'];
    append(&mut dq, seg);
    dq.push('"');
    let mut sq = vec!['\''];
    append(&mut sq, seg);
    sq.push('\'');
    let mut colon_space = Vec::new();
    append(&mut colon_space, seg);
    colon_space.push(':');
    colon_space.push(' ');
    let mut colon = Vec::new();
    append(&mut colon, seg);
    colon.push(':');
    assert(dq@ =~= seq!['"'] + seg@ + seq!['"']);
    assert(sq@ =~= seq!['\''] + seg@ + seq!['\'']);
    assert(colon_space@ =~= seg@ + seq![':', ' ']);
    assert(colon@ =~= seg@ + seq![':']);
    contains_chars(line, &dq) || contains_chars(line, &sq) || contains_chars(line, &colon_space)
        || contains_chars(line, &colon)
}

/// The line (from zero) of `content` taken to define `key`: the first line
/// that mentions the key's last dotted segment.
pub fn find_key_line(content: &str, key: &str) -> (r: Option<usize>)
    ensures
        match r {
            Some(n) => key_line(content@, key@) == Some(n as int),
            None => key_line(content@, key@) is None,
        },
{
    let k = chars_of(key);
    let mut d: usize = k.len();
    let mut seg: Vec<char> = Vec::new();
    let ghost kk = k@;
    proof {
        crate::locale::lemma_last_dot_bounds(k@);
    }
    while d > 0 && k[d - 1] != '.'
        invariant
            d <= k.len(),
            kk == k@,
            forall|j: int| d <= j < k@.len() ==> k@[j] != '.',
        decreases d,
    {
        d -= 1;
    }
    proof {
        crate::locale::lemma_last_dot_is(k@, d as int - 1);
    }
    let mut i = d;
    while i < k.len()
        invariant
            d <= i <= k.len(),
            seg@ == k@.subrange(d as int, i as int),
        decreases k.len() - i,
    {
        seg.push(k[i]);
        i += 1;
        assert(seg@ =~= k@.subrange(d as int, i as int));
    }
    assert(seg@ == last_segment(key@));
    let text = chars_of(content);
    let lines = lines_of(&text);
    let mut n: usize = 0;
    while n < lines.len()
        invariant
            n <= lines.len(),
            seg@ == last_segment(key@),
            text@ == content@,
            lines@.len() == split_lines(text@).len(),
            forall|i: int| 0 <= i < lines@.len() ==> #[trigger] lines@[i]@ == split_lines(text@)[i],
            forall|j: int| 0 <= j < n ==> !line_hit(split_lines(text@)[j], seg@),
        decreases lines.len() - n,
    {
        if hit(&lines[n], &seg) {
            proof {
                lemma_first_hit(split_lines(text@), seg@, 0, Some(n as int));
            }
            return Some(n);
        }
        n += 1;
    }
    proof {
        lemma_first_hit(split_lines(text@), seg@, 0, None);
    }
    None
}

} // verus!
