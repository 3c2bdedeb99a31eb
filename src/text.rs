//! Character-level helpers shared by the parsers and the key finder.
use vstd::prelude::*;

verus! {

/// The characters of `s`, one per element.
///
/// Relies on `str::chars`: it yields the characters of the string in order.
#[verifier::external_body]
pub fn chars_of(s: &str) -> (r: Vec<char>)
    ensures
        r@ == s@,
{
    s.chars().collect()
}

/// The string made of the characters in `v`.
///
/// Relies on `FromIterator<char> for String`: it concatenates the characters in order.
#[verifier::external_body]
pub fn string_of(v: &Vec<char>) -> (r: String)
    ensures
        r@ == v@,
{
    v.iter().collect()
}

/// The decimal digit for `d`, for `d < 10`.
pub open spec fn digit_char(d: nat) -> char {
    if d == 0 { '0' }
    else if d == 1 { '1' }
    else if d == 2 { '2' }
    else if d == 3 { '3' }
    else if d == 4 { '4' }
    else if d == 5 { '5' }
    else if d == 6 { '6' }
    else if d == 7 { '7' }
    else if d == 8 { '8' }
    else { '9' }
}

/// The canonical base-ten rendering of `n`, without sign or leading zeros.
pub open spec fn decimal(n: nat) -> Seq<char>
    decreases n,
{
    if n < 10 {
        seq![digit_char(n)]
    } else {
        decimal(n / 10).push(digit_char(n % 10))
    }
}

fn digit(d: usize) -> (c: char)
    requires
        d < 10,
    ensures
        c == digit_char(d as nat),
{
    if d == 0 { '0' }
    else if d == 1 { '1' }
    else if d == 2 { '2' }
    else if d == 3 { '3' }
    else if d == 4 { '4' }
    else if d == 5 { '5' }
    else if d == 6 { '6' }
    else if d == 7 { '7' }
    else if d == 8 { '8' }
    else { '9' }
}

/// Renders `n` in base ten.
pub fn decimal_chars(n: usize) -> (r: Vec<char>)
    ensures
        r@ == decimal(n as nat),
    decreases n,
{
    if n < 10 {
        let mut v: Vec<char> = Vec::new();
        v.push(digit(n));
        v
    } else {
        let mut v = decimal_chars(n / 10);
        v.push(digit(n % 10));
        v
    }
}

/// Whether `s` occurs in `t` starting at index `at`.
pub open spec fn occurs_at(t: Seq<char>, s: Seq<char>, at: int) -> bool {
    0 <= at && at + s.len() <= t.len() && t.subrange(at, at + s.len()) == s
}

/// Whether `s` occurs anywhere in `t`.
pub open spec fn contains_seq(t: Seq<char>, s: Seq<char>) -> bool {
    exists|at: int| occurs_at(t, s, at)
}

/// Whether `s` occurs in `t` at index `at`.
pub fn matches_at(t: &Vec<char>, s: &Vec<char>, at: usize) -> (r: bool)
    ensures
        r == occurs_at(t@, s@, at as int),
{
    if at > t.len() || s.len() > t.len() - at {
        return false;
    }
    let mut i: usize = 0;
    while i < s.len()
        invariant
            at + s.len() <= t.len(),
            i <= s.len(),
            forall|j: int| 0 <= j < i ==> t@[at + j] == s@[j],
        decreases s.len() - i,
    {
        if t[at + i] != s[i] {
            assert(t@.subrange(at as int, at + s.len())[i as int] != s@[i as int]);
            return false;
        }
        i += 1;
    }
    assert(t@.subrange(at as int, at + s.len()) =~= s@);
    true
}

/// Whether `s` occurs anywhere in `t`.
pub fn contains_chars(t: &Vec<char>, s: &Vec<char>) -> (r: bool)
    ensures
        r == contains_seq(t@, s@),
{
    let mut at: usize = 0;
    while at < t.len()
        invariant
            at <= t.len(),
            forall|k: int| 0 <= k < at ==> !occurs_at(t@, s@, k),
        decreases t.len() - at,
    {
        if matches_at(t, s, at) {
            return true;
        }
        at += 1;
    }
    matches_at(t, s, at)
}

/// Whether two texts are equal.
///
/// Relies on `PartialEq for str`: it compares the texts character by character.
#[verifier::external_body]
pub fn same_text(a: &str, b: &str) -> (r: bool)
    ensures
        r == (a@ == b@),
{
    a == b
}

} // verus!
