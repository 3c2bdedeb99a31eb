//! Lexer and recursive-descent parser for array-literal resource files
//! (`return ['key' => 'value', ...];` or `return array(...);`).
use vstd::prelude::*;
use crate::text::{chars_of, decimal_chars, occurs_at, same_text, string_of};
use crate::tree::{bool_text, entry_trees, tree_of, ResourceValue, Tree};
use crate::text::decimal;

verus! {

broadcast use vstd::std_specs::vec::group_vec_axioms, vstd::seq::group_seq_axioms;

/// Whether a character has the Unicode `White_Space` property, as
/// `char::is_whitespace` tests it.
pub open spec fn unicode_whitespace(c: char) -> bool {
    ||| ('\u{9}' <= c && c <= '\u{D}')
    ||| c == ' '
    ||| c == '\u{85}'
    ||| c == '\u{A0}'
    ||| c == '\u{1680}'
    ||| ('\u{2000}' <= c && c <= '\u{200A}')
    ||| c == '\u{2028}'
    ||| c == '\u{2029}'
    ||| c == '\u{202F}'
    ||| c == '\u{205F}'
    ||| c == '\u{3000}'
}

/// What `char::is_alphabetic` says of a character (Unicode `Alphabetic`).
pub uninterp spec fn unicode_alphabetic(c: char) -> bool;

/// What `char::is_alphanumeric` says of a character (Unicode `Alphabetic` or `Numeric`).
pub uninterp spec fn unicode_alphanumeric(c: char) -> bool;

/// Whether a character is Unicode white space.
fn is_whitespace(c: char) -> (r: bool)
    ensures
        r == unicode_whitespace(c),
{
    ('\u{9}' <= c && c <= '\u{D}') || c == ' ' || c == '\u{85}' || c == '\u{A0}' || c
        == '\u{1680}' || ('\u{2000}' <= c && c <= '\u{200A}') || c == '\u{2028}' || c
        == '\u{2029}' || c == '\u{202F}' || c == '\u{205F}' || c == '\u{3000}'
}

/// Relies on `char::is_alphabetic`, a fixed Unicode property of the character.
#[verifier::external_body]
fn is_alphabetic(c: char) -> (r: bool)
    ensures
        r == unicode_alphabetic(c),
{
    c.is_alphabetic()
}

/// Relies on `char::is_alphanumeric`, a fixed Unicode property of the character.
#[verifier::external_body]
fn is_alphanumeric(c: char) -> (r: bool)
    ensures
        r == unicode_alphanumeric(c),
{
    c.is_alphanumeric()
}

pub open spec fn is_digit(c: char) -> bool {
    '0' <= c && c <= '9'
}

/// A character that continues a bare identifier.
pub open spec fn ident_char(c: char) -> bool {
    unicode_alphanumeric(c) || c == '_' || c == '-'
}

/// The character an escape sequence `\c` stands for.
pub open spec fn unescape(c: char) -> char {
    if c == 'n' {
        '\n'
    } else if c == 'r' {
        '\r'
    } else if c == 't' {
        '\t'
    } else {
        c
    }
}

/// The text of a quoted string whose body starts at `pos`, and the position
/// after its closing quote (or the end of input when it is unterminated).
pub open spec fn string_body(input: Seq<char>, pos: int, quote: char) -> (Seq<char>, int)
    decreases input.len() - pos,
{
    if pos < 0 || pos >= input.len() {
        (Seq::empty(), input.len() as int)
    } else if input[pos] == quote {
        (Seq::empty(), pos + 1)
    } else if input[pos] == '\\' {
        if pos + 1 < input.len() {
            let rest = string_body(input, pos + 2, quote);
            (seq![unescape(input[pos + 1])] + rest.0, rest.1)
        } else {
            (Seq::empty(), input.len() as int)
        }
    } else {
        let rest = string_body(input, pos + 1, quote);
        (seq![input[pos]] + rest.0, rest.1)
    }
}

/// The end of the number that starts at `pos`: digits, with at most one
/// decimal point (`seen_point` says whether one was read already).
pub open spec fn number_end(input: Seq<char>, pos: int, seen_point: bool) -> int
    decreases input.len() - pos,
{
    if pos < 0 || pos >= input.len() {
        input.len() as int
    } else if is_digit(input[pos]) {
        number_end(input, pos + 1, seen_point)
    } else if input[pos] == '.' && !seen_point {
        number_end(input, pos + 1, true)
    } else {
        pos
    }
}

proof fn lemma_string_body_end(input: Seq<char>, pos: int, quote: char)
    requires
        0 <= pos <= input.len(),
    ensures
        pos <= string_body(input, pos, quote).1 <= input.len(),
    decreases input.len() - pos,
{
    if pos < input.len() && input[pos] != quote {
        if input[pos] == '\\' {
            if pos + 1 < input.len() {
                lemma_string_body_end(input, pos + 2, quote);
            }
        } else {
            lemma_string_body_end(input, pos + 1, quote);
        }
    }
}

/// Where the scanner is: in code, in a line comment, or in a block comment.
#[derive(Clone, Copy, PartialEq, Eq, Structural, Debug)]
pub enum ScanMode {
    Code,
    LineComment,
    BlockComment,
}

/// The position after the first occurrence of `d` at or after `pos`, or the
/// end of input when there is none.
pub open spec fn until_end(input: Seq<char>, pos: int, d: Seq<char>) -> int
    decreases input.len() - pos,
{
    if pos < 0 || pos >= input.len() {
        pos
    } else if occurs_at(input, d, pos) {
        pos + d.len()
    } else {
        until_end(input, pos + 1, d)
    }
}

/// Where scanning from `pos` in `mode` reaches code that is neither
/// whitespace nor a comment: `//` and `#` comments end after a line break,
/// `/* */` comments after `*/`.
pub open spec fn skip_from(input: Seq<char>, pos: int, mode: ScanMode) -> int
    decreases input.len() - pos,
{
    if pos < 0 || pos >= input.len() {
        pos
    } else {
        match mode {
            ScanMode::Code => if unicode_whitespace(input[pos]) {
                skip_from(input, pos + 1, ScanMode::Code)
            } else if occurs_at(input, seq!['/', '/'], pos) {
                skip_from(input, pos + 2, ScanMode::LineComment)
            } else if input[pos] == '#' {
                skip_from(input, pos + 1, ScanMode::LineComment)
            } else if occurs_at(input, seq!['/', '*'], pos) {
                skip_from(input, pos + 2, ScanMode::BlockComment)
            } else {
                pos
            },
            ScanMode::LineComment => if input[pos] == '\n' {
                skip_from(input, pos + 1, ScanMode::Code)
            } else {
                skip_from(input, pos + 1, ScanMode::LineComment)
            },
            ScanMode::BlockComment => if occurs_at(input, seq!['*', '/'], pos) {
                skip_from(input, pos + 2, ScanMode::Code)
            } else {
                skip_from(input, pos + 1, ScanMode::BlockComment)
            },
        }
    }
}

/// The end of the identifier characters from `pos` on.
pub open spec fn ident_end(input: Seq<char>, pos: int) -> int
    decreases input.len() - pos,
{
    if pos < 0 || pos >= input.len() {
        pos
    } else if ident_char(input[pos]) {
        ident_end(input, pos + 1)
    } else {
        pos
    }
}

/// The kind of a token, with its text for strings, words and numbers.
#[derive(Clone, Copy, PartialEq, Eq, Structural, Debug)]
pub enum TokenTag {
    LBracket,
    RBracket,
    LParen,
    RParen,
    Comma,
    Arrow,
    Str,
    Ident,
    Number,
}

/// The token that starts at `p` (in code, after whitespace and comments)
/// and where it ends; none for a character that starts no token.
pub open spec fn token_at(input: Seq<char>, p: int) -> Option<((TokenTag, Seq<char>), int)> {
    if occurs_at(input, seq!['=', '>'], p) {
        Some(((TokenTag::Arrow, Seq::empty()), p + 2))
    } else if 0 <= p < input.len() {
        let c = input[p];
        if c == '[' {
            Some(((TokenTag::LBracket, Seq::empty()), p + 1))
        } else if c == ']' {
            Some(((TokenTag::RBracket, Seq::empty()), p + 1))
        } else if c == '(' {
            Some(((TokenTag::LParen, Seq::empty()), p + 1))
        } else if c == ')' {
            Some(((TokenTag::RParen, Seq::empty()), p + 1))
        } else if c == ',' {
            Some(((TokenTag::Comma, Seq::empty()), p + 1))
        } else if c == '\'' || c == '"' {
            let b = string_body(input, p + 1, c);
            Some(((TokenTag::Str, b.0), b.1))
        } else if is_digit(c) || c == '-' {
            let e = number_end(input, p + 1, false);
            Some(((TokenTag::Number, input.subrange(p, e)), e))
        } else if unicode_alphabetic(c) || c == '_' {
            let e = ident_end(input, p + 1);
            Some(((TokenTag::Ident, input.subrange(p, e)), e))
        } else {
            None
        }
    } else {
        None
    }
}

/// The next token from `pos` on, scanning in `mode`, and the position after
/// it: whitespace, comments, `;` and characters that start no token are
/// passed over; none at the end of input.
pub open spec fn lex_from(input: Seq<char>, pos: int, mode: ScanMode) -> (Option<(TokenTag, Seq<char>)>, int)
    decreases input.len() - pos,
{
    if pos < 0 || pos >= input.len() {
        (None, pos)
    } else {
        match mode {
            ScanMode::Code => if unicode_whitespace(input[pos]) {
                lex_from(input, pos + 1, ScanMode::Code)
            } else if occurs_at(input, seq!['/', '/'], pos) {
                lex_from(input, pos + 2, ScanMode::LineComment)
            } else if input[pos] == '#' {
                lex_from(input, pos + 1, ScanMode::LineComment)
            } else if occurs_at(input, seq!['/', '*'], pos) {
                lex_from(input, pos + 2, ScanMode::BlockComment)
            } else {
                match token_at(input, pos) {
                    Some(t) => (Some(t.0), t.1),
                    None => lex_from(input, pos + 1, ScanMode::Code),
                }
            },
            ScanMode::LineComment => if input[pos] == '\n' {
                lex_from(input, pos + 1, ScanMode::Code)
            } else {
                lex_from(input, pos + 1, ScanMode::LineComment)
            },
            ScanMode::BlockComment => if occurs_at(input, seq!['*', '/'], pos) {
                lex_from(input, pos + 2, ScanMode::Code)
            } else {
                lex_from(input, pos + 1, ScanMode::BlockComment)
            },
        }
    }
}

proof fn lemma_lex_skip(input: Seq<char>, pos: int, mode: ScanMode)
    requires
        0 <= pos <= input.len(),
    ensures
        lex_from(input, pos, mode) == lex_from(input, skip_from(input, pos, mode), ScanMode::Code),
        pos <= skip_from(input, pos, mode) <= input.len(),
    decreases input.len() - pos,
{
    if pos < input.len() {
        match mode {
            ScanMode::Code => {
                if unicode_whitespace(input[pos]) {
                    lemma_lex_skip(input, pos + 1, ScanMode::Code);
                } else if occurs_at(input, seq!['/', '/'], pos) {
                    lemma_lex_skip(input, pos + 2, ScanMode::LineComment);
                } else if input[pos] == '#' {
                    lemma_lex_skip(input, pos + 1, ScanMode::LineComment);
                } else if occurs_at(input, seq!['/', '*'], pos) {
                    lemma_lex_skip(input, pos + 2, ScanMode::BlockComment);
                }
            },
            ScanMode::LineComment => {
                if input[pos] == '\n' {
                    lemma_lex_skip(input, pos + 1, ScanMode::Code);
                } else {
                    lemma_lex_skip(input, pos + 1, ScanMode::LineComment);
                }
            },
            ScanMode::BlockComment => {
                if occurs_at(input, seq!['*', '/'], pos) {
                    lemma_lex_skip(input, pos + 2, ScanMode::Code);
                } else {
                    lemma_lex_skip(input, pos + 1, ScanMode::BlockComment);
                }
            },
        }
    }
}

proof fn lemma_until_skip(input: Seq<char>, pos: int, mode: ScanMode, d: Seq<char>)
    requires
        0 <= pos <= input.len(),
        mode == ScanMode::LineComment ==> d == seq!['\n'],
        mode == ScanMode::BlockComment ==> d == seq!['*', '/'],
        mode != ScanMode::Code,
    ensures
        skip_from(input, pos, mode) == skip_from(input, until_end(input, pos, d), ScanMode::Code),
        pos <= until_end(input, pos, d) <= input.len(),
    decreases input.len() - pos,
{
    if pos < input.len() {
        if mode == ScanMode::LineComment {
            if input[pos] != '\n' {
                assert(!occurs_at(input, d, pos)) by {
                    assert(input.subrange(pos, pos + 1)[0] == input[pos]);
                }
                lemma_until_skip(input, pos + 1, mode, d);
            } else {
                assert(occurs_at(input, d, pos)) by {
                    assert(input.subrange(pos, pos + 1) =~= d);
                }
            }
        } else {
            if !occurs_at(input, seq!['*', '/'], pos) {
                lemma_until_skip(input, pos + 1, mode, d);
            }
        }
    }
}

proof fn lemma_ident_end(input: Seq<char>, a: int, b: int)
    requires
        0 <= a <= b <= input.len(),
        forall|k: int| a <= k < b ==> ident_char(input[k]),
        b < input.len() ==> !ident_char(input[b]),
    ensures
        ident_end(input, a) == b,
    decreases b - a,
{
    if a < b {
        lemma_ident_end(input, a + 1, b);
    }
}

proof fn lemma_number_end_bounds(input: Seq<char>, pos: int, seen_point: bool)
    requires
        0 <= pos <= input.len(),
    ensures
        pos <= number_end(input, pos, seen_point) <= input.len(),
    decreases input.len() - pos,
{
    if pos < input.len() {
        if is_digit(input[pos]) {
            lemma_number_end_bounds(input, pos + 1, seen_point);
        } else if input[pos] == '.' && !seen_point {
            lemma_number_end_bounds(input, pos + 1, true);
        }
    }
}

/// The kind and text of a token.
spec fn token_view(t: PhpToken) -> (TokenTag, Seq<char>) {
    match t {
        PhpToken::LBracket => (TokenTag::LBracket, Seq::empty()),
        PhpToken::RBracket => (TokenTag::RBracket, Seq::empty()),
        PhpToken::LParen => (TokenTag::LParen, Seq::empty()),
        PhpToken::RParen => (TokenTag::RParen, Seq::empty()),
        PhpToken::Comma => (TokenTag::Comma, Seq::empty()),
        PhpToken::Arrow => (TokenTag::Arrow, Seq::empty()),
        PhpToken::Str(s) => (TokenTag::Str, s@),
        PhpToken::Ident(s) => (TokenTag::Ident, s@),
        PhpToken::Number(s) => (TokenTag::Number, s@),
    }
}

/// The kind and text of an optional token.
spec fn opt_token_view(t: Option<PhpToken>) -> Option<(TokenTag, Seq<char>)> {
    match t {
        Some(x) => Some(token_view(x)),
        None => None,
    }
}

/// A token of the array-literal syntax.
enum PhpToken {
    LBracket,
    RBracket,
    LParen,
    RParen,
    Comma,
    Arrow,
    Str(String),
    Ident(String),
    Number(String),
}

/// The punctuation tokens, without payload.
#[derive(Clone, Copy, PartialEq, Eq, Structural, Debug)]
pub enum PhpTokenKind {
    LBracket,
    RBracket,
    LParen,
    RParen,
    Comma,
    Arrow,
}

spec fn kind_of(t: PhpToken) -> Option<PhpTokenKind> {
    match t {
        PhpToken::LBracket => Some(PhpTokenKind::LBracket),
        PhpToken::RBracket => Some(PhpTokenKind::RBracket),
        PhpToken::LParen => Some(PhpTokenKind::LParen),
        PhpToken::RParen => Some(PhpTokenKind::RParen),
        PhpToken::Comma => Some(PhpTokenKind::Comma),
        PhpToken::Arrow => Some(PhpTokenKind::Arrow),
        _ => None,
    }
}

/// The punctuation kind of a token, if it is punctuation.
fn token_kind(token: &PhpToken) -> (r: Option<PhpTokenKind>)
    ensures
        r == kind_of(*token),
{
    match token {
        PhpToken::LBracket => Some(PhpTokenKind::LBracket),
        PhpToken::RBracket => Some(PhpTokenKind::RBracket),
        PhpToken::LParen => Some(PhpTokenKind::LParen),
        PhpToken::RParen => Some(PhpTokenKind::RParen),
        PhpToken::Comma => Some(PhpTokenKind::Comma),
        PhpToken::Arrow => Some(PhpTokenKind::Arrow),
        _ => None,
    }
}

/// A cursor over the characters of an input.
struct PhpLexer {
    input: Vec<char>,
    pos: usize,
}

impl PhpLexer {
    spec fn text(&self) -> Seq<char> {
        self.input@
    }

    spec fn at(&self) -> int {
        self.pos as int
    }

    spec fn wf(&self) -> bool {
        self.at() <= self.text().len()
    }

    /// How much input is left to read.
    spec fn remaining(&self) -> int {
        self.text().len() - self.at()
    }

    /// A lexer at the start of `input`.
    fn new(input: &str) -> (r: PhpLexer)
        ensures
            r.wf(),
            r.text() == input@,
            r.at() == 0,
    {
        PhpLexer { input: chars_of(input), pos: 0 }
    }

    /// Whether `s` occurs at the cursor.
    fn starts_with(&self, s: &Vec<char>) -> (r: bool)
        requires
            self.wf(),
        ensures
            r == occurs_at(self.text(), s@, self.at()),
    {
        crate::text::matches_at(&self.input, s, self.pos)
    }

    /// The character at the cursor.
    fn peek_char(&self) -> (r: Option<char>)
        requires
            self.wf(),
        ensures
            r == (if self.at() < self.text().len() {
                Some(self.text()[self.at()])
            } else {
                None::<char>
            }),
    {
        if self.pos < self.input.len() {
            Some(self.input[self.pos])
        } else {
            None
        }
    }

    /// The character at the cursor, moving past it.
    fn next_char(&mut self) -> (r: Option<char>)
        requires
            old(self).wf(),
        ensures
            final(self).wf(),
            final(self).text() == old(self).text(),
            r == (if old(self).at() < old(self).text().len() {
                Some(old(self).text()[old(self).at()])
            } else {
                None::<char>
            }),
            final(self).at() == (if old(self).at() < old(self).text().len() {
                old(self).at() + 1
            } else {
                old(self).at()
            }),
    {
        if self.pos < self.input.len() {
            let ch = self.input[self.pos];
            self.pos = self.pos + 1;
            Some(ch)
        } else {
            None
        }
    }

    /// Moves past the first occurrence of `delimiter`, or to the end of input
    /// when there is none.
    fn consume_until(&mut self, delimiter: &Vec<char>)
        requires
            old(self).wf(),
            delimiter@.len() > 0,
        ensures
            final(self).wf(),
            final(self).text() == old(self).text(),
            forall|k: int|
                old(self).at() <= k && k + delimiter@.len() < final(self).at() ==> !occurs_at(
                    old(self).text(),
                    delimiter@,
                    k,
                ),
            final(self).at() == old(self).text().len() || (final(self).at() >= old(self).at()
                + delimiter@.len() && occurs_at(
                old(self).text(),
                delimiter@,
                final(self).at() - delimiter@.len(),
            )),
            final(self).at() >= old(self).at(),
            final(self).at() == until_end(old(self).text(), old(self).at(), delimiter@),
    {
        while self.pos < self.input.len()
            invariant
                self.wf(),
                self.text() == old(self).text(),
                self.at() >= old(self).at(),
                delimiter@.len() > 0,
                until_end(self.text(), self.at(), delimiter@) == until_end(
                    old(self).text(),
                    old(self).at(),
                    delimiter@,
                ),
                forall|k: int|
                    old(self).at() <= k < self.at() ==> !occurs_at(old(self).text(), delimiter@, k),
            decreases self.remaining(),
        {
            if self.starts_with(delimiter) {
                self.pos = self.pos + delimiter.len();
                return;
            }
            self.next_char();
        }
    }

    /// Moves past whitespace, `//` and `#` line comments and `/* */` block comments.
    fn skip_whitespace_and_comments(&mut self)
        requires
            old(self).wf(),
        ensures
            final(self).wf(),
            final(self).text() == old(self).text(),
            final(self).at() >= old(self).at(),
            final(self).at() < final(self).text().len() ==> {
                &&& !unicode_whitespace(final(self).text()[final(self).at()])
                &&& !occurs_at(final(self).text(), seq!['/', '/'], final(self).at())
                &&& !occurs_at(final(self).text(), seq!['#'], final(self).at())
                &&& !occurs_at(final(self).text(), seq!['/', '*'], final(self).at())
            },
            final(self).at() == skip_from(old(self).text(), old(self).at(), ScanMode::Code),
    {
        let line_comment = vec!['/', '/'];
        let hash_comment = vec!['#'];
        let block_open = vec!['/', '*'];
        let block_close = vec!['*', '/'];
        let newline = vec!['\n'];
        loop
            invariant
                self.wf(),
                self.text() == old(self).text(),
                self.at() >= old(self).at(),
                line_comment@ == seq!['/', '/'],
                hash_comment@ == seq!['#'],
                block_open@ == seq!['/', '*'],
                block_close@ == seq!['*', '/'],
                newline@ == seq!['\n'],
                skip_from(self.text(), self.at(), ScanMode::Code) == skip_from(
                    old(self).text(),
                    old(self).at(),
                    ScanMode::Code,
                ),
            decreases self.remaining(),
        {
            let ghost start = self.at();
            while self.pos < self.input.len() && is_whitespace(self.input[self.pos])
                invariant
                    self.wf(),
                    self.text() == old(self).text(),
                    self.at() >= start,
                    start >= old(self).at(),
                    skip_from(self.text(), self.at(), ScanMode::Code) == skip_from(
                        old(self).text(),
                        old(self).at(),
                        ScanMode::Code,
                    ),
                decreases self.remaining(),
            {
                self.pos = self.pos + 1;
            }
            let ghost p = self.at();
            if self.starts_with(&line_comment) {
                proof {
                    lemma_until_skip(self.text(), p + 2, ScanMode::LineComment, seq!['\n']);
                    assert(until_end(self.text(), p, seq!['\n']) == until_end(self.text(), p + 1, seq!['\n'])) by {
                        assert(self.text().subrange(p, p + 1)[0] == '/');
                    }
                    assert(until_end(self.text(), p + 1, seq!['\n']) == until_end(self.text(), p + 2, seq!['\n'])) by {
                        assert(self.text().subrange(p, p + 2)[1] == '/');
                        assert(self.text().subrange(p + 1, p + 2)[0] == self.text()[p + 1]);
                    }
                }
                self.consume_until(&newline);
            } else if self.starts_with(&hash_comment) {
                proof {
                    assert(self.text()[p] == '#') by {
                        assert(self.text().subrange(p, p + 1)[0] == self.text()[p]);
                    }
                    lemma_until_skip(self.text(), p + 1, ScanMode::LineComment, seq!['\n']);
                    assert(until_end(self.text(), p, seq!['\n']) == until_end(self.text(), p + 1, seq!['\n'])) by {
                        assert(self.text().subrange(p, p + 1)[0] == '#');
                    }
                }
                self.consume_until(&newline);
            } else if self.starts_with(&block_open) {
                proof {
                    lemma_until_skip(self.text(), p + 2, ScanMode::BlockComment, seq!['*', '/']);
                    assert(self.text()[p] != '#') by {
                        assert(self.text().subrange(p, p + 2)[0] == self.text()[p]);
                    }
                }
                self.pos = self.pos + 2;
                self.consume_until(&block_close);
            } else {
                proof {
                    if p < self.text().len() && self.text()[p] == '#' {
                        assert(occurs_at(self.text(), seq!['#'], p)) by {
                            assert(self.text().subrange(p, p + 1) =~= seq!['#']);
                        }
                    }
                }
                return;
            }
        }
    }
}


impl PhpLexer {
    /// Reads the body of a string literal whose opening `quote` was just read,
    /// decoding escapes, and moves past the closing quote.
    fn read_string(&mut self, quote: char) -> (r: String)
        requires
            old(self).wf(),
        ensures
            final(self).wf(),
            final(self).text() == old(self).text(),
            r@ == string_body(old(self).text(), old(self).at(), quote).0,
            final(self).at() == string_body(old(self).text(), old(self).at(), quote).1,
    {
        let ghost start = self.at();
        let mut result: Vec<char> = Vec::new();
        loop
            invariant
                self.wf(),
                self.text() == old(self).text(),
                start == old(self).at(),
                result@ + string_body(self.text(), self.at(), quote).0 == string_body(
                    self.text(),
                    start,
                    quote,
                ).0,
                string_body(self.text(), self.at(), quote).1 == string_body(
                    self.text(),
                    start,
                    quote,
                ).1,
            decreases self.remaining(),
        {
            let ghost here = self.at();
            match self.next_char() {
                None => {
                    assert(result@ + Seq::<char>::empty() =~= result@);
                    return string_of(&result);
                },
                Some(ch) => {
                    if ch == quote {
                        assert(result@ + Seq::<char>::empty() =~= result@);
                        return string_of(&result);
                    }
                    if ch == '\\' {
                        match self.next_char() {
                            Some(escaped) => {
                                let unescaped = if escaped == 'n' {
                                    '\n'
                                } else if escaped == 'r' {
                                    '\r'
                                } else if escaped == 't' {
                                    '\t'
                                } else {
                                    escaped
                                };
                                let ghost rest = string_body(self.text(), self.at(), quote);
                                assert(string_body(self.text(), here, quote).0 == seq![unescaped]
                                    + rest.0);
                                let ghost before = result@;
                                result.push(unescaped);
                                assert(result@ + rest.0 =~= before + (seq![unescaped] + rest.0));
                                
                            },
                            None => {
                                assert(result@ + Seq::<char>::empty() =~= result@);
                                return string_of(&result);
                            },
                        }
                    } else {
                        let ghost rest = string_body(self.text(), self.at(), quote);
                        assert(string_body(self.text(), here, quote).0 == seq![ch] + rest.0);
                        let ghost before = result@;
                        result.push(ch);
                        assert(result@ + rest.0 =~= before + (seq![ch] + rest.0));
                    }
                },
            }
        }
    }

    /// Reads the rest of a bare identifier.
    fn read_ident(&mut self) -> (r: String)
        requires
            old(self).wf(),
        ensures
            final(self).wf(),
            final(self).text() == old(self).text(),
            final(self).at() >= old(self).at(),
            r@ == old(self).text().subrange(old(self).at(), final(self).at()),
            forall|k: int| old(self).at() <= k < final(self).at() ==> ident_char(old(self).text()[k]),
            final(self).at() < final(self).text().len() ==> !ident_char(
                final(self).text()[final(self).at()],
            ),
    {
        let ghost start = self.at();
        let mut result: Vec<char> = Vec::new();
        loop
            invariant
                self.wf(),
                self.text() == old(self).text(),
                start == old(self).at(),
                self.at() >= start,
                result@ == self.text().subrange(start, self.at()),
                forall|k: int| start <= k < self.at() ==> ident_char(self.text()[k]),
            ensures
                self.wf(),
                self.text() == old(self).text(),
                self.at() >= start,
                result@ == self.text().subrange(start, self.at()),
                forall|k: int| start <= k < self.at() ==> ident_char(self.text()[k]),
                self.at() < self.text().len() ==> !ident_char(self.text()[self.at()]),
            decreases self.remaining(),
        {
            if self.pos >= self.input.len() {
                break;
            }
            let ch = self.input[self.pos];
            if is_alphanumeric(ch) || ch == '_' || ch == '-' {
                result.push(ch);
                self.pos = self.pos + 1;
                assert(result@ =~= self.text().subrange(start, self.at()));
            } else {
                break;
            }
        }
        string_of(&result)
    }

    /// Reads the rest of a number: digits with at most one decimal point.
    fn read_number(&mut self) -> (r: String)
        requires
            old(self).wf(),
        ensures
            final(self).wf(),
            final(self).text() == old(self).text(),
            final(self).at() == number_end(old(self).text(), old(self).at(), false),
            final(self).at() >= old(self).at(),
            r@ == old(self).text().subrange(old(self).at(), final(self).at()),
    {
        let ghost start = self.at();
        let mut seen_point = false;
        let mut result: Vec<char> = Vec::new();
        loop
            invariant
                self.wf(),
                self.text() == old(self).text(),
                start == old(self).at(),
                self.at() >= start,
                result@ == self.text().subrange(start, self.at()),
                number_end(self.text(), self.at(), seen_point) == number_end(
                    self.text(),
                    start,
                    false,
                ),
            ensures
                self.wf(),
                self.text() == old(self).text(),
                self.at() >= start,
                result@ == self.text().subrange(start, self.at()),
                self.at() == number_end(self.text(), start, false),
            decreases self.remaining(),
        {
            if self.pos >= self.input.len() {
                break;
            }
            let ch = self.input[self.pos];
            if ('0' <= ch && ch <= '9') || (ch == '.' && !seen_point) {
                if ch == '.' {
                    seen_point = true;
                }
                result.push(ch);
                self.pos = self.pos + 1;
                assert(result@ =~= self.text().subrange(start, self.at()));
            } else {
                break;
            }
        }
        string_of(&result)
    }

    /// The next token, skipping whitespace, comments, statement terminators
    /// and characters that start no token; `None` at the end of input.
    fn next_token(&mut self) -> (r: Option<PhpToken>)
        requires
            old(self).wf(),
        ensures
            final(self).wf(),
            final(self).text() == old(self).text(),
            final(self).at() >= old(self).at(),
            r is Some ==> final(self).at() > old(self).at(),
            r is None ==> final(self).at() == final(self).text().len(),
            opt_token_view(r) == lex_from(old(self).text(), old(self).at(), ScanMode::Code).0,
            final(self).at() == lex_from(old(self).text(), old(self).at(), ScanMode::Code).1,
    {
        let arrow = vec!['=', '>'];
        loop
            invariant
                self.wf(),
                self.text() == old(self).text(),
                self.at() >= old(self).at(),
                arrow@ == seq!['=', '>'],
                lex_from(self.text(), self.at(), ScanMode::Code) == lex_from(
                    old(self).text(),
                    old(self).at(),
                    ScanMode::Code,
                ),
            decreases self.remaining(),
        {
            proof {
                lemma_lex_skip(self.text(), self.at(), ScanMode::Code);
            }
            self.skip_whitespace_and_comments();
            let ghost p = self.at();
            let ghost input = self.text();
            if self.pos >= self.input.len() {
                return None;
            }
            proof {
                assert(input[p] != '#') by {
                    if input[p] == '#' {
                        assert(occurs_at(input, seq!['#'], p)) by {
                            assert(input.subrange(p, p + 1) =~= seq!['#']);
                        }
                    }
                }
            }
            if self.starts_with(&arrow) {
                self.pos = self.pos + 2;
                return Some(PhpToken::Arrow);
            }
            let ch = self.input[self.pos];
            self.pos = self.pos + 1;
            if ch == '[' {
                return Some(PhpToken::LBracket);
            } else if ch == ']' {
                return Some(PhpToken::RBracket);
            } else if ch == '(' {
                return Some(PhpToken::LParen);
            } else if ch == ')' {
                return Some(PhpToken::RParen);
            } else if ch == ',' {
                return Some(PhpToken::Comma);
            } else if ch == '\'' || ch == '"' {
                proof {
                    lemma_string_body_end(self.text(), self.at(), ch);
                }
                return Some(PhpToken::Str(self.read_string(ch)));
            } else if ('0' <= ch && ch <= '9') || ch == '-' {
                let rest = self.read_number();
                let mut number = vec![ch];
                let rest_chars = chars_of(rest.as_str());
                let mut i: usize = 0;
                while i < rest_chars.len()
                    invariant
                        i <= rest_chars.len(),
                        number@ == seq![ch] + rest_chars@.take(i as int),
                    decreases rest_chars.len() - i,
                {
                    number.push(rest_chars[i]);
                    i += 1;
                    assert(number@ =~= seq![ch] + rest_chars@.take(i as int));
                }
                proof {
                    assert(rest_chars@.take(rest_chars@.len() as int) =~= rest_chars@);
                    assert(number@ =~= input.subrange(p, self.at()));
                }
                return Some(PhpToken::Number(string_of(&number)));
            } else if is_alphabetic(ch) || ch == '_' {
                let rest = self.read_ident();
                proof {
                    lemma_ident_end(input, p + 1, self.at());
                }
                let mut ident = vec![ch];
                let rest_chars = chars_of(rest.as_str());
                let mut i: usize = 0;
                while i < rest_chars.len()
                    invariant
                        i <= rest_chars.len(),
                        ident@ == seq![ch] + rest_chars@.take(i as int),
                    decreases rest_chars.len() - i,
                {
                    ident.push(rest_chars[i]);
                    i += 1;
                    assert(ident@ =~= seq![ch] + rest_chars@.take(i as int));
                }
                proof {
                    assert(rest_chars@.take(rest_chars@.len() as int) =~= rest_chars@);
                    assert(ident@ =~= input.subrange(p, self.at()));
                }
                return Some(PhpToken::Ident(string_of(&ident)));
            }
        }
    }
}



impl PhpToken {
    /// A copy of the token.
    fn duplicate(&self) -> (r: PhpToken)
        ensures
            r == *self,
    {
        match self {
            PhpToken::LBracket => PhpToken::LBracket,
            PhpToken::RBracket => PhpToken::RBracket,
            PhpToken::LParen => PhpToken::LParen,
            PhpToken::RParen => PhpToken::RParen,
            PhpToken::Comma => PhpToken::Comma,
            PhpToken::Arrow => PhpToken::Arrow,
            PhpToken::Str(s) => PhpToken::Str(s.clone()),
            PhpToken::Ident(s) => PhpToken::Ident(s.clone()),
            PhpToken::Number(s) => PhpToken::Number(s.clone()),
        }
    }
}

/// Why an array-literal resource could not be read.
#[derive(Clone, Copy, PartialEq, Eq, Structural, Debug)]
pub enum PhpParseError {
    /// The input holds no `[` and no `array(`.
    NoArray,
    /// An array was expected where the input holds something else.
    ExpectedArrayStart,
    /// The given punctuation was expected.
    ExpectedToken(PhpTokenKind),
    /// A token that cannot start a value.
    UnexpectedToken,
    /// The input ended where a value was expected.
    UnexpectedEnd,
}

/// The text a scalar stands for when it is used as a key; empty for `null`
/// and for arrays.
pub open spec fn key_text(v: ResourceValue) -> Seq<char> {
    match v {
        ResourceValue::Str(s) => s@,
        ResourceValue::Number(n) => n@,
        ResourceValue::Bool(b) => crate::tree::bool_text(b),
        _ => Seq::empty(),
    }
}

/// The key text of a value used on the left of `=>`.
pub fn value_to_key(value: &ResourceValue) -> (r: String)
    ensures
        r@ == key_text(*value),
{
    match value {
        ResourceValue::Str(s) => s.clone(),
        ResourceValue::Number(n) => n.clone(),
        ResourceValue::Bool(b) => {
            let v = if *b {
                vec!['t', 'r', 'u', 'e']
            } else {
                vec!['f', 'a', 'l', 's', 'e']
            };
            assert(v@ =~= crate::tree::bool_text(*b));
            string_of(&v)
        },
        _ => string_of(&Vec::new()),
    }
}

fn is_kind(k: Option<PhpTokenKind>, kind: PhpTokenKind) -> (r: bool)
    ensures
        r == (k == Some(kind)),
{
    match k {
        Some(x) => x == kind,
        None => false,
    }
}

proof fn lemma_ident_end_bounds(input: Seq<char>, pos: int)
    requires
        0 <= pos <= input.len(),
    ensures
        pos <= ident_end(input, pos) <= input.len(),
    decreases input.len() - pos,
{
    if pos < input.len() && ident_char(input[pos]) {
        lemma_ident_end_bounds(input, pos + 1);
    }
}

/// Scanning never moves back nor past the end; a token found lies past its
/// start, and when none is found the scan ends at the end of input.
pub proof fn lemma_lex_progress(input: Seq<char>, pos: int, mode: ScanMode)
    requires
        0 <= pos <= input.len(),
    ensures
        pos <= lex_from(input, pos, mode).1 <= input.len(),
        lex_from(input, pos, mode).0 is Some ==> pos < lex_from(input, pos, mode).1,
        lex_from(input, pos, mode).0 is None ==> lex_from(input, pos, mode).1 == input.len(),
    decreases input.len() - pos,
{
    if pos < input.len() {
        match mode {
            ScanMode::Code => {
                if unicode_whitespace(input[pos]) {
                    lemma_lex_progress(input, pos + 1, ScanMode::Code);
                } else if occurs_at(input, seq!['/', '/'], pos) {
                    lemma_lex_progress(input, pos + 2, ScanMode::LineComment);
                } else if input[pos] == '#' {
                    lemma_lex_progress(input, pos + 1, ScanMode::LineComment);
                } else if occurs_at(input, seq!['/', '*'], pos) {
                    lemma_lex_progress(input, pos + 2, ScanMode::BlockComment);
                } else {
                    let c = input[pos];
                    if c == '\'' || c == '"' {
                        lemma_string_body_end(input, pos + 1, c);
                    }
                    lemma_number_end_bounds(input, pos + 1, false);
                    lemma_ident_end_bounds(input, pos + 1);
                    if token_at(input, pos) is None {
                        lemma_lex_progress(input, pos + 1, ScanMode::Code);
                    }
                }
            },
            ScanMode::LineComment => {
                if input[pos] == '\n' {
                    lemma_lex_progress(input, pos + 1, ScanMode::Code);
                } else {
                    lemma_lex_progress(input, pos + 1, ScanMode::LineComment);
                }
            },
            ScanMode::BlockComment => {
                if occurs_at(input, seq!['*', '/'], pos) {
                    lemma_lex_progress(input, pos + 2, ScanMode::Code);
                } else {
                    lemma_lex_progress(input, pos + 1, ScanMode::BlockComment);
                }
            },
        }
    }
}

/// The token tag of a punctuation kind.
pub open spec fn tag_of(k: PhpTokenKind) -> TokenTag {
    match k {
        PhpTokenKind::LBracket => TokenTag::LBracket,
        PhpTokenKind::RBracket => TokenTag::RBracket,
        PhpTokenKind::LParen => TokenTag::LParen,
        PhpTokenKind::RParen => TokenTag::RParen,
        PhpTokenKind::Comma => TokenTag::Comma,
        PhpTokenKind::Arrow => TokenTag::Arrow,
    }
}

/// The text a scalar tree stands for as a key; empty for null and arrays.
pub open spec fn tree_key(t: Tree) -> Seq<char> {
    match t {
        Tree::Str(s) => s,
        Tree::Number(n) => n,
        Tree::Bool(b) => bool_text(b),
        _ => Seq::empty(),
    }
}

/// The position after an optional comma at `p`.
pub open spec fn after_comma(input: Seq<char>, p: int) -> int {
    if lex_from(input, p, ScanMode::Code).0 == Some((TokenTag::Comma, Seq::<char>::empty())) {
        lex_from(input, p, ScanMode::Code).1
    } else {
        p
    }
}

/// Whether a token opens an array: `[` or the word `array`.
pub open spec fn opens_array(tok: (TokenTag, Seq<char>)) -> bool {
    tok.0 == TokenTag::LBracket || (tok.0 == TokenTag::Ident && tok.1 == "array"@)
}

/// A value at `pos`: an array, a string, a number, `true`, `false`, `null`,
/// or a bare word read as a string; with the position after it.
pub open spec fn g_value(input: Seq<char>, pos: int) -> Result<(Tree, int), PhpParseError>
    decreases input.len() - pos, 2nat,
{
    if pos < 0 || pos > input.len() {
        Err(PhpParseError::UnexpectedEnd)
    } else {
        let (t, e) = lex_from(input, pos, ScanMode::Code);
        match t {
            None => Err(PhpParseError::UnexpectedEnd),
            Some(tok) => if opens_array(tok) {
                g_array(input, pos)
            } else if tok.0 == TokenTag::Str {
                Ok((Tree::Str(tok.1), e))
            } else if tok.0 == TokenTag::Number {
                Ok((Tree::Number(tok.1), e))
            } else if tok.0 == TokenTag::Ident {
                if tok.1 == "true"@ {
                    Ok((Tree::Bool(true), e))
                } else if tok.1 == "false"@ {
                    Ok((Tree::Bool(false), e))
                } else if tok.1 == "null"@ {
                    Ok((Tree::Null, e))
                } else {
                    Ok((Tree::Str(tok.1), e))
                }
            } else {
                Err(PhpParseError::UnexpectedToken)
            },
        }
    }
}

/// An array at `pos`, `[ ... ]` or `array( ... )`, with the position after it.
pub open spec fn g_array(input: Seq<char>, pos: int) -> Result<(Tree, int), PhpParseError>
    decreases input.len() - pos, 1nat,
{
    if pos < 0 || pos > input.len() {
        Err(PhpParseError::ExpectedArrayStart)
    } else {
        proof {
            lemma_lex_progress(input, pos, ScanMode::Code);
        }
        let (t, e) = lex_from(input, pos, ScanMode::Code);
        match t {
            None => Err(PhpParseError::ExpectedArrayStart),
            Some(tok) => if tok.0 == TokenTag::LBracket {
                g_items(input, e, TokenTag::RBracket, 0, Seq::empty())
            } else if tok.0 == TokenTag::Ident && tok.1 == "array"@ {
                proof {
                    lemma_lex_progress(input, e, ScanMode::Code);
                }
                let (t2, e2) = lex_from(input, e, ScanMode::Code);
                if t2 == Some((TokenTag::LParen, Seq::<char>::empty())) {
                    g_items(input, e2, TokenTag::RParen, 0, Seq::empty())
                } else {
                    Err(PhpParseError::ExpectedToken(PhpTokenKind::LParen))
                }
            } else {
                Err(PhpParseError::ExpectedArrayStart)
            },
        }
    }
}

/// The elements of an array from `pos` up to its `close` token (or the end of
/// input), after the keyed elements `acc` with `index` unkeyed ones read.
/// An element is `value` (keyed by its position among unkeyed elements) or
/// `key => value` (keyed by the key's text; dropped when that is empty),
/// optionally followed by a comma.
pub open spec fn g_items(
    input: Seq<char>,
    pos: int,
    close: TokenTag,
    index: nat,
    acc: Seq<(Seq<char>, Tree)>,
) -> Result<(Tree, int), PhpParseError>
    decreases input.len() - pos, 3nat,
{
    if pos < 0 || pos > input.len() {
        Err(PhpParseError::UnexpectedEnd)
    } else {
        proof {
            lemma_lex_progress(input, pos, ScanMode::Code);
        }
        let (t, e) = lex_from(input, pos, ScanMode::Code);
        match t {
            None => Ok((Tree::Object(acc), e)),
            Some(tok) => if tok.0 == close {
                Ok((Tree::Object(acc), e))
            } else {
                match g_value(input, pos) {
                    Err(x) => Err(x),
                    Ok(kv) => if kv.1 <= pos || kv.1 > input.len() {
                        Err(PhpParseError::UnexpectedEnd)
                    } else {
                        proof {
                            lemma_lex_progress(input, kv.1, ScanMode::Code);
                        }
                        let (t1, e1) = lex_from(input, kv.1, ScanMode::Code);
                        if t1 == Some((TokenTag::Arrow, Seq::<char>::empty())) {
                            match g_value(input, e1) {
                                Err(x) => Err(x),
                                Ok(vv) => if vv.1 <= pos || vv.1 > input.len() {
                                    Err(PhpParseError::UnexpectedEnd)
                                } else {
                                    proof {
                                        lemma_lex_progress(input, vv.1, ScanMode::Code);
                                    }
                                    let key = tree_key(kv.0);
                                    g_items(
                                        input,
                                        after_comma(input, vv.1),
                                        close,
                                        index,
                                        if key.len() > 0 {
                                            acc.push((key, vv.0))
                                        } else {
                                            acc
                                        },
                                    )
                                },
                            }
                        } else {
                            g_items(
                                input,
                                after_comma(input, kv.1),
                                close,
                                index + 1,
                                acc.push((decimal(index), kv.0)),
                            )
                        }
                    },
                }
            },
        }
    }
}

/// The first array of the text from `pos` on; tokens before it are passed over.
pub open spec fn g_root(input: Seq<char>, pos: int) -> Result<(Tree, int), PhpParseError>
    decreases input.len() - pos,
{
    if pos < 0 || pos > input.len() {
        Err(PhpParseError::NoArray)
    } else {
        proof {
            lemma_lex_progress(input, pos, ScanMode::Code);
        }
        let (t, e) = lex_from(input, pos, ScanMode::Code);
        match t {
            None => Err(PhpParseError::NoArray),
            Some(tok) => if opens_array(tok) {
                g_array(input, pos)
            } else {
                g_root(input, e)
            },
        }
    }
}

/// The tree an array-literal resource holds: its first array.
pub open spec fn php_document(content: Seq<char>) -> Result<Tree, PhpParseError> {
    match g_root(content, 0) {
        Ok(x) => Ok(x.0),
        Err(e) => Err(e),
    }
}

proof fn lemma_g_value(input: Seq<char>, pos: int)
    ensures
        g_value(input, pos) matches Ok(x) ==> pos < x.1 <= input.len(),
    decreases input.len() - pos, 2nat,
{
    if 0 <= pos <= input.len() {
        lemma_lex_progress(input, pos, ScanMode::Code);
        lemma_g_array(input, pos);
    }
}

proof fn lemma_g_array(input: Seq<char>, pos: int)
    ensures
        g_array(input, pos) matches Ok(x) ==> pos < x.1 <= input.len(),
    decreases input.len() - pos, 1nat,
{
    if 0 <= pos <= input.len() {
        lemma_lex_progress(input, pos, ScanMode::Code);
        let e = lex_from(input, pos, ScanMode::Code).1;
        if lex_from(input, pos, ScanMode::Code).0 is Some {
            lemma_g_items(input, e, TokenTag::RBracket, 0, Seq::empty());
            lemma_lex_progress(input, e, ScanMode::Code);
            let e2 = lex_from(input, e, ScanMode::Code).1;
            lemma_g_items(input, e2, TokenTag::RParen, 0, Seq::empty());
        }
    }
}

proof fn lemma_g_items(
    input: Seq<char>,
    pos: int,
    close: TokenTag,
    index: nat,
    acc: Seq<(Seq<char>, Tree)>,
)
    ensures
        g_items(input, pos, close, index, acc) matches Ok(x) ==> pos <= x.1 <= input.len(),
    decreases input.len() - pos, 3nat,
{
    if 0 <= pos <= input.len() {
        lemma_lex_progress(input, pos, ScanMode::Code);
        let t = lex_from(input, pos, ScanMode::Code).0;
        if t is Some && (t->0).0 != close {
            lemma_g_value(input, pos);
            if let Ok(kv) = g_value(input, pos) {
                if pos < kv.1 <= input.len() {
                    lemma_lex_progress(input, kv.1, ScanMode::Code);
                    let e1 = lex_from(input, kv.1, ScanMode::Code).1;
                    lemma_g_value(input, e1);
                    if let Ok(vv) = g_value(input, e1) {
                        if pos < vv.1 <= input.len() {
                            lemma_lex_progress(input, vv.1, ScanMode::Code);
                            let key = tree_key(kv.0);
                            let acc2 = if key.len() > 0 {
                                acc.push((key, vv.0))
                            } else {
                                acc
                            };
                            lemma_g_items(input, after_comma(input, vv.1), close, index, acc2);
                        }
                    }
                    lemma_g_items(
                        input,
                        after_comma(input, kv.1),
                        close,
                        index + 1,
                        acc.push((decimal(index), kv.0)),
                    );
                }
            }
        }
    }
}

/// A parser over the tokens of one input, with one token of lookahead.
struct PhpParser {
    lexer: PhpLexer,
    lookahead: Option<PhpToken>,
    /// Where the token held in lookahead starts.
    lookahead_start: Ghost<int>,
}

/// Whether an exec result is what the grammar gives, ending at `p`.
spec fn outcome(r: Result<ResourceValue, PhpParseError>, g: Result<(Tree, int), PhpParseError>, p: int) -> bool {
    match g {
        Ok(x) => r matches Ok(v) && tree_of(v) == x.0 && p == x.1,
        Err(e) => r == Err::<ResourceValue, PhpParseError>(e),
    }
}

proof fn lemma_kind_tag(t: PhpToken, k: PhpTokenKind)
    ensures
        (kind_of(t) == Some(k)) <==> (token_view(t) == (tag_of(k), Seq::<char>::empty())),
{
}

impl PhpParser {
    spec fn wf(&self) -> bool {
        &&& self.lexer.wf()
        &&& self.lookahead is Some ==> self.lexer.at() > 0
        &&& self.lookahead matches Some(t) ==> (0 <= self.lookahead_start@ && lex_from(
            self.lexer.text(),
            self.lookahead_start@,
            ScanMode::Code,
        ) == (Some(token_view(t)), self.lexer.at()))
    }

    /// The characters of the input.
    spec fn text(&self) -> Seq<char> {
        self.lexer.text()
    }

    /// Where the next token is scanned from.
    spec fn pos(&self) -> int {
        if self.lookahead is Some {
            self.lookahead_start@
        } else {
            self.lexer.at()
        }
    }

    /// How much is left to read: unread characters, plus one for a token
    /// held in lookahead. Every consumed token makes it smaller.
    spec fn measure(&self) -> nat {
        (self.lexer.remaining() + if self.lookahead is Some {
            1int
        } else {
            0int
        }) as nat
    }

    /// A parser at the start of `input`.
    fn new(input: &str) -> (r: PhpParser)
        ensures
            r.wf(),
            r.text() == input@,
            r.pos() == 0,
    {
        PhpParser { lexer: PhpLexer::new(input), lookahead: None, lookahead_start: Ghost(0) }
    }

    proof fn lemma_pos(&self)
        requires
            self.wf(),
        ensures
            0 <= self.pos() <= self.text().len(),
            self.lookahead matches Some(t) ==> lex_from(self.text(), self.pos(), ScanMode::Code)
                == (Some(token_view(t)), self.lexer.at()),
    {
        if self.lookahead is Some {
            lemma_lex_progress(self.text(), self.lookahead_start@, ScanMode::Code);
            if self.lookahead_start@ > self.text().len() {
                assert(lex_from(self.text(), self.lookahead_start@, ScanMode::Code).0 is None);
            }
        }
    }

    /// The next token, without consuming it.
    fn peek_token(&mut self) -> (r: Option<PhpToken>)
        requires
            old(self).wf(),
        ensures
            final(self).wf(),
            final(self).text() == old(self).text(),
            final(self).measure() <= old(self).measure(),
            final(self).lookahead == r,
            opt_token_view(r) == lex_from(old(self).text(), old(self).pos(), ScanMode::Code).0,
            r is Some ==> final(self).pos() == old(self).pos(),
            r is None ==> final(self).pos() == old(self).text().len() && final(self).measure() == 0,
    {
        proof {
            self.lemma_pos();
        }
        if self.lookahead.is_none() {
            let ghost start = self.lexer.at();
            self.lookahead = self.lexer.next_token();
            self.lookahead_start = Ghost(start);
        }
        match &self.lookahead {
            Some(t) => Some(t.duplicate()),
            None => None,
        }
    }

    /// The next token, consuming it.
    fn next_token(&mut self) -> (r: Option<PhpToken>)
        requires
            old(self).wf(),
        ensures
            final(self).wf(),
            final(self).text() == old(self).text(),
            final(self).measure() <= old(self).measure(),
            r is Some ==> final(self).measure() < old(self).measure(),
            old(self).lookahead is Some ==> r == old(self).lookahead,
            final(self).lookahead is None,
            opt_token_view(r) == lex_from(old(self).text(), old(self).pos(), ScanMode::Code).0,
            final(self).pos() == lex_from(old(self).text(), old(self).pos(), ScanMode::Code).1,
    {
        proof {
            self.lemma_pos();
        }
        if self.lookahead.is_some() {
            return self.lookahead.take();
        }
        self.lexer.next_token()
    }

    /// The punctuation kind of the next token, without consuming it.
    fn peek_kind(&mut self) -> (r: Option<PhpTokenKind>)
        requires
            old(self).wf(),
        ensures
            final(self).wf(),
            final(self).text() == old(self).text(),
            final(self).measure() <= old(self).measure(),
            final(self).lookahead is Some ==> r == kind_of(final(self).lookahead->0),
            final(self).lookahead is None ==> r is None,
            r is Some ==> final(self).lookahead is Some,
            final(self).lookahead is Some ==> final(self).pos() == old(self).pos(),
            final(self).lookahead is None ==> final(self).pos() == old(self).text().len()
                && final(self).measure() == 0,
            opt_token_view(final(self).lookahead) == lex_from(old(self).text(), old(self).pos(), ScanMode::Code).0,
    {
        match self.peek_token() {
            Some(t) => token_kind(&t),
            None => None,
        }
    }

    /// Consumes the next token if it has the given kind.
    fn consume_kind(&mut self, kind: PhpTokenKind) -> (r: bool)
        requires
            old(self).wf(),
        ensures
            final(self).wf(),
            final(self).text() == old(self).text(),
            final(self).measure() <= old(self).measure(),
            r ==> final(self).measure() < old(self).measure(),
            r == (lex_from(old(self).text(), old(self).pos(), ScanMode::Code).0 == Some(
                (tag_of(kind), Seq::<char>::empty()),
            )),
            r ==> final(self).pos() == lex_from(old(self).text(), old(self).pos(), ScanMode::Code).1,
            !r ==> (final(self).pos() == old(self).pos() || (final(self).pos()
                == old(self).text().len() && lex_from(old(self).text(), old(self).pos(), ScanMode::Code).0 is None)),
    {
        let k = self.peek_kind();
        proof {
            if self.lookahead is Some {
                lemma_kind_tag(self.lookahead->0, kind);
            }
        }
        if is_kind(k, kind) {
            self.next_token();
            true
        } else {
            false
        }
    }

    /// Consumes the next token, which must have the given kind.
    fn expect_kind(&mut self, kind: PhpTokenKind) -> (r: Result<(), PhpParseError>)
        requires
            old(self).wf(),
        ensures
            final(self).wf(),
            final(self).text() == old(self).text(),
            final(self).measure() <= old(self).measure(),
            r is Ok ==> final(self).measure() < old(self).measure(),
            r is Ok <==> (lex_from(old(self).text(), old(self).pos(), ScanMode::Code).0 == Some(
                (tag_of(kind), Seq::<char>::empty()),
            )),
            r is Ok ==> final(self).pos() == lex_from(old(self).text(), old(self).pos(), ScanMode::Code).1,
            r is Err ==> r == Err::<(), PhpParseError>(PhpParseError::ExpectedToken(kind)),
    {
        if self.consume_kind(kind) {
            Ok(())
        } else {
            Err(PhpParseError::ExpectedToken(kind))
        }
    }

    /// Parses one value: an array, a string, a number, `true`, `false`,
    /// `null`, or a bare word (read as a string).
    fn parse_value(&mut self) -> (r: Result<ResourceValue, PhpParseError>)
        requires
            old(self).wf(),
        ensures
            final(self).wf(),
            final(self).text() == old(self).text(),
            final(self).measure() <= old(self).measure(),
            r is Ok ==> final(self).measure() < old(self).measure(),
            outcome(r, g_value(old(self).text(), old(self).pos()), final(self).pos()),
        decreases old(self).measure(), 1nat,
    {
        proof {
            self.lemma_pos();
            reveal_strlit("array");
            reveal_strlit("true");
            reveal_strlit("false");
            reveal_strlit("null");
        }
        let ghost input = self.text();
        let ghost pos = self.pos();
        let t = self.peek_token();
        match t {
            None => Err(PhpParseError::UnexpectedEnd),
            Some(PhpToken::LBracket) => self.parse_array(),
            Some(PhpToken::Str(_)) => match self.next_token() {
                Some(PhpToken::Str(value)) => Ok(ResourceValue::Str(value)),
                _ => Err(PhpParseError::UnexpectedToken),
            },
            Some(PhpToken::Number(_)) => match self.next_token() {
                Some(PhpToken::Number(value)) => Ok(ResourceValue::Number(value)),
                _ => Err(PhpParseError::UnexpectedToken),
            },
            Some(PhpToken::Ident(word)) => {
                if same_text(&word, "array") {
                    return self.parse_array();
                }
                match self.next_token() {
                    Some(PhpToken::Ident(ident)) => {
                        if same_text(&ident, "true") {
                            Ok(ResourceValue::Bool(true))
                        } else if same_text(&ident, "false") {
                            Ok(ResourceValue::Bool(false))
                        } else if same_text(&ident, "null") {
                            Ok(ResourceValue::Null)
                        } else {
                            Ok(ResourceValue::Str(ident))
                        }
                    },
                    _ => Err(PhpParseError::UnexpectedToken),
                }
            },
            Some(_) => {
                self.next_token();
                Err(PhpParseError::UnexpectedToken)
            },
        }
    }

    /// Parses an array in either form, `[ ... ]` or `array( ... )`, as the
    /// grammar `g_array` describes.
    fn parse_array(&mut self) -> (r: Result<ResourceValue, PhpParseError>)
        requires
            old(self).wf(),
        ensures
            final(self).wf(),
            final(self).text() == old(self).text(),
            final(self).measure() <= old(self).measure(),
            r is Ok ==> final(self).measure() < old(self).measure(),
            outcome(r, g_array(old(self).text(), old(self).pos()), final(self).pos()),
        decreases old(self).measure(), 0nat,
    {
        proof {
            self.lemma_pos();
            lemma_lex_progress(self.text(), self.pos(), ScanMode::Code);
            reveal_strlit("array");
        }
        let ghost input = self.text();
        let ghost start = self.pos();
        let end_kind = match self.next_token() {
            Some(PhpToken::LBracket) => PhpTokenKind::RBracket,
            Some(PhpToken::Ident(ident)) => {
                if !same_text(&ident, "array") {
                    return Err(PhpParseError::ExpectedArrayStart);
                }
                proof {
                    self.lemma_pos();
                    lemma_lex_progress(input, self.pos(), ScanMode::Code);
                }
                self.expect_kind(PhpTokenKind::LParen)?;
                PhpTokenKind::RParen
            },
            _ => {
                return Err(PhpParseError::ExpectedArrayStart);
            },
        };
        let mut entries: Vec<(String, ResourceValue)> = Vec::new();
        let mut list_index: usize = 0;
        loop
            invariant
                self.wf(),
                self.text() == input,
                input == old(self).text(),
                start == old(self).pos(),
                self.measure() < old(self).measure(),
                list_index + self.measure() <= old(self).measure(),
                old(self).measure() <= old(self).text().len(),
                end_kind == PhpTokenKind::RBracket || end_kind == PhpTokenKind::RParen,
                g_array(input, start) == g_items(
                    input,
                    self.pos(),
                    tag_of(end_kind),
                    list_index as nat,
                    entry_trees(entries@),
                ),
            decreases self.measure(),
        {
            proof {
                self.lemma_pos();
                lemma_lex_progress(input, self.pos(), ScanMode::Code);
            }
            let ghost p0 = self.pos();
            let ghost acc = entry_trees(entries@);
            let k = self.peek_kind();
            proof {
                if self.lookahead is Some {
                    lemma_kind_tag(self.lookahead->0, end_kind);
                }
            }
            if is_kind(k, end_kind) {
                self.next_token();
                return Ok(ResourceValue::Object(entries));
            }
            if self.peek_token().is_none() {
                proof {
                    lemma_lex_progress(input, p0, ScanMode::Code);
                }
                return Ok(ResourceValue::Object(entries));
            }
            let key_or_value = self.parse_value()?;
            proof {
                lemma_g_value(input, p0);
                self.lemma_pos();
            }
            let ghost p1 = self.pos();
            if self.consume_kind(PhpTokenKind::Arrow) {
                proof {
                    lemma_lex_progress(input, p1, ScanMode::Code);
                    self.lemma_pos();
                }
                let ghost e1 = self.pos();
                let key = value_to_key(&key_or_value);
                let value = self.parse_value()?;
                proof {
                    lemma_g_value(input, e1);
                    self.lemma_pos();
                    lemma_lex_progress(input, self.pos(), ScanMode::Code);
                }
                let ghost p2 = self.pos();
                if !key.as_str().is_empty() {
                    let ghost before = entries@;
                    entries.push((key, value));
                    proof {
                        assert(entries@.take(entries@.len() - 1) =~= before);
                    }
                }
                let ghost acc2 = entry_trees(entries@);
                self.consume_kind(PhpTokenKind::Comma);
                proof {
                    self.lemma_pos();
                    if self.pos() != after_comma(input, p2) {
                        lemma_exhausted(input, p2, tag_of(end_kind), list_index as nat, acc2);
                    }
                }
            } else {
                let index_text = decimal_chars(list_index);
                let ghost before = entries@;
                entries.push((string_of(&index_text), key_or_value));
                proof {
                    assert(entries@.take(entries@.len() - 1) =~= before);
                }
                list_index = list_index + 1;
                let ghost acc2 = entry_trees(entries@);
                self.consume_kind(PhpTokenKind::Comma);
                proof {
                    self.lemma_pos();
                    if lex_from(input, p1, ScanMode::Code).0 is None {
                        lemma_exhausted(input, p1, tag_of(end_kind), list_index as nat, acc2);
                    }
                }
            }
        }
    }

    /// Skips tokens up to the first array and parses it.
    fn parse_root_array(&mut self) -> (r: Result<ResourceValue, PhpParseError>)
        requires
            old(self).wf(),
        ensures
            outcome(r, g_root(old(self).text(), old(self).pos()), final(self).pos()),
    {
        let ghost input = self.text();
        let ghost start = self.pos();
        loop
            invariant
                self.wf(),
                self.text() == input,
                input == old(self).text(),
                start == old(self).pos(),
                self.measure() <= self.text().len(),
                g_root(input, self.pos()) == g_root(input, start),
            decreases self.measure(),
        {
            proof {
                self.lemma_pos();
                lemma_lex_progress(input, self.pos(), ScanMode::Code);
                reveal_strlit("array");
            }
            match self.peek_token() {
                None => {
                    return Err(PhpParseError::NoArray);
                },
                Some(PhpToken::LBracket) => {
                    return self.parse_array();
                },
                Some(PhpToken::Ident(ident)) => {
                    if same_text(&ident, "array") {
                        return self.parse_array();
                    }
                    self.next_token();
                },
                Some(_) => {
                    self.next_token();
                },
            }
        }
    }
}

/// When nothing but whitespace and comments is left at `p`, the elements
/// read from `p` are those read from the end of input.
proof fn lemma_exhausted(input: Seq<char>, p: int, close: TokenTag, index: nat, acc: Seq<(Seq<char>, Tree)>)
    requires
        0 <= p <= input.len(),
        lex_from(input, p, ScanMode::Code).0 is None,
    ensures
        g_items(input, p, close, index, acc) == g_items(input, input.len() as int, close, index, acc),
        after_comma(input, p) == p,
{
    lemma_lex_progress(input, p, ScanMode::Code);
}

/// Parses the first array of an array-literal resource into a value tree,
/// as `php_document` describes.
pub fn parse_php_tree(content: &str) -> (r: Result<ResourceValue, PhpParseError>)
    ensures
        match php_document(content@) {
            Ok(t) => r matches Ok(v) && tree_of(v) == t,
            Err(e) => r == Err::<ResourceValue, PhpParseError>(e),
        },
{
    let mut parser = PhpParser::new(content);
    parser.parse_root_array()
}

} // verus!
