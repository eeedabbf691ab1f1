//! The lexer: literal scanners, the word classifier and directive
//! expander, and the entry points.
//!
//! `spec_lex_from` is the specification of the whole pass: for an input
//! character sequence and a starting position it gives the exact token
//! spans the lexer emits, or the exact error.  The scanners have
//! specifications of the same kind (`scan_string`, `scan_character`,
//! `scan_number`, `scan_word`), and each exec function is proved against
//! its specification.

use vstd::prelude::*;
use vstd::std_specs::iter::IteratorSpec;

use crate::cursor::PeekBuffer;
use crate::escape::{decode_escape, lemma_scan_escape_used, scan_escape};
use crate::escape::chars_to_string;
use crate::position::{lemma_pos_steps_snoc, pos_step, pos_steps, Position};
use crate::token::{
    lemma_spans_view_app, lemma_spans_view_len, span_view, spans_view, LexError, NumberMeta,
    SpanView, Token, TokenSpan, TokenView, WordMeta,
};

verus! {

/// Whether `c` is alphabetic.  The classification is
/// `char::is_alphabetic`: a function of the character alone.
pub uninterp spec fn is_alpha_char(c: char) -> bool;

/// Whether `c` is numeric.  The classification is `char::is_numeric`: a
/// function of the character alone.
pub uninterp spec fn is_digit_char(c: char) -> bool;

/// Relies on `char::is_alphabetic`: whether the character has the
/// Unicode `Alphabetic` property.  The ASCII letters have it, as the
/// documentation states.
#[verifier::external_body]
fn char_is_alphabetic(c: char) -> (r: bool)
    ensures
        r == is_alpha_char(c),
        ('a' <= c && c <= 'z') || ('A' <= c && c <= 'Z') ==> r,
{
    c.is_alphabetic()
}

/// Relies on `char::is_numeric`: whether the character has one of the
/// Unicode numeric general categories.  The ASCII digits have one, as
/// the documentation states.
#[verifier::external_body]
fn char_is_numeric(c: char) -> (r: bool)
    ensures
        r == is_digit_char(c),
        '0' <= c && c <= '9' ==> r,
{
    c.is_numeric()
}

/// Relies on `char::is_alphanumeric`: true exactly when the character
/// satisfies `char::is_alphabetic` or `char::is_numeric`, as the
/// documentation states.
#[verifier::external_body]
fn char_is_alphanumeric(c: char) -> (r: bool)
    ensures
        r == (is_alpha_char(c) || is_digit_char(c)),
{
    c.is_alphanumeric()
}

/// The lexer's whitespace: space and tab (skipped), newline and
/// carriage return (skipped with a line advance).
pub open spec fn is_space_char(c: char) -> bool {
    c == ' ' || c == '\t' || c == '\n' || c == '\r'
}

/// The characters a word may continue with: alphanumerics (alphabetic
/// or numeric characters), `.` and `_`.
pub open spec fn is_word_char(c: char) -> bool {
    is_alpha_char(c) || is_digit_char(c) || c == '.' || c == '_'
}

/// Whether `c` is an ASCII decimal digit.
pub open spec fn is_digit09(c: char) -> bool {
    '0' <= c && c <= '9'
}

/// The length of the maximal prefix of `s` without whitespace.
pub open spec fn nonspace_run(s: Seq<char>) -> int
    decreases s.len(),
{
    if s.len() == 0 || !(!is_space_char(s[0])) {
        0
    } else {
        1 + nonspace_run(s.skip(1))
    }
}

/// What `nonspace_run` returns: the delimited prefix and its boundary.
pub proof fn lemma_nonspace_run(s: Seq<char>)
    ensures
        0 <= nonspace_run(s) <= s.len(),
        forall|i: int| 0 <= i < nonspace_run(s) ==> (!is_space_char(#[trigger] s[i])),
        nonspace_run(s) < s.len() ==> !(!is_space_char(s[nonspace_run(s)])),
    decreases s.len(),
{
    if s.len() > 0 && (!is_space_char(s[0])) {
        lemma_nonspace_run(s.skip(1));
        assert forall|i: int| 0 <= i < nonspace_run(s) implies (!is_space_char(#[trigger] s[i])) by {
            if i > 0 {
                assert(s.skip(1)[i - 1] == s[i]);
            }
        }
        if nonspace_run(s) < s.len() {
            assert(s.skip(1)[nonspace_run(s) - 1] == s[nonspace_run(s)]);
        }
    }
}

/// A count of leading characters of that class, stopped by the end of
/// `s` or by the first character outside it, is exactly `nonspace_run`.
pub proof fn lemma_nonspace_run_exact(s: Seq<char>, i: int)
    requires
        0 <= i <= s.len(),
        forall|j: int| 0 <= j < i ==> (!is_space_char(#[trigger] s[j])),
        i < s.len() ==> !(!is_space_char(s[i])),
    ensures
        nonspace_run(s) == i,
    decreases i,
{
    if i > 0 {
        assert(!is_space_char(s[0]));
        assert forall|j: int| 0 <= j < i - 1 implies (!is_space_char(#[trigger] s.skip(1)[j])) by {
            assert(s.skip(1)[j] == s[j + 1]);
        }
        if i - 1 < s.skip(1).len() {
            assert(s.skip(1)[i - 1] == s[i]);
        }
        lemma_nonspace_run_exact(s.skip(1), i - 1);
    }
}

/// The length of the maximal prefix of `s` made of word characters.
pub open spec fn word_run(s: Seq<char>) -> int
    decreases s.len(),
{
    if s.len() == 0 || !(is_word_char(s[0])) {
        0
    } else {
        1 + word_run(s.skip(1))
    }
}

/// What `word_run` returns: the delimited prefix and its boundary.
pub proof fn lemma_word_run(s: Seq<char>)
    ensures
        0 <= word_run(s) <= s.len(),
        forall|i: int| 0 <= i < word_run(s) ==> (is_word_char(#[trigger] s[i])),
        word_run(s) < s.len() ==> !(is_word_char(s[word_run(s)])),
    decreases s.len(),
{
    if s.len() > 0 && (is_word_char(s[0])) {
        lemma_word_run(s.skip(1));
        assert forall|i: int| 0 <= i < word_run(s) implies (is_word_char(#[trigger] s[i])) by {
            if i > 0 {
                assert(s.skip(1)[i - 1] == s[i]);
            }
        }
        if word_run(s) < s.len() {
            assert(s.skip(1)[word_run(s) - 1] == s[word_run(s)]);
        }
    }
}

/// A count of leading characters of that class, stopped by the end of
/// `s` or by the first character outside it, is exactly `word_run`.
pub proof fn lemma_word_run_exact(s: Seq<char>, i: int)
    requires
        0 <= i <= s.len(),
        forall|j: int| 0 <= j < i ==> (is_word_char(#[trigger] s[j])),
        i < s.len() ==> !(is_word_char(s[i])),
    ensures
        word_run(s) == i,
    decreases i,
{
    if i > 0 {
        assert(is_word_char(s[0]));
        assert forall|j: int| 0 <= j < i - 1 implies (is_word_char(#[trigger] s.skip(1)[j])) by {
            assert(s.skip(1)[j] == s[j + 1]);
        }
        if i - 1 < s.skip(1).len() {
            assert(s.skip(1)[i - 1] == s[i]);
        }
        lemma_word_run_exact(s.skip(1), i - 1);
    }
}

/// The length of the maximal prefix of `s` without a newline.
pub open spec fn line_run(s: Seq<char>) -> int
    decreases s.len(),
{
    if s.len() == 0 || !(s[0] != '\n') {
        0
    } else {
        1 + line_run(s.skip(1))
    }
}

/// What `line_run` returns: the delimited prefix and its boundary.
pub proof fn lemma_line_run(s: Seq<char>)
    ensures
        0 <= line_run(s) <= s.len(),
        forall|i: int| 0 <= i < line_run(s) ==> (#[trigger] s[i] != '\n'),
        line_run(s) < s.len() ==> !(s[line_run(s)] != '\n'),
    decreases s.len(),
{
    if s.len() > 0 && (s[0] != '\n') {
        lemma_line_run(s.skip(1));
        assert forall|i: int| 0 <= i < line_run(s) implies (#[trigger] s[i] != '\n') by {
            if i > 0 {
                assert(s.skip(1)[i - 1] == s[i]);
            }
        }
        if line_run(s) < s.len() {
            assert(s.skip(1)[line_run(s) - 1] == s[line_run(s)]);
        }
    }
}

/// A count of leading characters of that class, stopped by the end of
/// `s` or by the first character outside it, is exactly `line_run`.
pub proof fn lemma_line_run_exact(s: Seq<char>, i: int)
    requires
        0 <= i <= s.len(),
        forall|j: int| 0 <= j < i ==> (#[trigger] s[j] != '\n'),
        i < s.len() ==> !(s[i] != '\n'),
    ensures
        line_run(s) == i,
    decreases i,
{
    if i > 0 {
        assert(s[0] != '\n');
        assert forall|j: int| 0 <= j < i - 1 implies (#[trigger] s.skip(1)[j] != '\n') by {
            assert(s.skip(1)[j] == s[j + 1]);
        }
        if i - 1 < s.skip(1).len() {
            assert(s.skip(1)[i - 1] == s[i]);
        }
        lemma_line_run_exact(s.skip(1), i - 1);
    }
}

/// The length of the maximal prefix of `s` made of decimal digits.
pub open spec fn digit_run(s: Seq<char>) -> int
    decreases s.len(),
{
    if s.len() == 0 || !(is_digit09(s[0])) {
        0
    } else {
        1 + digit_run(s.skip(1))
    }
}

/// What `digit_run` returns: the delimited prefix and its boundary.
pub proof fn lemma_digit_run(s: Seq<char>)
    ensures
        0 <= digit_run(s) <= s.len(),
        forall|i: int| 0 <= i < digit_run(s) ==> (is_digit09(#[trigger] s[i])),
        digit_run(s) < s.len() ==> !(is_digit09(s[digit_run(s)])),
    decreases s.len(),
{
    if s.len() > 0 && (is_digit09(s[0])) {
        lemma_digit_run(s.skip(1));
        assert forall|i: int| 0 <= i < digit_run(s) implies (is_digit09(#[trigger] s[i])) by {
            if i > 0 {
                assert(s.skip(1)[i - 1] == s[i]);
            }
        }
        if digit_run(s) < s.len() {
            assert(s.skip(1)[digit_run(s) - 1] == s[digit_run(s)]);
        }
    }
}

/// A count of leading characters of that class, stopped by the end of
/// `s` or by the first character outside it, is exactly `digit_run`.
pub proof fn lemma_digit_run_exact(s: Seq<char>, i: int)
    requires
        0 <= i <= s.len(),
        forall|j: int| 0 <= j < i ==> (is_digit09(#[trigger] s[j])),
        i < s.len() ==> !(is_digit09(s[i])),
    ensures
        digit_run(s) == i,
    decreases i,
{
    if i > 0 {
        assert(is_digit09(s[0]));
        assert forall|j: int| 0 <= j < i - 1 implies (is_digit09(#[trigger] s.skip(1)[j])) by {
            assert(s.skip(1)[j] == s[j + 1]);
        }
        if i - 1 < s.skip(1).len() {
            assert(s.skip(1)[i - 1] == s[i]);
        }
        lemma_digit_run_exact(s.skip(1), i - 1);
    }
}

/// The length of the maximal prefix of `s` without a dot.
pub open spec fn dot_run(s: Seq<char>) -> int
    decreases s.len(),
{
    if s.len() == 0 || !(s[0] != '.') {
        0
    } else {
        1 + dot_run(s.skip(1))
    }
}

/// What `dot_run` returns: the delimited prefix and its boundary.
pub proof fn lemma_dot_run(s: Seq<char>)
    ensures
        0 <= dot_run(s) <= s.len(),
        forall|i: int| 0 <= i < dot_run(s) ==> (#[trigger] s[i] != '.'),
        dot_run(s) < s.len() ==> !(s[dot_run(s)] != '.'),
    decreases s.len(),
{
    if s.len() > 0 && (s[0] != '.') {
        lemma_dot_run(s.skip(1));
        assert forall|i: int| 0 <= i < dot_run(s) implies (#[trigger] s[i] != '.') by {
            if i > 0 {
                assert(s.skip(1)[i - 1] == s[i]);
            }
        }
        if dot_run(s) < s.len() {
            assert(s.skip(1)[dot_run(s) - 1] == s[dot_run(s)]);
        }
    }
}

/// A count of leading characters of that class, stopped by the end of
/// `s` or by the first character outside it, is exactly `dot_run`.
pub proof fn lemma_dot_run_exact(s: Seq<char>, i: int)
    requires
        0 <= i <= s.len(),
        forall|j: int| 0 <= j < i ==> (#[trigger] s[j] != '.'),
        i < s.len() ==> !(s[i] != '.'),
    ensures
        dot_run(s) == i,
    decreases i,
{
    if i > 0 {
        assert(s[0] != '.');
        assert forall|j: int| 0 <= j < i - 1 implies (#[trigger] s.skip(1)[j] != '.') by {
            assert(s.skip(1)[j] == s[j + 1]);
        }
        if i - 1 < s.skip(1).len() {
            assert(s.skip(1)[i - 1] == s[i]);
        }
        lemma_dot_run_exact(s.skip(1), i - 1);
    }
}

/// The length of the maximal prefix of `s` without a comma.
pub open spec fn comma_run(s: Seq<char>) -> int
    decreases s.len(),
{
    if s.len() == 0 || !(s[0] != ',') {
        0
    } else {
        1 + comma_run(s.skip(1))
    }
}

/// What `comma_run` returns: the delimited prefix and its boundary.
pub proof fn lemma_comma_run(s: Seq<char>)
    ensures
        0 <= comma_run(s) <= s.len(),
        forall|i: int| 0 <= i < comma_run(s) ==> (#[trigger] s[i] != ','),
        comma_run(s) < s.len() ==> !(s[comma_run(s)] != ','),
    decreases s.len(),
{
    if s.len() > 0 && (s[0] != ',') {
        lemma_comma_run(s.skip(1));
        assert forall|i: int| 0 <= i < comma_run(s) implies (#[trigger] s[i] != ',') by {
            if i > 0 {
                assert(s.skip(1)[i - 1] == s[i]);
            }
        }
        if comma_run(s) < s.len() {
            assert(s.skip(1)[comma_run(s) - 1] == s[comma_run(s)]);
        }
    }
}

/// A count of leading characters of that class, stopped by the end of
/// `s` or by the first character outside it, is exactly `comma_run`.
pub proof fn lemma_comma_run_exact(s: Seq<char>, i: int)
    requires
        0 <= i <= s.len(),
        forall|j: int| 0 <= j < i ==> (#[trigger] s[j] != ','),
        i < s.len() ==> !(s[i] != ','),
    ensures
        comma_run(s) == i,
    decreases i,
{
    if i > 0 {
        assert(s[0] != ',');
        assert forall|j: int| 0 <= j < i - 1 implies (#[trigger] s.skip(1)[j] != ',') by {
            assert(s.skip(1)[j] == s[j + 1]);
        }
        if i - 1 < s.skip(1).len() {
            assert(s.skip(1)[i - 1] == s[i]);
        }
        lemma_comma_run_exact(s.skip(1), i - 1);
    }
}

/// A scanned string literal: the decoded text, the count of consumed
/// characters (closing quote included), and the position after it.
pub ghost struct StrOk {
    pub text: Seq<char>,
    pub used: int,
    pub pos: Position,
}

/// The string scanner, after the opening quote was consumed: a bare `"`
/// terminates the literal; a `\` runs the escape decoder and the decoded
/// character is appended; any other character is appended as it stands.
/// End of input before the closing quote is `UnterminatedStringLiteral`
/// at the position just past the last consumed character.
pub open spec fn scan_string(s: Seq<char>, p: Position) -> Result<StrOk, LexError>
    decreases s.len(), 0int,
    via scan_string_decreases
{
    if s.len() == 0 {
        Err(LexError::UnterminatedStringLiteral(p))
    } else if s[0] == '"' {
        Ok(StrOk { text: Seq::empty(), used: 1, pos: pos_step(p, '"') })
    } else if s[0] == '\\' {
        match scan_escape(s.skip(1), pos_step(p, '\\')) {
            Ok(e) => match scan_string(s.skip(1 + e.used), e.pos) {
                Ok(t) => Ok(
                    StrOk { text: seq![e.value] + t.text, used: 1 + e.used + t.used, pos: t.pos },
                ),
                Err(er) => Err(er),
            },
            Err(er) => Err(er),
        }
    } else {
        match scan_string(s.skip(1), pos_step(p, s[0])) {
            Ok(t) => Ok(StrOk { text: seq![s[0]] + t.text, used: 1 + t.used, pos: t.pos }),
            Err(er) => Err(er),
        }
    }
}

#[via_fn]
proof fn scan_string_decreases(s: Seq<char>, p: Position) {
    if s.len() > 0 && s[0] == '\\' {
        lemma_scan_escape_used(s.skip(1), pos_step(p, '\\'));
    }
}

/// A scanned string literal consumes at least its closing quote and at
/// most the rest of the input.
pub proof fn lemma_scan_string_used(s: Seq<char>, p: Position)
    ensures
        match scan_string(s, p) {
            Ok(t) => 1 <= t.used <= s.len(),
            Err(_) => true,
        },
    decreases s.len(),
{
    if s.len() > 0 && s[0] != '"' {
        if s[0] == '\\' {
            lemma_scan_escape_used(s.skip(1), pos_step(p, '\\'));
            match scan_escape(s.skip(1), pos_step(p, '\\')) {
                Ok(e) => {
                    lemma_scan_string_used(s.skip(1 + e.used), e.pos);
                },
                Err(_) => {},
            }
        } else {
            lemma_scan_string_used(s.skip(1), pos_step(p, s[0]));
        }
    }
}

/// A scanned character literal: the decoded character, the count of
/// consumed characters, and the position after them.
pub ghost struct ChOk {
    pub value: char,
    pub used: int,
    pub pos: Position,
}

/// The character scanner, after the opening quote was consumed.  An
/// immediate closing quote denotes the null character.  Otherwise
/// exactly one character is decoded (through the escape decoder after a
/// `\`), and a following closing quote is consumed if present; a second
/// character before the closing quote is `InvalidCharacterLiteral`.
/// End of input directly after the opening quote is
/// `UnterminatedCharacterLiteral`.
pub open spec fn scan_character(s: Seq<char>, p: Position) -> Result<ChOk, LexError> {
    if s.len() == 0 {
        Err(LexError::UnterminatedCharacterLiteral(p))
    } else if s[0] == '\'' {
        Ok(ChOk { value: '\0', used: 1, pos: pos_step(p, '\'') })
    } else {
        let first: Result<(char, int, Position), LexError> = if s[0] == '\\' {
            match scan_escape(s.skip(1), pos_step(p, '\\')) {
                Ok(e) => Ok((e.value, 1 + e.used, e.pos)),
                Err(er) => Err(er),
            }
        } else {
            Ok((s[0], 1, pos_step(p, s[0])))
        };
        match first {
            Err(er) => Err(er),
            Ok((v, k, p1)) => {
                if k >= s.len() {
                    Ok(ChOk { value: v, used: k, pos: p1 })
                } else if s[k] == '\'' {
                    Ok(ChOk { value: v, used: k + 1, pos: pos_step(p1, '\'') })
                } else {
                    Err(LexError::InvalidCharacterLiteral(p1))
                }
            },
        }
    }
}

/// A scanned character literal consumes at least one character and at
/// most the rest of the input.
pub proof fn lemma_scan_character_used(s: Seq<char>, p: Position)
    ensures
        match scan_character(s, p) {
            Ok(t) => 1 <= t.used <= s.len(),
            Err(_) => true,
        },
{
    if s.len() > 0 && s[0] == '\\' {
        lemma_scan_escape_used(s.skip(1), pos_step(p, '\\'));
    }
}

/// The numeric literal grammar: one or more decimal digits, an optional
/// fraction (a dot and further digits), and an optional exponent (`e` or
/// `E`, an optional sign, and one or more digits).  A fraction with no
/// digit on either side of the dot is not a number.
pub open spec fn is_exp_text(t: Seq<char>) -> bool {
    &&& t.len() >= 1
    &&& (t[0] == 'e' || t[0] == 'E')
    &&& {
        let u = if t.len() >= 2 && (t[1] == '+' || t[1] == '-') {
            t.skip(2)
        } else {
            t.skip(1)
        };
        u.len() >= 1 && digit_run(u) == u.len()
    }
}

/// Whether `s` is a valid numeric literal.
pub open spec fn is_number_text(s: Seq<char>) -> bool {
    let i = digit_run(s);
    if i == s.len() {
        i >= 1
    } else if s[i] == '.' {
        let j = digit_run(s.skip(i + 1));
        let rest = s.skip(i + 1 + j);
        (i >= 1 || j >= 1) && (rest.len() == 0 || is_exp_text(rest))
    } else {
        i >= 1 && is_exp_text(s.skip(i))
    }
}

/// The metadata of a numeric literal, derived from its raw text:
/// `is_float` iff the text holds a dot, `digit_count` its whole length,
/// `fractional_digits` the length of the segment between the first dot
/// and the next dot or the end.
pub open spec fn number_meta_of(text: Seq<char>) -> NumberMeta {
    let i = dot_run(text);
    NumberMeta {
        is_float: i < text.len(),
        digit_count: text.len() as usize,
        fractional_digits: if i < text.len() {
            dot_run(text.skip(i + 1)) as usize
        } else {
            0
        },
    }
}

/// A scanned numeric literal: the raw text, its metadata, the count of
/// consumed characters, and the position after them.
pub ghost struct NumOk {
    pub text: Seq<char>,
    pub meta: NumberMeta,
    pub used: int,
    pub pos: Position,
}

/// The number scanner: consumes the maximal run of non-whitespace
/// characters; the run must satisfy the numeric literal grammar, else
/// the literal is `InvalidNumberLiteral` at the position after the run.
pub open spec fn scan_number(s: Seq<char>, p: Position) -> Result<NumOk, LexError> {
    let n = nonspace_run(s);
    let text = s.take(n);
    let pe = pos_steps(p, text);
    if is_number_text(text) {
        Ok(NumOk { text, meta: number_meta_of(text), used: n, pos: pe })
    } else {
        Err(LexError::InvalidNumberLiteral(pe))
    }
}

/// The instruction-name set: a word is a mnemonic iff its text is one
/// of these.
pub open spec fn is_mnemonic_text(text: Seq<char>) -> bool {
    text == seq!['a', 'd', 'd'] || text == seq!['n', 'o', 'p']
}

/// The classification of a word: a mnemonic by the instruction-name
/// set, else an attribute iff the text begins with `.`.
pub open spec fn word_meta_of(text: Seq<char>) -> WordMeta {
    WordMeta {
        is_mnemonic: is_mnemonic_text(text),
        is_attribute: !is_mnemonic_text(text) && text.len() > 0 && text[0] == '.',
    }
}

/// A scanned word: its raw text, its classification, the count of
/// consumed characters, and the position after them.
pub ghost struct WordOk {
    pub text: Seq<char>,
    pub meta: WordMeta,
    pub used: int,
    pub pos: Position,
}

/// The word scanner: the word-start character and the maximal following
/// run of word characters.
pub open spec fn scan_word(s: Seq<char>, p: Position) -> WordOk {
    let n = 1 + word_run(s.skip(1));
    let text = s.take(n);
    WordOk { text, meta: word_meta_of(text), used: n, pos: pos_steps(p, text) }
}

/// The raw operand text of a directive, split on commas.
pub open spec fn split_commas(s: Seq<char>) -> Seq<Seq<char>>
    decreases s.len(),
    via split_commas_decreases
{
    let k = comma_run(s);
    if k == s.len() {
        seq![s]
    } else {
        seq![s.take(k)] + split_commas(s.skip(k + 1))
    }
}

#[via_fn]
proof fn split_commas_decreases(s: Seq<char>) {
    lemma_comma_run(s);
}

/// The total length of a sequence of pieces.
pub open spec fn pieces_len(pieces: Seq<Seq<char>>) -> int
    decreases pieces.len(),
{
    if pieces.len() == 0 {
        0
    } else {
        pieces[0].len() + pieces_len(pieces.skip(1))
    }
}

/// Splitting on commas yields at least one piece; the pieces, plus one
/// per separating comma, make up the split text exactly.
pub proof fn lemma_split_commas(s: Seq<char>)
    ensures
        split_commas(s).len() >= 1,
        pieces_len(split_commas(s)) + split_commas(s).len() == s.len() + 1,
    decreases s.len(),
{
    lemma_comma_run(s);
    let k = comma_run(s);
    if k < s.len() {
        lemma_split_commas(s.skip(k + 1));
        assert(split_commas(s) == seq![s.take(k)] + split_commas(s.skip(k + 1)));
        lemma_pieces_len_cons(s.take(k), split_commas(s.skip(k + 1)));
    } else {
        assert(pieces_len(split_commas(s)) == s.len() + pieces_len(
            split_commas(s).skip(1),
        ));
        assert(split_commas(s).skip(1) =~= Seq::<Seq<char>>::empty());
    }
}

/// `pieces_len` of a cons.
pub proof fn lemma_pieces_len_cons(head: Seq<char>, tail: Seq<Seq<char>>)
    ensures
        pieces_len(seq![head] + tail) == head.len() + pieces_len(tail),
{
    assert((seq![head] + tail)[0] == head);
    assert((seq![head] + tail).skip(1) =~= tail);
}

/// Every piece of a split is no longer than the whole, and the total of
/// the pieces is bounded by it.
pub proof fn lemma_pieces_len_bound(pieces: Seq<Seq<char>>, i: int)
    requires
        0 <= i < pieces.len(),
    ensures
        pieces[i].len() <= pieces_len(pieces),
        pieces_len(pieces) >= 0,
    decreases pieces.len(),
{
    if i == 0 {
        lemma_pieces_len_nonneg(pieces.skip(1));
    } else {
        lemma_pieces_len_bound(pieces.skip(1), i - 1);
        assert(pieces.skip(1)[i - 1] == pieces[i]);
    }
}

/// `pieces_len` is never negative.
pub proof fn lemma_pieces_len_nonneg(pieces: Seq<Seq<char>>)
    ensures
        pieces_len(pieces) >= 0,
    decreases pieces.len(),
{
    if pieces.len() > 0 {
        lemma_pieces_len_nonneg(pieces.skip(1));
    }
}

/// The cleanup of a directive's concatenated operand tokens: every
/// end-of-stream sentinel that is immediately followed by a
/// non-sentinel token (in the uncleaned sequence) is removed, leaving a
/// single trailing sentinel per well-formed operand boundary.
pub open spec fn strip_ends(ts: Seq<SpanView>) -> Seq<SpanView>
    decreases ts.len(),
{
    if ts.len() == 0 {
        Seq::empty()
    } else if ts[0].token is End && ts.len() > 1 && !(ts[1].token is End) {
        strip_ends(ts.skip(1))
    } else {
        seq![ts[0]] + strip_ends(ts.skip(1))
    }
}

/// The single-character punctuation tokens.
pub open spec fn punct_token(c: char) -> Option<TokenView> {
    if c == '#' {
        Some(TokenView::Hashtag)
    } else if c == ':' {
        Some(TokenView::Colon)
    } else if c == ',' {
        Some(TokenView::Comma)
    } else if c == '(' {
        Some(TokenView::LeftParen)
    } else if c == ')' {
        Some(TokenView::RightParen)
    } else if c == '[' {
        Some(TokenView::LeftBracket)
    } else if c == ']' {
        Some(TokenView::RightBracket)
    } else {
        None
    }
}

/// The lexer, from position `p` over the input `s`: the exact sequence
/// of token spans it emits, or the error it stops with.  Whitespace and
/// unrecognized characters are skipped; literals, numbers and words are
/// delegated to their scanners; an attribute word consumes the rest of
/// its line as operand text, re-tokenizes each non-empty comma-separated
/// operand from a fresh position (nested spans count within the operand
/// text), cleans interior end-of-stream sentinels, and emits the result
/// as a single `List` token followed by an `EndBlock` sentinel — the
/// `List` is omitted when the operand text is empty.  The emitted stream
/// always ends in exactly one end-of-stream sentinel at the final
/// position.
pub open spec fn spec_lex_from(s: Seq<char>, p: Position) -> Result<Seq<SpanView>, LexError>
    decreases s.len(), 1int,
    via spec_lex_from_decreases
{
    if s.len() == 0 {
        Ok(seq![SpanView { token: TokenView::End, start: p, end: p }])
    } else {
        let c = s[0];
        if is_space_char(c) {
            spec_lex_from(s.skip(1), pos_step(p, c))
        } else if c == '"' {
            match scan_string(s.skip(1), pos_step(p, c)) {
                Ok(t) => match spec_lex_from(s.skip(1 + t.used), t.pos) {
                    Ok(ts) => Ok(
                        seq![SpanView { token: TokenView::String(t.text), start: p, end: t.pos }]
                            + ts,
                    ),
                    Err(er) => Err(er),
                },
                Err(er) => Err(er),
            }
        } else if c == '\'' {
            match scan_character(s.skip(1), pos_step(p, c)) {
                Ok(t) => match spec_lex_from(s.skip(1 + t.used), t.pos) {
                    Ok(ts) => Ok(
                        seq![
                            SpanView { token: TokenView::Character(t.value), start: p, end: t.pos },
                        ] + ts,
                    ),
                    Err(er) => Err(er),
                },
                Err(er) => Err(er),
            }
        } else if is_digit_char(c) {
            match scan_number(s, p) {
                Ok(t) => match spec_lex_from(s.skip(t.used), t.pos) {
                    Ok(ts) => Ok(
                        seq![
                            SpanView {
                                token: TokenView::Number(t.text, t.meta),
                                start: p,
                                end: t.pos,
                            },
                        ] + ts,
                    ),
                    Err(er) => Err(er),
                },
                Err(er) => Err(er),
            }
        } else if is_alpha_char(c) || c == '.' || c == '_' {
            let w = scan_word(s, p);
            let word_span = SpanView { token: TokenView::Word(w.text, w.meta), start: p, end: w.pos };
            if !w.meta.is_attribute {
                match spec_lex_from(s.skip(w.used), w.pos) {
                    Ok(ts) => Ok(seq![word_span] + ts),
                    Err(er) => Err(er),
                }
            } else {
                let rest = s.skip(w.used);
                let m = line_run(rest);
                let raw = rest.take(m);
                let pa = pos_steps(w.pos, raw);
                if m == 0 {
                    match spec_lex_from(s.skip(w.used), pa) {
                        Ok(ts) => Ok(
                            seq![
                                word_span,
                                SpanView { token: TokenView::EndBlock, start: p, end: pa },
                            ] + ts,
                        ),
                        Err(er) => Err(er),
                    }
                } else {
                    match lex_pieces(split_commas(raw)) {
                        Ok(subs) => match spec_lex_from(s.skip(w.used + m), pa) {
                            Ok(ts) => Ok(
                                seq![
                                    word_span,
                                    SpanView {
                                        token: TokenView::List(strip_ends(subs)),
                                        start: p,
                                        end: pa,
                                    },
                                    SpanView { token: TokenView::EndBlock, start: p, end: pa },
                                ] + ts,
                            ),
                            Err(er) => Err(er),
                        },
                        Err(er) => Err(er),
                    }
                }
            }
        } else {
            match punct_token(c) {
                Some(tv) => match spec_lex_from(s.skip(1), pos_step(p, c)) {
                    Ok(ts) => Ok(seq![SpanView { token: tv, start: p, end: p }] + ts),
                    Err(er) => Err(er),
                },
                None => spec_lex_from(s.skip(1), pos_step(p, c)),
            }
        }
    }
}

#[via_fn]
proof fn spec_lex_from_decreases(s: Seq<char>, p: Position) {
    if s.len() > 0 {
        let c = s[0];
        if c == '"' {
            lemma_scan_string_used(s.skip(1), pos_step(p, c));
        } else if c == '\'' {
            lemma_scan_character_used(s.skip(1), pos_step(p, c));
        } else if !is_space_char(c) && is_digit_char(c) {
            lemma_nonspace_run(s);
            assert(nonspace_run(s) >= 1);
        } else if is_alpha_char(c) || c == '.' || c == '_' {
            lemma_word_run(s.skip(1));
            let w = scan_word(s, p);
            let rest = s.skip(w.used);
            lemma_line_run(rest);
            let m = line_run(rest);
            let raw = rest.take(m);
            lemma_split_commas(raw);
        }
    }
}

/// The operands of a directive, each non-empty one re-tokenized by the
/// full lexer from a fresh position, in operand order.
pub open spec fn lex_pieces(pieces: Seq<Seq<char>>) -> Result<Seq<SpanView>, LexError>
    decreases pieces_len(pieces) + pieces.len(), 0int,
    via lex_pieces_decreases
{
    if pieces.len() == 0 {
        Ok(Seq::empty())
    } else if pieces[0].len() == 0 {
        lex_pieces(pieces.skip(1))
    } else {
        match spec_lex_from(pieces[0], Position(1, 1)) {
            Ok(ts) => match lex_pieces(pieces.skip(1)) {
                Ok(rest) => Ok(ts + rest),
                Err(er) => Err(er),
            },
            Err(er) => Err(er),
        }
    }
}

#[via_fn]
proof fn lex_pieces_decreases(pieces: Seq<Seq<char>>) {
    if pieces.len() > 0 {
        lemma_pieces_len_bound(pieces, 0);
        lemma_pieces_len_nonneg(pieces.skip(1));
        assert(pieces_len(pieces) == pieces[0].len() + pieces_len(pieces.skip(1)));
    }
}

/// Scan a string literal: the cursor stands just after the opening
/// quote, at the start of its live sequence, `pos` is the position
/// there, and the decoded characters are appended to `acc`.  On success
/// the position after the closing quote is returned and exactly the
/// literal's characters are consumed.
#[verifier::loop_isolation(false)]
fn run_string(input: &mut PeekBuffer<char>, p: Position, acc: &mut Vec<char>) -> (r: Result<
    Position,
    LexError,
>)
    requires
        old(input).wf(),
        old(input)@.index == 0,
    ensures
        final(input).wf(),
        final(input)@.index == 0,
        match scan_string(old(input)@.data, p) {
            Ok(t) => r matches Ok(pe) && final(acc)@ == old(acc)@ + t.text && pe == t.pos
                && final(input)@.data == old(input)@.data.skip(t.used),
            Err(er) => r == Err::<Position, LexError>(er),
        },
    decreases old(input)@.data.len(),
{
    let ghost s = input@.data;
    let c = match input.peek() {
        Some(c) => c,
        None => {
            return Err(LexError::UnterminatedStringLiteral(p));
        },
    };
    if c == '"' {
        let _ = input.eat();
        proof {
            assert(input@.data =~= s.skip(1));
            assert(acc@ + Seq::<char>::empty() =~= acc@);
        }
        return Ok(p.stepped('"'));
    }
    if c == '\\' {
        let _ = input.eat();
        proof {
            assert(input@.data =~= s.skip(1));
        }
        let p1 = p.stepped('\\');
        match decode_escape(input, p1) {
            Ok((v, pe)) => {
                acc.push(v);
                let ghost acc1 = acc@;
                let ghost e = match scan_escape(s.skip(1), p1) {
                    Ok(e) => e,
                    Err(er) => arbitrary(),
                };
                proof {
                    lemma_scan_escape_used(s.skip(1), p1);
                    assert(input@.data == s.skip(1).skip(e.used));
                    assert(input@.data =~= s.skip(1 + e.used));
                }
                let tail = run_string(input, pe, acc);
                match tail {
                    Ok(pend) => {
                        proof {
                            match scan_string(s.skip(1 + e.used), e.pos) {
                                Ok(t) => {
                                    assert(final(acc)@ == acc1 + t.text);
                                    assert(acc1 =~= old(acc)@ + seq![v]);
                                    assert((old(acc)@ + seq![v]) + t.text =~= old(acc)@ + (
                                    seq![v] + t.text));
                                    assert(input@.data == s.skip(1 + e.used).skip(t.used));
                                    assert(s.skip(1 + e.used).skip(t.used) =~= s.skip(
                                        1 + e.used + t.used,
                                    )) by {
                                        lemma_scan_string_used(s.skip(1 + e.used), e.pos);
                                    }
                                },
                                Err(_) => {
                                    assert(false);
                                },
                            }
                        }
                        Ok(pend)
                    },
                    Err(er) => Err(er),
                }
            },
            Err(er) => Err(er),
        }
    } else {
        let _ = input.eat();
        acc.push(c);
        let ghost acc1 = acc@;
        proof {
            assert(input@.data =~= s.skip(1));
        }
        let p1 = p.stepped(c);
        let tail = run_string(input, p1, acc);
        match tail {
            Ok(pend) => {
                proof {
                    match scan_string(s.skip(1), p1) {
                        Ok(t) => {
                            assert(final(acc)@ == acc1 + t.text);
                            assert(acc1 =~= old(acc)@ + seq![c]);
                            assert((old(acc)@ + seq![c]) + t.text =~= old(acc)@ + (seq![c]
                                + t.text));
                            assert(input@.data == s.skip(1).skip(t.used));
                            assert(s.skip(1).skip(t.used) =~= s.skip(1 + t.used)) by {
                                lemma_scan_string_used(s.skip(1), p1);
                            }
                        },
                        Err(_) => {
                            assert(false);
                        },
                    }
                }
                Ok(pend)
            },
            Err(er) => Err(er),
        }
    }
}

/// Scan a character literal: the cursor stands just after the opening
/// quote, `p` is the position there.  On success the decoded character
/// and the position after the literal are returned and exactly the
/// literal's characters are consumed.
fn run_character(input: &mut PeekBuffer<char>, p: Position) -> (r: Result<
    (char, Position),
    LexError,
>)
    requires
        old(input).wf(),
        old(input)@.index == 0,
    ensures
        final(input).wf(),
        final(input)@.index == 0,
        match scan_character(old(input)@.data, p) {
            Ok(t) => r matches Ok(v) && v.0 == t.value && v.1 == t.pos
                && final(input)@.data == old(input)@.data.skip(t.used),
            Err(er) => r == Err::<(char, Position), LexError>(er),
        },
{
    let ghost s = input@.data;
    let c = match input.peek() {
        Some(c) => c,
        None => {
            return Err(LexError::UnterminatedCharacterLiteral(p));
        },
    };
    if c == '\'' {
        let _ = input.eat();
        proof {
            assert(input@.data =~= s.skip(1));
        }
        return Ok(('\0', p.stepped('\'')));
    }
    let (v, p1) = if c == '\\' {
        let _ = input.eat();
        proof {
            assert(input@.data =~= s.skip(1));
        }
        match decode_escape(input, p.stepped('\\')) {
            Ok(vp) => {
                proof {
                    lemma_scan_escape_used(s.skip(1), pos_step(p, '\\'));
                    match scan_escape(s.skip(1), pos_step(p, '\\')) {
                        Ok(e) => {
                            assert(input@.data =~= s.skip(1 + e.used));
                        },
                        Err(_) => {
                            assert(false);
                        },
                    }
                }
                vp
            },
            Err(er) => {
                return Err(er);
            },
        }
    } else {
        let _ = input.eat();
        proof {
            assert(input@.data =~= s.skip(1));
        }
        (c, p.stepped(c))
    };
    let ghost k: int = s.len() - input@.data.len();
    match input.peek() {
        None => Ok((v, p1)),
        Some(c2) => {
            proof {
                assert(c2 == s.skip(k)[0]);
                assert(s.skip(k)[0] == s[k]);
            }
            if c2 == '\'' {
                let _ = input.eat();
                proof {
                    assert(input@.data =~= s.skip(k + 1));
                }
                Ok((v, p1.stepped('\'')))
            } else {
                Err(LexError::InvalidCharacterLiteral(p1))
            }
        },
    }
}

/// Count the decimal digits of `text` from index `start` on.
fn digit_run_from(text: &Vec<char>, start: usize) -> (r: usize)
    requires
        start <= text@.len(),
    ensures
        r == digit_run(text@.skip(start as int)),
        start + r <= text@.len(),
{
    let n = text.len();
    let ghost t = text@.skip(start as int);
    let mut k: usize = start;
    loop
        invariant
            start <= k <= n,
            n == text@.len(),
            t == text@.skip(start as int),
            forall|j: int| start <= j < k ==> is_digit09(#[trigger] text@[j]),
        ensures
            k - start == digit_run(t),
        decreases n - k,
    {
        proof {
            assert forall|j: int| 0 <= j < k - start implies is_digit09(#[trigger] t[j]) by {
                assert(t[j] == text@[start + j]);
            }
        }
        if k == n {
            proof {
                lemma_digit_run_exact(t, k - start);
            }
            break;
        }
        let c = text[k];
        if !('0' <= c && c <= '9') {
            proof {
                assert(t[k - start] == text@[k as int]);
                lemma_digit_run_exact(t, k - start);
            }
            break;
        }
        k = k + 1;
    }
    k - start
}

/// Whether `text` from index `start` on is a well-formed exponent part.
fn check_exp(text: &Vec<char>, start: usize) -> (r: bool)
    requires
        start <= text@.len(),
    ensures
        r == is_exp_text(text@.skip(start as int)),
{
    let ghost t = text@.skip(start as int);
    let n = text.len();
    if start >= n {
        return false;
    }
    let c0 = text[start];
    proof {
        assert(t[0] == c0);
    }
    if c0 != 'e' && c0 != 'E' {
        return false;
    }
    let mut u_start = start + 1;
    if u_start < n && (text[u_start] == '+' || text[u_start] == '-') {
        proof {
            assert(t[1] == text@[u_start as int]);
        }
        u_start = u_start + 1;
        proof {
            assert(t.skip(2) =~= text@.skip(u_start as int));
        }
    } else {
        proof {
            if t.len() >= 2 {
                assert(t[1] == text@[start + 1]);
            }
            assert(t.skip(1) =~= text@.skip(start + 1));
        }
    }
    if u_start >= n {
        return false;
    }
    let d = digit_run_from(text, u_start);
    d == n - u_start
}

/// Whether `text` is a valid numeric literal, as `is_number_text`
/// prescribes.
fn check_number_text(text: &Vec<char>) -> (r: bool)
    ensures
        r == is_number_text(text@),
{
    let n = text.len();
    proof {
        assert(text@.skip(0) =~= text@);
    }
    let i = digit_run_from(text, 0);
    if i == n {
        return i >= 1;
    }
    if text[i] == '.' {
        let j = digit_run_from(text, i + 1);
        proof {
            assert(text@.skip(i + 1) == text@.skip(i as int + 1));
        }
        let restidx = i + 1 + j;
        if !(i >= 1 || j >= 1) {
            return false;
        }
        if restidx == n {
            proof {
                assert(text@.skip(restidx as int).len() == 0);
            }
            return true;
        }
        let e = check_exp(text, restidx);
        proof {
            if text@.skip(restidx as int).len() == 0 {
                assert(restidx == n);
            }
        }
        e
    } else {
        if i < 1 {
            return false;
        }
        check_exp(text, i)
    }
}

/// Compute a number token's metadata from its raw text, as
/// `number_meta_of` prescribes.
fn compute_number_meta(text: &Vec<char>) -> (m: NumberMeta)
    ensures
        m == number_meta_of(text@),
{
    let n = text.len();
    let mut fd: usize = 0;
    loop
        invariant
            0 <= fd <= n,
            n == text@.len(),
            forall|j: int| 0 <= j < fd ==> #[trigger] text@[j] != '.',
        ensures
            fd == dot_run(text@),
        decreases n - fd,
    {
        if fd == n {
            proof {
                lemma_dot_run_exact(text@, fd as int);
            }
            break;
        }
        if text[fd] == '.' {
            proof {
                lemma_dot_run_exact(text@, fd as int);
            }
            break;
        }
        fd = fd + 1;
    }
    if fd == n {
        NumberMeta { is_float: false, digit_count: n, fractional_digits: 0 }
    } else {
        let ghost t = text@.skip(fd + 1);
        let mut k: usize = fd + 1;
        loop
            invariant
                fd + 1 <= k <= n,
                n == text@.len(),
                t == text@.skip(fd + 1),
                fd < n,
                forall|j: int| fd + 1 <= j < k ==> #[trigger] text@[j] != '.',
            ensures
                k - fd - 1 == dot_run(t),
            decreases n - k,
        {
            proof {
                assert forall|j: int| 0 <= j < k - fd - 1 implies #[trigger] t[j] != '.' by {
                    assert(t[j] == text@[fd + 1 + j]);
                }
            }
            if k == n {
                proof {
                    lemma_dot_run_exact(t, k - fd - 1);
                }
                break;
            }
            if text[k] == '.' {
                proof {
                    assert(t[k - fd - 1] == text@[k as int]);
                    lemma_dot_run_exact(t, k - fd - 1);
                }
                break;
            }
            k = k + 1;
        }
        NumberMeta { is_float: true, digit_count: n, fractional_digits: k - fd - 1 }
    }
}

/// Scan a numeric literal: the cursor stands at its first character,
/// `p` is the position there.  The maximal run of non-whitespace
/// characters is consumed; its raw text, metadata and end position are
/// returned, or `InvalidNumberLiteral` when the run is no valid numeric
/// literal.
fn run_number(input: &mut PeekBuffer<char>, p: Position) -> (r: Result<
    (Vec<char>, NumberMeta, Position),
    LexError,
>)
    requires
        old(input).wf(),
        old(input)@.index == 0,
    ensures
        final(input).wf(),
        final(input)@.index == 0,
        match scan_number(old(input)@.data, p) {
            Ok(t) => r matches Ok(v) && v.0@ == t.text && v.1 == t.meta && v.2 == t.pos
                && final(input)@.data == old(input)@.data.skip(t.used),
            Err(er) => r == Err::<(Vec<char>, NumberMeta, Position), LexError>(er),
        },
{
    let ghost s = input@.data;
    let mut text: Vec<char> = Vec::new();
    let mut pos = p;
    let ghost mut i: int = 0;
    proof {
        lemma_nonspace_run(s);
        assert(s.take(0) =~= Seq::<char>::empty());
    }
    loop
        invariant
            s == old(input)@.data,
            input.wf(),
            input@.index == 0,
            0 <= i <= s.len(),
            input@.data == s.skip(i),
            text@ == s.take(i),
            pos == pos_steps(p, s.take(i)),
            forall|j: int| 0 <= j < i ==> !is_space_char(#[trigger] s[j]),
        ensures
            i == nonspace_run(s),
            input.wf(),
            input@.index == 0,
            input@.data == s.skip(i),
            text@ == s.take(i),
            pos == pos_steps(p, s.take(i)),
        decreases s.len() - i,
    {
        let c = match input.peek() {
            Some(c) => c,
            None => {
                proof {
                    lemma_nonspace_run_exact(s, i);
                }
                break;
            },
        };
        proof {
            assert(c == s[i]);
        }
        if c == ' ' || c == '\t' || c == '\n' || c == '\r' {
            proof {
                lemma_nonspace_run_exact(s, i);
            }
            break;
        }
        let _ = input.eat();
        text.push(c);
        pos = pos.stepped(c);
        proof {
            i = i + 1;
            assert(input@.data =~= s.skip(i));
            assert(text@ =~= s.take(i));
            lemma_pos_steps_snoc(p, s, i - 1);
        }
    }
    let meta = compute_number_meta(&text);
    if check_number_text(&text) {
        Ok((text, meta, pos))
    } else {
        Err(LexError::InvalidNumberLiteral(pos))
    }
}

/// Scan a word: the cursor stands at its first character (already known
/// to start a word), `p` is the position there.  The first character
/// and the maximal following run of word characters are consumed; the
/// raw text, the classification and the end position are returned.
fn run_word(input: &mut PeekBuffer<char>, p: Position) -> (r: (Vec<char>, WordMeta, Position))
    requires
        old(input).wf(),
        old(input)@.index == 0,
        old(input)@.data.len() >= 1,
    ensures
        final(input).wf(),
        final(input)@.index == 0,
        ({
            let w = scan_word(old(input)@.data, p);
            &&& r.0@ == w.text
            &&& r.1 == w.meta
            &&& r.2 == w.pos
            &&& final(input)@.data == old(input)@.data.skip(w.used)
        }),
{
    let ghost s = input@.data;
    let c0 = match input.peek() {
        Some(c) => c,
        None => {
            // Unreachable: the live sequence is non-empty.
            proof {
                assert(false);
            }
            '_'
        },
    };
    let _ = input.eat();
    let mut text: Vec<char> = Vec::new();
    text.push(c0);
    let mut pos = p.stepped(c0);
    let ghost mut i: int = 1;
    proof {
        lemma_word_run(s.skip(1));
        assert(input@.data =~= s.skip(1));
        assert(text@ =~= s.take(1));
        assert(s.take(1).drop_last() =~= Seq::<char>::empty());
        crate::position::lemma_pos_steps_one(p, c0);
        assert(s.take(1) =~= seq![c0]);
    }
    loop
        invariant
            s == old(input)@.data,
            input.wf(),
            input@.index == 0,
            1 <= i <= s.len(),
            input@.data == s.skip(i),
            text@ == s.take(i),
            pos == pos_steps(p, s.take(i)),
            forall|j: int| 1 <= j < i ==> is_word_char(#[trigger] s[j]),
        ensures
            i == 1 + word_run(s.skip(1)),
            input.wf(),
            input@.index == 0,
            input@.data == s.skip(i),
            text@ == s.take(i),
            pos == pos_steps(p, s.take(i)),
        decreases s.len() - i,
    {
        proof {
            assert forall|j: int| 0 <= j < i - 1 implies is_word_char(#[trigger] s.skip(1)[j]) by {
                assert(s.skip(1)[j] == s[j + 1]);
            }
        }
        let c = match input.peek() {
            Some(c) => c,
            None => {
                proof {
                    lemma_word_run_exact(s.skip(1), i - 1);
                }
                break;
            },
        };
        proof {
            assert(c == s[i]);
            assert(s.skip(1)[i - 1] == s[i]);
        }
        if !(char_is_alphanumeric(c) || c == '.' || c == '_') {
            proof {
                lemma_word_run_exact(s.skip(1), i - 1);
            }
            break;
        }
        let _ = input.eat();
        text.push(c);
        pos = pos.stepped(c);
        proof {
            i = i + 1;
            assert(input@.data =~= s.skip(i));
            assert(text@ =~= s.take(i));
            lemma_pos_steps_snoc(p, s, i - 1);
        }
    }
    let mn = (text.len() == 3 && text[0] == 'a' && text[1] == 'd' && text[2] == 'd') || (text.len()
        == 3 && text[0] == 'n' && text[1] == 'o' && text[2] == 'p');
    proof {
        if mn {
            if text@[0] == 'a' {
                assert(text@ =~= seq!['a', 'd', 'd']);
            } else {
                assert(text@ =~= seq!['n', 'o', 'p']);
            }
        } else {
            assert(text@ != seq!['a', 'd', 'd'] && text@ != seq!['n', 'o', 'p']) by {
                if text@ == seq!['a', 'd', 'd'] || text@ == seq!['n', 'o', 'p'] {
                    assert(text@.len() == 3);
                }
            }
        }
    }
    let attr = !mn && text[0] == '.';
    let meta = WordMeta { is_mnemonic: mn, is_attribute: attr };
    (text, meta, pos)
}

/// The views of a sequence of operand texts, element by element.
pub open spec fn pieces_view(v: Seq<Vec<char>>) -> Seq<Seq<char>>
    decreases v.len(),
{
    if v.len() == 0 {
        Seq::empty()
    } else {
        seq![v[0]@] + pieces_view(v.skip(1))
    }
}

/// `pieces_view` is the element-wise view map.
pub proof fn lemma_pieces_view(v: Seq<Vec<char>>)
    ensures
        pieces_view(v).len() == v.len(),
        forall|i: int| 0 <= i < v.len() ==> pieces_view(v)[i] == #[trigger] v[i]@,
    decreases v.len(),
{
    if v.len() > 0 {
        lemma_pieces_view(v.skip(1));
        assert forall|i: int| 0 <= i < v.len() implies pieces_view(v)[i] == #[trigger] v[i]@ by {
            if i > 0 {
                assert(v.skip(1)[i - 1] == v[i]);
            }
        }
    }
}

/// Whether a token span carries the end-of-stream sentinel.
fn is_end_span(ts: &TokenSpan) -> (r: bool)
    ensures
        r == (ts@.token is End),
{
    match ts.0 {
        Token::End => true,
        _ => false,
    }
}

/// The cleanup pass over a directive's concatenated operand tokens, as
/// `strip_ends` prescribes: interior end-of-stream sentinels are
/// removed.
#[verifier::loop_isolation(false)]
fn strip_interior_ends(v: Vec<TokenSpan>) -> (r: Vec<TokenSpan>)
    ensures
        spans_view(r@) == strip_ends(spans_view(v@)),
{
    let ghost v0 = v@;
    let mut v = v;
    let mut out: Vec<TokenSpan> = Vec::new();
    proof {
        assert(spans_view(out@) =~= Seq::<SpanView>::empty());
        assert(Seq::<SpanView>::empty() + strip_ends(spans_view(v@)) =~= strip_ends(
            spans_view(v@),
        ));
    }
    while v.len() > 0
        invariant
            strip_ends(spans_view(v0)) == spans_view(out@) + strip_ends(spans_view(v@)),
        decreases v@.len(),
    {
        let ghost suffix = v@;
        let e = v.remove(0);
        proof {
            assert(v@ =~= suffix.skip(1));
            assert(spans_view(suffix) == seq![e@] + spans_view(suffix.skip(1)));
            assert(spans_view(suffix)[0] == e@);
            lemma_spans_view_len(suffix);
            lemma_spans_view_len(suffix.skip(1));
        }
        let drop_it = if is_end_span(&e) && v.len() > 0 {
            let keep_next = is_end_span(&v[0]);
            proof {
                assert(spans_view(suffix)[1] == suffix[1]@);
                assert(suffix[1] == v@[0]);
            }
            !keep_next
        } else {
            false
        };
        proof {
            let sv = spans_view(suffix);
            if drop_it {
                assert(sv[0].token is End && sv.len() > 1 && !(sv[1].token is End));
                assert(strip_ends(sv) == strip_ends(sv.skip(1)));
            } else {
                assert(!(sv[0].token is End && sv.len() > 1 && !(sv[1].token is End)));
                assert(strip_ends(sv) == seq![sv[0]] + strip_ends(sv.skip(1)));
            }
            assert(sv.skip(1) =~= spans_view(suffix.skip(1))) by {
                lemma_spans_view_len(suffix);
                lemma_spans_view_len(suffix.skip(1));
                assert forall|i: int| 0 <= i < suffix.skip(1).len() implies spans_view(
                    suffix,
                ).skip(1)[i] == spans_view(suffix.skip(1))[i] by {
                    assert(spans_view(suffix)[i + 1] == suffix[i + 1]@);
                    assert(spans_view(suffix.skip(1))[i] == suffix.skip(1)[i]@);
                    assert(suffix.skip(1)[i] == suffix[i + 1]);
                }
            }
        }
        if !drop_it {
            let ghost out0 = out@;
            out.push(e);
            proof {
                lemma_spans_view_snoc(out0, e);
                assert(out@ == out0.push(e));
                assert((spans_view(out0) + seq![e@]) + strip_ends(spans_view(v@)) =~= spans_view(
                    out0,
                ) + (seq![e@] + strip_ends(spans_view(v@))));
            }
        }
    }
    proof {
        assert(spans_view(v@) =~= Seq::<SpanView>::empty());
        assert(spans_view(out@) + Seq::<SpanView>::empty() =~= spans_view(out@));
    }
    out
}

/// Split the raw operand text on commas, as `split_commas` prescribes.
#[verifier::loop_isolation(false)]
fn split_on_commas(raw: &Vec<char>) -> (r: Vec<Vec<char>>)
    ensures
        pieces_view(r@) == split_commas(raw@),
        forall|i: int| 0 <= i < r@.len() ==> #[trigger] r@[i]@.len() <= raw@.len(),
{
    let n = raw.len();
    let mut pieces: Vec<Vec<char>> = Vec::new();
    let mut piece: Vec<char> = Vec::new();
    let mut off: usize = 0;
    let mut cur: usize = 0;
    proof {
        assert(pieces_view(pieces@) =~= Seq::<Seq<char>>::empty());
        assert(raw@.skip(0) =~= raw@);
        assert(Seq::<Seq<char>>::empty() + split_commas(raw@.skip(0)) =~= split_commas(raw@));
        assert(piece@ =~= raw@.skip(0).take(0));
    }
    while cur < n
        invariant
            0 <= off <= cur <= n,
            n == raw@.len(),
            split_commas(raw@) == pieces_view(pieces@) + split_commas(raw@.skip(off as int)),
            piece@ == raw@.skip(off as int).take(cur - off),
            forall|j: int| off <= j < cur ==> #[trigger] raw@[j] != ',',
            forall|i: int| 0 <= i < pieces@.len() ==> #[trigger] pieces@[i]@.len() <= raw@.len(),
        decreases n - cur,
    {
        let c = raw[cur];
        if c == ',' {
            proof {
                let t = raw@.skip(off as int);
                assert forall|j: int| 0 <= j < cur - off implies #[trigger] t[j] != ',' by {
                    assert(t[j] == raw@[off + j]);
                }
                assert(t[cur - off] == raw@[cur as int]);
                lemma_comma_run_exact(t, cur - off);
                assert(split_commas(t) == seq![t.take(cur - off)] + split_commas(
                    t.skip(cur - off + 1),
                ));
                assert(t.skip(cur - off + 1) =~= raw@.skip(cur + 1));
            }
            let full = piece;
            piece = Vec::new();
            let ghost pcs0 = pieces@;
            pieces.push(full);
            proof {
                lemma_pieces_view_snoc(pcs0, full);
                assert(pieces@ == pcs0.push(full));
                assert((pieces_view(pcs0) + seq![full@]) + split_commas(raw@.skip(cur + 1))
                    =~= pieces_view(pcs0) + (seq![full@] + split_commas(raw@.skip(cur + 1))));
                assert(piece@ =~= raw@.skip(cur + 1).take(0));
            }
            cur = cur + 1;
            off = cur;
        } else {
            piece.push(c);
            cur = cur + 1;
            proof {
                assert(piece@ =~= raw@.skip(off as int).take(cur - off));
            }
        }
    }
    proof {
        let t = raw@.skip(off as int);
        assert forall|j: int| 0 <= j < t.len() implies #[trigger] t[j] != ',' by {
            assert(t[j] == raw@[off + j]);
        }
        lemma_comma_run_exact(t, t.len() as int);
        assert(split_commas(t) == seq![t]);
        assert(piece@ =~= t);
    }
    let last = piece;
    let ghost pcs0 = pieces@;
    pieces.push(last);
    proof {
        lemma_pieces_view_snoc(pcs0, last);
        assert(pieces@ == pcs0.push(last));
        assert(pieces_view(pcs0) + seq![last@] =~= pieces_view(pcs0) + split_commas(
            raw@.skip(off as int),
        ));
        lemma_pieces_view(pieces@);
    }
    pieces
}


/// The directive expansion, for the raw operand text that is the rest
/// of the attribute word's line: each non-empty comma-separated operand
/// is re-tokenized by the full lexer from a fresh position, interior
/// end-of-stream sentinels are cleaned, and the result is wrapped as a
/// `List` token (omitted when the operand text is empty) followed by an
/// `EndBlock` sentinel, both spanning from the word's start `pstart` to
/// the end of the operand text; lexing then continues after the text.
pub open spec fn spec_directive(
    rest: Seq<char>,
    pstart: Position,
    wordv: SpanView,
    wpos: Position,
) -> Result<Seq<SpanView>, LexError> {
    let m = line_run(rest);
    let raw = rest.take(m);
    let pa = pos_steps(wpos, raw);
    if m == 0 {
        match spec_lex_from(rest.skip(m), pa) {
            Ok(ts) => Ok(seq![wordv, SpanView { token: TokenView::EndBlock, start: pstart, end: pa }]
                + ts),
            Err(er) => Err(er),
        }
    } else {
        match lex_pieces(split_commas(raw)) {
            Ok(subs) => match spec_lex_from(rest.skip(m), pa) {
                Ok(ts) => Ok(
                    seq![
                        wordv,
                        SpanView { token: TokenView::List(strip_ends(subs)), start: pstart, end: pa },
                        SpanView { token: TokenView::EndBlock, start: pstart, end: pa },
                    ] + ts,
                ),
                Err(er) => Err(er),
            },
            Err(er) => Err(er),
        }
    }
}

/// Lex a full character buffer from position `p`: the entry point over
/// characters, also used to re-tokenize each directive operand.
pub fn lex_chars(data: Vec<char>, p: Position) -> (r: Result<Vec<TokenSpan>, LexError>)
    ensures
        match spec_lex_from(data@, p) {
            Ok(ts) => r matches Ok(v) && spans_view(v@) == ts,
            Err(er) => r == Err::<Vec<TokenSpan>, LexError>(er),
        },
    decreases data@.len(), 2int,
{
    let mut cur = PeekBuffer::new(data);
    lex_rest(&mut cur, p)
}

/// One lexing pass over the cursor's remaining characters, from
/// position `p`, as `spec_lex_from` prescribes.
#[verifier::rlimit(100)]
fn lex_rest(input: &mut PeekBuffer<char>, p: Position) -> (r: Result<Vec<TokenSpan>, LexError>)
    requires
        old(input).wf(),
        old(input)@.index == 0,
    ensures
        match spec_lex_from(old(input)@.data, p) {
            Ok(ts) => r matches Ok(v) && spans_view(v@) == ts,
            Err(er) => r == Err::<Vec<TokenSpan>, LexError>(er),
        },
    decreases old(input)@.data.len(), 1int,
{
    let ghost s = input@.data;
    let c = match input.peek() {
        Some(c) => c,
        None => {
            let mut out: Vec<TokenSpan> = Vec::new();
            out.push(TokenSpan(Token::End, p, p));
            proof {
                assert(out@[0] == TokenSpan(Token::End, p, p));
                assert(out@.skip(1) =~= Seq::<TokenSpan>::empty());
                assert(spans_view(Seq::<TokenSpan>::empty()) =~= Seq::<SpanView>::empty());
                assert(span_view(TokenSpan(Token::End, p, p)) == (SpanView {
                    token: TokenView::End,
                    start: p,
                    end: p,
                }));
                assert(spans_view(out@) =~= seq![
                    SpanView { token: TokenView::End, start: p, end: p },
                ]);
            }
            return Ok(out);
        },
    };
    if c == ' ' || c == '\t' || c == '\n' || c == '\r' {
        let _ = input.eat();
        proof {
            assert(input@.data =~= s.skip(1));
        }
        return lex_rest(input, p.stepped(c));
    }
    if c == '"' {
        let _ = input.eat();
        proof {
            assert(input@.data =~= s.skip(1));
        }
        let mut text: Vec<char> = Vec::new();
        let p1 = p.stepped(c);
        return match run_string(input, p1, &mut text) {
            Ok(pe) => {
                proof {
                    match scan_string(s.skip(1), pos_step(p, c)) {
                        Ok(t) => {
                            lemma_scan_string_used(s.skip(1), pos_step(p, c));
                            assert(input@.data =~= s.skip(1 + t.used));
                            assert(Seq::<char>::empty() + t.text =~= t.text);
                        },
                        Err(_) => {
                            assert(false);
                        },
                    }
                }
                let tok = TokenSpan(Token::String(chars_to_string(&text)), p, pe);
                match lex_rest(input, pe) {
                    Ok(mut tail) => {
                        let ghost tail0 = tail@;
                        tail.insert(0, tok);
                        proof {
                            lemma_cons_view(tok, tail0, tail@);
                        }
                        Ok(tail)
                    },
                    Err(er) => Err(er),
                }
            },
            Err(er) => Err(er),
        };
    }
    if c == '\'' {
        let _ = input.eat();
        proof {
            assert(input@.data =~= s.skip(1));
        }
        let p1 = p.stepped(c);
        return match run_character(input, p1) {
            Ok((v, pe)) => {
                proof {
                    match scan_character(s.skip(1), pos_step(p, c)) {
                        Ok(t) => {
                            lemma_scan_character_used(s.skip(1), pos_step(p, c));
                            assert(input@.data =~= s.skip(1 + t.used));
                        },
                        Err(_) => {
                            assert(false);
                        },
                    }
                }
                let tok = TokenSpan(Token::Character(v), p, pe);
                match lex_rest(input, pe) {
                    Ok(mut tail) => {
                        let ghost tail0 = tail@;
                        tail.insert(0, tok);
                        proof {
                            lemma_cons_view(tok, tail0, tail@);
                        }
                        Ok(tail)
                    },
                    Err(er) => Err(er),
                }
            },
            Err(er) => Err(er),
        };
    }
    if char_is_numeric(c) {
        return match run_number(input, p) {
            Ok((text, meta, pe)) => {
                proof {
                    match scan_number(s, p) {
                        Ok(t) => {
                            lemma_nonspace_run(s);
                            assert(nonspace_run(s) >= 1);
                            assert(input@.data =~= s.skip(t.used));
                        },
                        Err(_) => {
                            assert(false);
                        },
                    }
                }
                let tok = TokenSpan(Token::Number(chars_to_string(&text), meta), p, pe);
                match lex_rest(input, pe) {
                    Ok(mut tail) => {
                        let ghost tail0 = tail@;
                        tail.insert(0, tok);
                        proof {
                            lemma_cons_view(tok, tail0, tail@);
                        }
                        Ok(tail)
                    },
                    Err(er) => Err(er),
                }
            },
            Err(er) => Err(er),
        };
    }
    if char_is_alphabetic(c) || c == '.' || c == '_' {
        let ghost w = scan_word(s, p);
        proof {
            lemma_word_run(s.skip(1));
        }
        let (wtext, wmeta, wpos) = run_word(input, p);
        let word_tok = TokenSpan(Token::Word(chars_to_string(&wtext), wmeta), p, wpos);
        if !wmeta.is_attribute {
            return match lex_rest(input, wpos) {
                Ok(mut tail) => {
                    let ghost tail0 = tail@;
                    tail.insert(0, word_tok);
                    proof {
                        lemma_cons_view(word_tok, tail0, tail@);
                    }
                    Ok(tail)
                },
                Err(er) => Err(er),
            };
        }
        // The attribute word introduces a directive: the rest of its
        // line is the raw operand text.
        proof {
            let restg = s.skip(w.used);
            let mg = line_run(restg);
            lemma_line_run(restg);
            assert(restg.skip(0) =~= restg);
            assert(restg.skip(mg) =~= s.skip(w.used + mg));
            assert(word_tok@ == (SpanView {
                token: TokenView::Word(w.text, w.meta),
                start: p,
                end: w.pos,
            }));
            assert(spec_lex_from(s, p) == spec_directive(s.skip(w.used), p, word_tok@, w.pos));
        }
        return lex_directive(input, p, word_tok, wpos);
    }
    // Punctuation, or a silently skipped character.
    let punct: Option<Token> = if c == '#' {
        Some(Token::Hashtag)
    } else if c == ':' {
        Some(Token::Colon)
    } else if c == ',' {
        Some(Token::Comma)
    } else if c == '(' {
        Some(Token::LeftParen)
    } else if c == ')' {
        Some(Token::RightParen)
    } else if c == '[' {
        Some(Token::LeftBracket)
    } else if c == ']' {
        Some(Token::RightBracket)
    } else {
        None
    };
    let _ = input.eat();
    proof {
        assert(input@.data =~= s.skip(1));
    }
    match punct {
        Some(tok) => {
            let span = TokenSpan(tok, p, p);
            proof {
                assert(punct_token(c) matches Some(tv) && span@ == (SpanView {
                    token: tv,
                    start: p,
                    end: p,
                }));
            }
            match lex_rest(input, p.stepped(c)) {
                Ok(mut tail) => {
                    let ghost tail0 = tail@;
                    tail.insert(0, span);
                    proof {
                        lemma_cons_view(span, tail0, tail@);
                    }
                    Ok(tail)
                },
                Err(er) => Err(er),
            }
        },
        None => {
            proof {
                assert(punct_token(c) is None);
            }
            lex_rest(input, p.stepped(c))
        },
    }
}

/// Appending one operand text appends its view.
pub proof fn lemma_pieces_view_snoc(t: Seq<Vec<char>>, x: Vec<char>)
    ensures
        pieces_view(t.push(x)) == pieces_view(t) + seq![x@],
{
    lemma_pieces_view(t.push(x));
    lemma_pieces_view(t);
    assert(pieces_view(t.push(x)) =~= pieces_view(t) + seq![x@]) by {
        assert forall|i: int| 0 <= i < t.len() + 1 implies pieces_view(t.push(x))[i] == (
        pieces_view(t) + seq![x@])[i] by {
            assert(pieces_view(t.push(x))[i] == t.push(x)[i]@);
            if i < t.len() {
                assert(t.push(x)[i] == t[i]);
            } else {
                assert(t.push(x)[i] == x);
            }
        }
    }
}

/// Appending one token span appends its view.
pub proof fn lemma_spans_view_snoc(t: Seq<TokenSpan>, x: TokenSpan)
    ensures
        spans_view(t.push(x)) == spans_view(t) + seq![x@],
{
    lemma_spans_view_app(t, seq![x]);
    assert(t + seq![x] =~= t.push(x));
    assert(spans_view(seq![x]) =~= seq![x@]) by {
        assert(seq![x][0] == x);
        assert(seq![x].skip(1) =~= Seq::<TokenSpan>::empty());
        assert(spans_view(Seq::<TokenSpan>::empty()) =~= Seq::<SpanView>::empty());
        assert(seq![x@] + Seq::<SpanView>::empty() =~= seq![x@]);
    }
}

/// Prepending one token span prepends its view.
pub proof fn lemma_cons_view(x: TokenSpan, t: Seq<TokenSpan>, u: Seq<TokenSpan>)
    requires
        u == t.insert(0, x),
    ensures
        spans_view(u) == seq![x@] + spans_view(t),
{
    assert(u =~= seq![x] + t);
    assert((seq![x] + t)[0] == x);
    assert((seq![x] + t).skip(1) =~= t);
}

/// Expand a directive: the attribute word has been consumed (its token
/// is `word_tok`, ending at `wpos`, starting at `pstart`), and the
/// cursor stands after it.  The rest of the line is consumed as raw
/// operand text and handled as `spec_directive` prescribes, and the
/// remainder of the input is lexed.
#[verifier::rlimit(100)]
fn lex_directive(
    input: &mut PeekBuffer<char>,
    pstart: Position,
    word_tok: TokenSpan,
    wpos: Position,
) -> (r: Result<Vec<TokenSpan>, LexError>)
    requires
        old(input).wf(),
        old(input)@.index == 0,
    ensures
        match spec_directive(old(input)@.data, pstart, word_tok@, wpos) {
            Ok(ts) => r matches Ok(v) && spans_view(v@) == ts,
            Err(er) => r == Err::<Vec<TokenSpan>, LexError>(er),
        },
    decreases old(input)@.data.len() + 1, 0int,
{
    let ghost rest = input@.data;
    proof {
        lemma_line_run(rest);
    }
    let mut raw: Vec<char> = Vec::new();
    let mut pa = wpos;
    let ghost mut i: int = 0;
    proof {
        assert(rest.take(0) =~= Seq::<char>::empty());
    }
    loop
        invariant
            input.wf(),
            input@.index == 0,
            rest == old(input)@.data,
            0 <= i <= rest.len(),
            input@.data == rest.skip(i),
            raw@ == rest.take(i),
            pa == pos_steps(wpos, rest.take(i)),
            forall|j: int| 0 <= j < i ==> #[trigger] rest[j] != '\n',
        ensures
            i == line_run(rest),
            input.wf(),
            input@.index == 0,
            input@.data == rest.skip(i),
            raw@ == rest.take(i),
            pa == pos_steps(wpos, rest.take(i)),
        decreases rest.len() - i,
    {
        let c2 = match input.peek() {
            Some(c2) => c2,
            None => {
                proof {
                    lemma_line_run_exact(rest, i);
                }
                break;
            },
        };
        proof {
            assert(c2 == rest[i]);
        }
        if c2 == '\n' {
            proof {
                lemma_line_run_exact(rest, i);
            }
            break;
        }
        let _ = input.eat();
        raw.push(c2);
        pa = pa.stepped(c2);
        proof {
            i = i + 1;
            assert(input@.data =~= rest.skip(i));
            assert(raw@ =~= rest.take(i));
            lemma_pos_steps_snoc(wpos, rest, i - 1);
        }
    }
    let ghost m = line_run(rest);
    if raw.len() == 0 {
        let endb = TokenSpan(Token::EndBlock, pstart, pa);
        proof {
            assert(input@.data == rest.skip(0));
            assert(rest.skip(0) =~= rest);
        }
        return match lex_rest(input, pa) {
            Ok(mut tail) => {
                let ghost tail0 = tail@;
                tail.insert(0, endb);
                let ghost tail1 = tail@;
                tail.insert(0, word_tok);
                proof {
                    lemma_cons_view(endb, tail0, tail1);
                    lemma_cons_view(word_tok, tail1, tail@);
                    assert(seq![word_tok@] + (seq![endb@] + spans_view(tail0)) =~= seq![
                        word_tok@,
                        endb@,
                    ] + spans_view(tail0));
                }
                Ok(tail)
            },
            Err(er) => Err(er),
        };
    }
    let pieces = split_on_commas(&raw);
    let ghost pv = split_commas(raw@);
    let mut rem_pieces = pieces;
    let mut subs: Vec<TokenSpan> = Vec::new();
    proof {
        assert(spans_view(subs@) =~= Seq::<SpanView>::empty());
        match lex_pieces(pieces_view(rem_pieces@)) {
            Ok(ts) => {
                assert(Seq::<SpanView>::empty() + ts =~= ts);
            },
            Err(_) => {},
        }
    }
    loop
        invariant
            rest == old(input)@.data,
            input.wf(),
            input@.index == 0,
            input@.data == rest.skip(line_run(rest)),
            raw@ == rest.take(line_run(rest)),
            line_run(rest) == raw@.len(),
            raw@.len() >= 1,
            pv == split_commas(raw@),
            forall|q: int|
                0 <= q < rem_pieces@.len() ==> #[trigger] rem_pieces@[q]@.len() <= raw@.len(),
            raw@.len() <= rest.len(),
            lex_pieces(pv) == (match lex_pieces(pieces_view(rem_pieces@)) {
                Ok(ts) => Ok(spans_view(subs@) + ts),
                Err(er) => Err::<Seq<SpanView>, LexError>(er),
            }),
        ensures
            rem_pieces@.len() == 0,
        decreases rem_pieces@.len(),
    {
        if rem_pieces.len() == 0 {
            break;
        }
        let ghost rp0 = rem_pieces@;
        let piece = rem_pieces.remove(0);
        proof {
            assert(rem_pieces@ =~= rp0.skip(1));
            assert(pieces_view(rp0) == seq![rp0[0]@] + pieces_view(rp0.skip(1)));
            lemma_pieces_view(rp0);
            assert(pieces_view(rp0)[0] == piece@);
            assert(pieces_view(rp0).skip(1) =~= pieces_view(rp0.skip(1))) by {
                lemma_pieces_view(rp0.skip(1));
                assert forall|q: int| 0 <= q < rp0.skip(1).len() implies pieces_view(
                    rp0,
                ).skip(1)[q] == pieces_view(rp0.skip(1))[q] by {
                    assert(pieces_view(rp0)[q + 1] == rp0[q + 1]@);
                    assert(rp0.skip(1)[q] == rp0[q + 1]);
                }
            }
        }
        if piece.len() == 0 {
            proof {
                assert(lex_pieces(pieces_view(rp0)) == lex_pieces(pieces_view(rem_pieces@)));
            }
            continue;
        }
        match lex_chars(piece, Position(1, 1)) {
            Ok(mut sub) => {
                proof {
                    match spec_lex_from(pieces_view(rp0)[0], Position(1, 1)) {
                        Ok(ts) => {
                            assert(spans_view(sub@) == ts);
                        },
                        Err(_) => {
                            assert(false);
                        },
                    }
                }
                let ghost subs0 = subs@;
                let ghost sub0 = sub@;
                subs.append(&mut sub);
                proof {
                    assert(subs@ =~= subs0 + sub0);
                    lemma_spans_view_app(subs0, sub0);
                    match lex_pieces(pieces_view(rem_pieces@)) {
                        Ok(ts2) => {
                            assert((spans_view(subs0) + spans_view(sub0)) + ts2 =~= spans_view(
                                subs0,
                            ) + (spans_view(sub0) + ts2));
                        },
                        Err(_) => {},
                    }
                }
            },
            Err(er) => {
                proof {
                    assert(spec_lex_from(pieces_view(rp0)[0], Position(1, 1)) == Err::<
                        Seq<SpanView>,
                        LexError,
                    >(er));
                    assert(lex_pieces(pieces_view(rp0)) == Err::<Seq<SpanView>, LexError>(er));
                }
                return Err(er);
            },
        }
    }
    proof {
        assert(pieces_view(rem_pieces@) =~= Seq::<Seq<char>>::empty());
        assert(lex_pieces(pieces_view(rem_pieces@)) == Ok::<Seq<SpanView>, LexError>(
            Seq::empty(),
        ));
        match lex_pieces(pv) {
            Ok(ts) => {
                assert(spans_view(subs@) + Seq::<SpanView>::empty() =~= spans_view(subs@));
                assert(ts == spans_view(subs@));
            },
            Err(_) => {
                assert(false);
            },
        }
    }
    let stripped = strip_interior_ends(subs);
    let list_tok = TokenSpan(Token::List(stripped), pstart, pa);
    let endb = TokenSpan(Token::EndBlock, pstart, pa);
    return match lex_rest(input, pa) {
        Ok(mut tail) => {
            let ghost tail0 = tail@;
            tail.insert(0, endb);
            let ghost tail1 = tail@;
            tail.insert(0, list_tok);
            let ghost tail2 = tail@;
            tail.insert(0, word_tok);
            proof {
                lemma_cons_view(endb, tail0, tail1);
                lemma_cons_view(list_tok, tail1, tail2);
                lemma_cons_view(word_tok, tail2, tail@);
                assert(seq![word_tok@] + (seq![list_tok@] + (seq![endb@] + spans_view(
                    tail0,
                ))) =~= seq![word_tok@, list_tok@, endb@] + spans_view(tail0));
            }
            Ok(tail)
        },
        Err(er) => Err(er),
    };
}

/// Turn a string into its character sequence.
fn string_to_chars(text: &str) -> (v: Vec<char>)
    ensures
        v@ == text@,
{
    broadcast use vstd::string::next_postcondition, vstd::string::axiom_spec_iter;

    let mut it = text.chars();
    let mut v: Vec<char> = Vec::new();
    loop
        invariant
            it.obeys_prophetic_iter_laws(),
            v@ + it.remaining() == text@,
            v@.len() <= text@.len(),
        decreases text@.len() - v@.len(),
    {
        match it.next() {
            Some(c) => {
                v.push(c);
                proof {
                    assert(v@ + it.remaining() =~= text@);
                }
            },
            None => {
                proof {
                    assert(v@ =~= text@);
                }
                return v;
            },
        }
    }
}

/// The lexer entry point.  It owns one scanning cursor over the input
/// characters and turns the whole input into a stream of
/// position-tagged tokens, as `spec_lex_from` prescribes, starting at
/// line 1, column 1.  The forward and backward lookahead bounds `BWD`
/// and `FWD` are advisory sizing configuration; they do not limit the
/// cursor.
pub struct Lexer<const BWD: usize, const FWD: usize> {
    pub position_start: Position,
    pub position_end: Position,
}

impl<const BWD: usize, const FWD: usize> Lexer<BWD, FWD> {
    /// A fresh lexer, positioned at line 1, column 1.
    pub fn new() -> (r: Self)
        ensures
            r.position_start == Position(1, 1),
            r.position_end == Position(1, 1),
    {
        Self { position_start: Position(1, 1), position_end: Position(1, 1) }
    }

    /// Tokenize the whole input, as `spec_lex_from` prescribes from
    /// line 1, column 1: on success the emitted token spans (ending in
    /// exactly one end-of-stream sentinel), on failure the exact
    /// position-tagged error.
    pub fn lex(&mut self, input: String) -> (r: Result<Vec<TokenSpan>, LexError>)
        ensures
            match spec_lex_from(input@, Position(1, 1)) {
                Ok(ts) => r matches Ok(v) && spans_view(v@) == ts,
                Err(er) => r == Err::<Vec<TokenSpan>, LexError>(er),
            },
    {
        self.position_start = Position(1, 1);
        self.position_end = Position(1, 1);
        let chars = string_to_chars(input.as_str());
        let r = lex_chars(chars, Position(1, 1));
        if let Ok(tokens) = &r {
            if tokens.len() > 0 {
                // The emitted stream ends in the end-of-stream sentinel,
                // whose span is the final position.
                self.position_end = tokens[tokens.len() - 1].2;
            }
        }
        r
    }
}

/// The text parser: drives the full lexer over the remaining contents
/// of a scanning cursor.
pub struct TextParser {}

impl TextParser {
    /// A fresh text parser.
    pub fn new() -> (r: Self)
        ensures
            true,
    {
        TextParser {  }
    }

    /// Tokenize the characters remaining ahead of the cursor, as
    /// `spec_lex_from` prescribes from line 1, column 1.
    pub fn parse(&mut self, data: PeekBuffer<char>) -> (r: Result<Vec<TokenSpan>, LexError>)
        requires
            data.wf(),
        ensures
            match spec_lex_from(data@.data.skip(data@.index), Position(1, 1)) {
                Ok(ts) => r matches Ok(v) && spans_view(v@) == ts,
                Err(er) => r == Err::<Vec<TokenSpan>, LexError>(er),
            },
    {
        let ghost rem = data@.data.skip(data@.index);
        let mut cur = data;
        let mut chars: Vec<char> = Vec::new();
        proof {
            assert(chars@ + rem =~= rem);
        }
        loop
            invariant
                rem == data@.data.skip(data@.index),
                cur.wf(),
                cur@.index == data@.index,
                chars@ + cur@.data.skip(cur@.index) == rem,
            ensures
                chars@ == rem,
            decreases cur@.data.len(),
        {
            let ghost pre = cur@;
            match cur.eat() {
                Some(c) => {
                    chars.push(c);
                    proof {
                        assert(cur@.data == pre.data.remove(pre.index));
                        assert(c == pre.data[pre.index]);
                        assert(cur@.data.skip(cur@.index) =~= pre.data.skip(pre.index).skip(1));
                        assert(chars@ + cur@.data.skip(cur@.index) =~= rem);
                    }
                },
                None => {
                    proof {
                        assert(cur@.data.skip(cur@.index).len() == 0);
                        assert(chars@ =~= rem);
                    }
                    break;
                },
            }
        }
        lex_chars(chars, Position(1, 1))
    }
}

/// Stream-shape law: whenever lexing succeeds, the emitted stream ends
/// in exactly one end-of-stream sentinel — the sentinel is its last
/// token and appears nowhere earlier in the stream.
#[verifier::rlimit(100)]
#[verifier::spinoff_prover]
pub proof fn lemma_lex_ends_in_one_sentinel(s: Seq<char>, p: Position)
    ensures
        match spec_lex_from(s, p) {
            Ok(ts) => ts.len() >= 1 && ts.last().token is End && (forall|i: int|
                0 <= i < ts.len() - 1 ==> !(#[trigger] ts[i].token is End)),
            Err(_) => true,
        },
    decreases s.len(),
{
    if s.len() == 0 {
    } else {
        let c = s[0];
        if is_space_char(c) {
            lemma_lex_ends_in_one_sentinel(s.skip(1), pos_step(p, c));
        } else if c == '"' {
            match scan_string(s.skip(1), pos_step(p, c)) {
                Ok(t) => {
                    lemma_scan_string_used(s.skip(1), pos_step(p, c));
                    lemma_lex_ends_in_one_sentinel(s.skip(1 + t.used), t.pos);
                    lemma_cons_sentinel(
                        SpanView { token: TokenView::String(t.text), start: p, end: t.pos },
                        spec_lex_from(s.skip(1 + t.used), t.pos),
                    );
                },
                Err(_) => {},
            }
        } else if c == '\'' {
            match scan_character(s.skip(1), pos_step(p, c)) {
                Ok(t) => {
                    lemma_scan_character_used(s.skip(1), pos_step(p, c));
                    lemma_lex_ends_in_one_sentinel(s.skip(1 + t.used), t.pos);
                    lemma_cons_sentinel(
                        SpanView { token: TokenView::Character(t.value), start: p, end: t.pos },
                        spec_lex_from(s.skip(1 + t.used), t.pos),
                    );
                },
                Err(_) => {},
            }
        } else if is_digit_char(c) {
            match scan_number(s, p) {
                Ok(t) => {
                    lemma_nonspace_run(s);
                    lemma_lex_ends_in_one_sentinel(s.skip(t.used), t.pos);
                    lemma_cons_sentinel(
                        SpanView { token: TokenView::Number(t.text, t.meta), start: p, end: t.pos },
                        spec_lex_from(s.skip(t.used), t.pos),
                    );
                },
                Err(_) => {},
            }
        } else if is_alpha_char(c) || c == '.' || c == '_' {
            let w = scan_word(s, p);
            lemma_word_run(s.skip(1));
            let word_span = SpanView { token: TokenView::Word(w.text, w.meta), start: p, end: w.pos };
            if !w.meta.is_attribute {
                lemma_lex_ends_in_one_sentinel(s.skip(w.used), w.pos);
                lemma_cons_sentinel(word_span, spec_lex_from(s.skip(w.used), w.pos));
            } else {
                let rest = s.skip(w.used);
                lemma_line_run(rest);
                let m = line_run(rest);
                let raw = rest.take(m);
                let pa = pos_steps(w.pos, raw);
                if m == 0 {
                    lemma_lex_ends_in_one_sentinel(s.skip(w.used), pa);
                    match spec_lex_from(s.skip(w.used), pa) {
                        Ok(ts) => {
                            lemma_cons_sentinel(
                                SpanView { token: TokenView::EndBlock, start: p, end: pa },
                                Ok(ts),
                            );
                            lemma_cons_sentinel(
                                word_span,
                                Ok(
                                    seq![
                                        SpanView { token: TokenView::EndBlock, start: p, end: pa },
                                    ] + ts,
                                ),
                            );
                            assert(seq![word_span] + (seq![
                                SpanView { token: TokenView::EndBlock, start: p, end: pa },
                            ] + ts) =~= seq![
                                word_span,
                                SpanView { token: TokenView::EndBlock, start: p, end: pa },
                            ] + ts);
                        },
                        Err(_) => {},
                    }
                } else {
                    lemma_split_commas(raw);
                    match lex_pieces(split_commas(raw)) {
                        Ok(subs) => {
                            lemma_lex_ends_in_one_sentinel(s.skip(w.used + m), pa);
                            let list_span = SpanView {
                                token: TokenView::List(strip_ends(subs)),
                                start: p,
                                end: pa,
                            };
                            let end_span = SpanView { token: TokenView::EndBlock, start: p, end: pa };
                            match spec_lex_from(s.skip(w.used + m), pa) {
                                Ok(ts) => {
                                    lemma_cons_sentinel(end_span, Ok(ts));
                                    lemma_cons_sentinel(list_span, Ok(seq![end_span] + ts));
                                    lemma_cons_sentinel(
                                        word_span,
                                        Ok(seq![list_span] + (seq![end_span] + ts)),
                                    );
                                    assert(seq![word_span] + (seq![list_span] + (seq![end_span]
                                        + ts)) =~= seq![word_span, list_span, end_span] + ts);
                                },
                                Err(_) => {},
                            }
                        },
                        Err(_) => {},
                    }
                }
            }
        } else {
            match punct_token(c) {
                Some(tv) => {
                    lemma_lex_ends_in_one_sentinel(s.skip(1), pos_step(p, c));
                    lemma_cons_sentinel(
                        SpanView { token: tv, start: p, end: p },
                        spec_lex_from(s.skip(1), pos_step(p, c)),
                    );
                },
                None => {
                    lemma_lex_ends_in_one_sentinel(s.skip(1), pos_step(p, c));
                },
            }
        }
    }
}

/// Prepending a non-sentinel token keeps the stream-shape law.
proof fn lemma_cons_sentinel(x: SpanView, r: Result<Seq<SpanView>, LexError>)
    requires
        !(x.token is End),
        match r {
            Ok(ts) => ts.len() >= 1 && ts.last().token is End && (forall|i: int|
                0 <= i < ts.len() - 1 ==> !(#[trigger] ts[i].token is End)),
            Err(_) => true,
        },
    ensures
        match r {
            Ok(ts) => {
                let u = seq![x] + ts;
                u.len() >= 1 && u.last().token is End && (forall|i: int|
                    0 <= i < u.len() - 1 ==> !(#[trigger] u[i].token is End))
            },
            Err(_) => true,
        },
{
    match r {
        Ok(ts) => {
            let u = seq![x] + ts;
            assert(u.last() == ts.last());
            assert forall|i: int| 0 <= i < u.len() - 1 implies !(#[trigger] u[i].token is End) by {
                if i > 0 {
                    assert(u[i] == ts[i - 1]);
                } else {
                    assert(u[0] == x);
                }
            }
        },
        Err(_) => {},
    }
}

} // verus!
