//! Escape-sequence decoding.
//!
//! The decoder is invoked with the cursor positioned immediately after a
//! consumed backslash inside a literal and decodes one escape sequence
//! to a single character value, or fails.  The forms are: fixed
//! single-character mappings; `\xHH` with up to two hexadecimal digits;
//! the braced numeric escape `\u{H...}`; and the braced named escape
//! `\U{NAME}`, resolved through a Unicode name-to-scalar lookup.
//!
//! `scan_escape` is the specification: it says, for the character
//! sequence ahead of the cursor, exactly which character an escape
//! decodes to, how many characters it consumes, and at which position
//! each failure is reported.

use vstd::prelude::*;

use crate::cursor::PeekBuffer;
use crate::position::{pos_step, pos_steps, Position};
use crate::position::{lemma_pos_steps_one, lemma_pos_steps_snoc};
use crate::token::LexError;

verus! {

/// Whether `c` is a hexadecimal digit.
pub open spec fn is_hex_digit(c: char) -> bool {
    ('0' <= c && c <= '9') || ('a' <= c && c <= 'f') || ('A' <= c && c <= 'F')
}

/// The length of the maximal prefix of `s` made of hexadecimal digits.
pub open spec fn hex_run(s: Seq<char>) -> int
    decreases s.len(),
{
    if s.len() == 0 || !is_hex_digit(s[0]) {
        0
    } else {
        1 + hex_run(s.skip(1))
    }
}

/// What `hex_run` returns: a prefix of hex digits, delimited by the end
/// of `s` or the first character that is no hex digit, and nothing else.
pub proof fn lemma_hex_run(s: Seq<char>)
    ensures
        0 <= hex_run(s) <= s.len(),
        forall|i: int| 0 <= i < hex_run(s) ==> is_hex_digit(#[trigger] s[i]),
        hex_run(s) < s.len() ==> !is_hex_digit(s[hex_run(s)]),
    decreases s.len(),
{
    if s.len() > 0 && is_hex_digit(s[0]) {
        lemma_hex_run(s.skip(1));
        assert forall|i: int| 0 <= i < hex_run(s) implies is_hex_digit(#[trigger] s[i]) by {
            if i > 0 {
                assert(is_hex_digit(s.skip(1)[i - 1]));
            }
        }
        if hex_run(s) < s.len() {
            assert(s.skip(1)[hex_run(s) - 1] == s[hex_run(s)]);
        }
    }
}

/// A count of leading hex digits, stopped by the end or by a character
/// that is no hex digit, is exactly `hex_run`.
pub proof fn lemma_hex_run_exact(s: Seq<char>, i: int)
    requires
        0 <= i <= s.len(),
        forall|j: int| 0 <= j < i ==> is_hex_digit(#[trigger] s[j]),
        i < s.len() ==> !is_hex_digit(s[i]),
    ensures
        hex_run(s) == i,
    decreases i,
{
    if i > 0 {
        assert(is_hex_digit(s[0]));
        assert forall|j: int| 0 <= j < i - 1 implies is_hex_digit(#[trigger] s.skip(1)[j]) by {
            assert(s.skip(1)[j] == s[j + 1]);
        }
        if i - 1 < s.skip(1).len() {
            assert(s.skip(1)[i - 1] == s[i]);
        }
        lemma_hex_run_exact(s.skip(1), i - 1);
    }
}

/// The length of the maximal prefix of `s` without a closing brace.
pub open spec fn name_run(s: Seq<char>) -> int
    decreases s.len(),
{
    if s.len() == 0 || s[0] == '}' {
        0
    } else {
        1 + name_run(s.skip(1))
    }
}

/// What `name_run` returns: a prefix without `}`, delimited by the end
/// of `s` or the first `}`.
pub proof fn lemma_name_run(s: Seq<char>)
    ensures
        0 <= name_run(s) <= s.len(),
        forall|i: int| 0 <= i < name_run(s) ==> #[trigger] s[i] != '}',
        name_run(s) < s.len() ==> s[name_run(s)] == '}',
    decreases s.len(),
{
    if s.len() > 0 && s[0] != '}' {
        lemma_name_run(s.skip(1));
        assert forall|i: int| 0 <= i < name_run(s) implies #[trigger] s[i] != '}' by {
            if i > 0 {
                assert(s.skip(1)[i - 1] != '}');
            }
        }
        if name_run(s) < s.len() {
            assert(s.skip(1)[name_run(s) - 1] == s[name_run(s)]);
        }
    }
}

/// A count of leading characters other than `}`, stopped by the end or
/// by a `}`, is exactly `name_run`.
pub proof fn lemma_name_run_exact(s: Seq<char>, i: int)
    requires
        0 <= i <= s.len(),
        forall|j: int| 0 <= j < i ==> #[trigger] s[j] != '}',
        i < s.len() ==> s[i] == '}',
    ensures
        name_run(s) == i,
    decreases i,
{
    if i > 0 {
        assert(s[0] != '}');
        assert forall|j: int| 0 <= j < i - 1 implies #[trigger] s.skip(1)[j] != '}' by {
            assert(s.skip(1)[j] == s[j + 1]);
        }
        if i - 1 < s.skip(1).len() {
            assert(s.skip(1)[i - 1] == s[i]);
        }
        lemma_name_run_exact(s.skip(1), i - 1);
    }
}

/// The numeric value of a hexadecimal digit; 0 on other characters.
pub open spec fn hex_digit_val(c: char) -> int {
    if '0' <= c && c <= '9' {
        c as u32 - '0' as u32
    } else if 'a' <= c && c <= 'f' {
        c as u32 - 'a' as u32 + 10
    } else if 'A' <= c && c <= 'F' {
        c as u32 - 'A' as u32 + 10
    } else {
        0
    }
}

/// The value of a big-endian hexadecimal digit string.
pub open spec fn hex_value(s: Seq<char>) -> int
    decreases s.len(),
{
    if s.len() == 0 {
        0
    } else {
        hex_value(s.drop_last()) * 16 + hex_digit_val(s.last())
    }
}

/// Whether `v` is a Unicode scalar value: any code point except the
/// surrogates.
pub open spec fn is_scalar_value(v: int) -> bool {
    (0 <= v && v < 0xD800) || (0xE000 <= v && v <= 0x10FFFF)
}

/// The character with scalar value `v` (meaningful when
/// `is_scalar_value(v)` holds).
pub open spec fn char_of(v: int) -> char {
    choose|c: char| (#[trigger] (c as u32)) as int == v
}

/// `hex_value` clamped just above the greatest scalar value; the clamp
/// keeps the running value of an overlong escape in machine range while
/// preserving whether it is a valid scalar.
pub open spec fn clamp_scalar(v: int) -> int {
    if v > 0x10FFFF {
        0x110000
    } else {
        v
    }
}

/// The fixed single-character escape mappings: the escaped delimiters
/// and space, and the control mnemonics (bell, backspace, form feed,
/// newline, carriage return, horizontal tab, vertical tab).
pub open spec fn simple_escape(c: char) -> Option<char> {
    if c == '\\' {
        Some('\\')
    } else if c == '\'' {
        Some('\'')
    } else if c == '"' {
        Some('"')
    } else if c == ' ' {
        Some(' ')
    } else if c == 'a' {
        Some('\x07')
    } else if c == 'b' {
        Some('\x08')
    } else if c == 'f' {
        Some('\x0c')
    } else if c == 'n' {
        Some('\n')
    } else if c == 'r' {
        Some('\r')
    } else if c == 't' {
        Some('\t')
    } else if c == 'v' {
        Some('\x0b')
    } else {
        None
    }
}

/// A decoded escape: the character value, how many characters after the
/// backslash were consumed, and the position after them.
pub ghost struct EscOk {
    pub value: char,
    pub used: int,
    pub pos: Position,
}

/// The result of the name-to-scalar lookup for a braced named escape.
/// The lookup is a fixed table: the result depends on the name alone.
pub uninterp spec fn name_to_char(name: Seq<char>) -> Option<char>;

/// The hex escape `\xHH`, after the `x` was consumed: up to two
/// hexadecimal digits (fewer are tolerated and yield a partial code
/// point, so a value of at most 0xFF, always a valid scalar).
pub open spec fn scan_hex_escape(s: Seq<char>, p: Position) -> EscOk {
    let d: int = if s.len() >= 1 && is_hex_digit(s[0]) {
        if s.len() >= 2 && is_hex_digit(s[1]) {
            2
        } else {
            1
        }
    } else {
        0
    };
    let text = s.take(d);
    EscOk { value: char_of(hex_value(text)), used: d, pos: pos_steps(p, text) }
}

/// The braced numeric escape `\u{H...}`, after the `u` was consumed:
/// hex digits up to a closing `}`.  Failures: `UnterminatedEscape` when
/// the input ends before `}`, `InvalidEscape` when `{` is missing or a
/// non-hex character appears inside the braces, `InvalidHexEscape` when
/// the digits do not denote a Unicode scalar value.
pub open spec fn scan_braced_hex(s: Seq<char>, p: Position) -> Result<EscOk, LexError> {
    if s.len() == 0 {
        Err(LexError::UnterminatedEscape(p))
    } else if s[0] != '{' {
        Err(LexError::InvalidEscape(p))
    } else {
        let body = s.skip(1);
        let p1 = pos_step(p, '{');
        let d = hex_run(body);
        let pd = pos_steps(p1, body.take(d));
        if d == body.len() {
            Err(LexError::UnterminatedEscape(pd))
        } else if body[d] == '}' {
            let v = hex_value(body.take(d));
            let p2 = pos_step(pd, '}');
            if is_scalar_value(v) {
                Ok(EscOk { value: char_of(v), used: 2 + d, pos: p2 })
            } else {
                Err(LexError::InvalidHexEscape(p2))
            }
        } else {
            Err(LexError::InvalidEscape(pd))
        }
    }
}

/// The braced named escape `\U{NAME}`, after the `U` was consumed:
/// characters up to a closing `}` form a Unicode character name, which
/// is resolved through the name lookup.  Failures: `UnterminatedEscape`
/// when the input ends before `}`, `InvalidEscape` when `{` is missing,
/// when the name begins with a hyphen (no Unicode character name does),
/// or when the name is unknown.
pub open spec fn scan_braced_name(s: Seq<char>, p: Position) -> Result<EscOk, LexError> {
    if s.len() == 0 {
        Err(LexError::UnterminatedEscape(p))
    } else if s[0] != '{' {
        Err(LexError::InvalidEscape(p))
    } else {
        let body = s.skip(1);
        let p1 = pos_step(p, '{');
        let d = name_run(body);
        let pd = pos_steps(p1, body.take(d));
        if d == body.len() {
            Err(LexError::UnterminatedEscape(pd))
        } else {
            let p2 = pos_step(pd, '}');
            let name = body.take(d);
            if name.len() > 0 && name[0] == '-' {
                Err(LexError::InvalidEscape(p2))
            } else {
                match name_to_char(name) {
                    Some(c) => Ok(EscOk { value: c, used: 2 + d, pos: p2 }),
                    None => Err(LexError::InvalidEscape(p2)),
                }
            }
        }
    }
}

/// One whole escape sequence: `s` is the input just after the
/// backslash, `p` the position there.  End of input directly after the
/// backslash is `UnterminatedEscape`; a character with no escape
/// meaning is `InvalidEscape` at its own position.
pub open spec fn scan_escape(s: Seq<char>, p: Position) -> Result<EscOk, LexError> {
    if s.len() == 0 {
        Err(LexError::UnterminatedEscape(p))
    } else {
        let c = s[0];
        let p1 = pos_step(p, c);
        match simple_escape(c) {
            Some(v) => Ok(EscOk { value: v, used: 1, pos: p1 }),
            None => {
                if c == 'x' {
                    let e = scan_hex_escape(s.skip(1), p1);
                    Ok(EscOk { value: e.value, used: 1 + e.used, pos: e.pos })
                } else if c == 'u' {
                    match scan_braced_hex(s.skip(1), p1) {
                        Ok(e) => Ok(EscOk { value: e.value, used: 1 + e.used, pos: e.pos }),
                        Err(er) => Err(er),
                    }
                } else if c == 'U' {
                    match scan_braced_name(s.skip(1), p1) {
                        Ok(e) => Ok(EscOk { value: e.value, used: 1 + e.used, pos: e.pos }),
                        Err(er) => Err(er),
                    }
                } else {
                    Err(LexError::InvalidEscape(p))
                }
            },
        }
    }
}

/// A decoded escape consumes at least the character after the backslash
/// and no more than the rest of the input.
pub proof fn lemma_scan_escape_used(s: Seq<char>, p: Position)
    ensures
        match scan_escape(s, p) {
            Ok(e) => 1 <= e.used <= s.len(),
            Err(_) => true,
        },
{
    if s.len() > 0 {
        let c = s[0];
        if simple_escape(c) is None {
            if c == 'u' {
                let sb = s.skip(1);
                if sb.len() > 0 && sb[0] == '{' {
                    lemma_hex_run(sb.skip(1));
                }
            } else if c == 'U' {
                let sb = s.skip(1);
                if sb.len() > 0 && sb[0] == '{' {
                    lemma_name_run(sb.skip(1));
                }
            }
        }
    }
}


/// A character is recovered from its own scalar value: `char_of` agrees
/// with any witness.
pub proof fn lemma_char_of_witness(ch: char, v: u32)
    requires
        ch as u32 == v,
    ensures
        char_of(v as int) == ch,
{
    assert(exists|c: char| (#[trigger] (c as u32)) as int == v as int);
    assert(char_of(v as int) as u32 == v as int);
}

/// On success, the braced part of an escape consumes its opening brace,
/// its body and its closing brace, and no more than the input.
pub proof fn lemma_braced_used(s: Seq<char>, p: Position)
    ensures
        match scan_braced_hex(s, p) {
            Ok(e) => 2 <= e.used <= s.len(),
            Err(_) => true,
        },
        match scan_braced_name(s, p) {
            Ok(e) => 2 <= e.used <= s.len(),
            Err(_) => true,
        },
{
    if s.len() > 0 && s[0] == '{' {
        lemma_hex_run(s.skip(1));
        lemma_name_run(s.skip(1));
    }
}

/// Relies on `char::from_u32`: `Some` exactly when the value is a
/// Unicode scalar value (not a surrogate and at most 0x10FFFF), and the
/// returned character has that value.
#[verifier::external_body]
fn char_from_u32(v: u32) -> (r: Option<char>)
    ensures
        r is Some <==> is_scalar_value(v as int),
        r matches Some(c) ==> c as u32 == v,
{
    char::from_u32(v)
}

/// Relies on `unicode_names2::character`: finds the character with the
/// given Unicode name (with loose matching), or `None` if there is no
/// such character.  The lookup reads fixed tables, so the result is a
/// function of the name alone.  A name beginning with a hyphen is
/// excluded: on one, the lookup's name normalisation underflows an
/// index, which panics in builds with overflow checks (no Unicode
/// character name begins with a hyphen).
#[verifier::external_body]
fn lookup_character_name(name: &str) -> (r: Option<char>)
    requires
        name@.len() == 0 || name@[0] != '-',
    ensures
        r == name_to_char(name@),
{
    unicode_names2::character(name)
}

/// Relies on `String::push`: appends the given character to the end of
/// the string.
#[verifier::external_body]
fn push_char(s: &mut String, c: char)
    ensures
        final(s)@ == old(s)@.push(c),
{
    s.push(c);
}

/// Builds the string holding exactly the given characters.
#[verifier::loop_isolation(false)]
pub fn chars_to_string(v: &Vec<char>) -> (s: String)
    ensures
        s@ == v@,
{
    let mut s = String::new();
    let mut i: usize = 0;
    while i < v.len()
        invariant
            0 <= i <= v@.len(),
            s@ == v@.take(i as int),
        decreases v@.len() - i,
    {
        push_char(&mut s, v[i]);
        i = i + 1;
        proof {
            assert(v@.take(i - 1).push(v@[i - 1]) =~= v@.take(i as int));
        }
    }
    proof {
        assert(v@.take(v@.len() as int) =~= v@);
    }
    s
}

/// Whether `c` is a hexadecimal digit.
fn hex_digit(c: char) -> (r: bool)
    ensures
        r == is_hex_digit(c),
{
    ('0' <= c && c <= '9') || ('a' <= c && c <= 'f') || ('A' <= c && c <= 'F')
}

/// The numeric value of a hexadecimal digit.
fn hex_val(c: char) -> (r: u32)
    requires
        is_hex_digit(c),
    ensures
        r == hex_digit_val(c),
        r <= 15,
{
    if '0' <= c && c <= '9' {
        c as u32 - '0' as u32
    } else if 'a' <= c && c <= 'f' {
        c as u32 - 'a' as u32 + 10
    } else {
        c as u32 - 'A' as u32 + 10
    }
}

/// Decode one escape sequence.  The cursor stands just after the
/// consumed backslash, at the start of its live sequence; `p` is the
/// source position there.  On success the decoded character and the
/// position after the escape are returned and exactly the escape's
/// characters are consumed; on failure the error of `scan_escape` is
/// returned and the cursor is left mid-escape.
pub(crate) fn decode_escape(input: &mut PeekBuffer<char>, p: Position) -> (r: Result<
    (char, Position),
    LexError,
>)
    requires
        old(input).wf(),
        old(input)@.index == 0,
    ensures
        final(input).wf(),
        final(input)@.index == 0,
        match scan_escape(old(input)@.data, p) {
            Ok(e) => r matches Ok(v) && v.0 == e.value && v.1 == e.pos && final(input)@.data
                == old(input)@.data.skip(e.used),
            Err(er) => r == Err::<(char, Position), LexError>(er),
        },
{
    let ghost s = input@.data;
    let c = match input.eat() {
        Some(c) => c,
        None => {
            return Err(LexError::UnterminatedEscape(p));
        },
    };
    proof {
        assert(input@.data =~= s.skip(1));
    }
    let p1 = p.stepped(c);
    let simple: Option<char> = if c == '\\' {
        Some('\\')
    } else if c == '\'' {
        Some('\'')
    } else if c == '"' {
        Some('"')
    } else if c == ' ' {
        Some(' ')
    } else if c == 'a' {
        Some('\x07')
    } else if c == 'b' {
        Some('\x08')
    } else if c == 'f' {
        Some('\x0c')
    } else if c == 'n' {
        Some('\n')
    } else if c == 'r' {
        Some('\r')
    } else if c == 't' {
        Some('\t')
    } else if c == 'v' {
        Some('\x0b')
    } else {
        None
    };
    proof {
        assert(simple == simple_escape(c));
    }
    if let Some(v) = simple {
        return Ok((v, p1));
    }
    if c == 'x' {
        let (v, used, pe) = decode_two_hex_digits(input, p1);
        let ghost e = scan_hex_escape(s.skip(1), p1);
        match char_from_u32(v) {
            Some(ch) => {
                proof {
                    lemma_char_of_witness(ch, v);
                    assert(ch == e.value && pe == e.pos);
                    assert(input@.data =~= s.skip(1 + e.used));
                }
                Ok((ch, pe))
            },
            None => {
                proof {
                    assert(false);
                }
                Err(LexError::InvalidHexEscape(pe))
            },
        }
    } else if c == 'u' {
        let r = decode_braced_hex(input, p1);
        proof {
            lemma_braced_used(s.skip(1), p1);
            match scan_braced_hex(s.skip(1), p1) {
                Ok(e) => {
                    assert(input@.data =~= s.skip(1 + e.used));
                },
                Err(_) => {},
            }
        }
        r
    } else if c == 'U' {
        let r = decode_braced_name(input, p1);
        proof {
            lemma_braced_used(s.skip(1), p1);
            match scan_braced_name(s.skip(1), p1) {
                Ok(e) => {
                    assert(input@.data =~= s.skip(1 + e.used));
                },
                Err(_) => {},
            }
        }
        r
    } else {
        Err(LexError::InvalidEscape(p))
    }
}

/// Consume up to two hexadecimal digits and return their value, how the
/// position advanced, and leave the cursor after them, as
/// `scan_hex_escape` prescribes.
fn decode_two_hex_digits(input: &mut PeekBuffer<char>, p: Position) -> (r: (u32, usize, Position))
    requires
        old(input).wf(),
        old(input)@.index == 0,
    ensures
        final(input).wf(),
        final(input)@.index == 0,
        ({
            let e = scan_hex_escape(old(input)@.data, p);
            &&& r.0 as int == hex_value(old(input)@.data.take(e.used))
            &&& r.0 <= 255
            &&& is_scalar_value(r.0 as int)
            &&& r.1 == e.used
            &&& r.2 == e.pos
            &&& final(input)@.data == old(input)@.data.skip(e.used)
        }),
{
    let ghost s = input@.data;
    let mut v: u32 = 0;
    let mut used: usize = 0;
    let mut pe = p;
    proof {
        assert(s.take(0) =~= Seq::<char>::empty());
    }
    let first = input.peek();
    let mut more = false;
    if let Some(c0) = first {
        if hex_digit(c0) {
            let _ = input.eat();
            v = hex_val(c0);
            used = 1;
            pe = pe.stepped(c0);
            more = true;
            proof {
                assert(s.take(1).drop_last() =~= Seq::<char>::empty());
                assert(s.take(1).last() == c0);
                lemma_pos_steps_one(p, c0);
                assert(s.take(1) =~= seq![c0]);
                assert(input@.data =~= s.skip(1));
            }
        }
    }
    if more {
        let second = input.peek();
        proof {
            if s.len() >= 2 {
                assert(s.skip(1)[0] == s[1]);
            }
        }
        if let Some(c1) = second {
            if hex_digit(c1) {
                let _ = input.eat();
                v = v * 16 + hex_val(c1);
                used = 2;
                pe = pe.stepped(c1);
                proof {
                    assert(s.take(2).drop_last() =~= s.take(1));
                    assert(s.take(2).last() == c1);
                    lemma_pos_steps_snoc(p, s, 1);
                    assert(pos_steps(p, s.take(2)) == pos_step(pos_steps(p, s.take(1)), c1));
                    assert(input@.data =~= s.skip(1).skip(1));
                    assert(s.skip(1).skip(1) =~= s.skip(2));
                }
            }
        }
    }
    proof {
        reveal_with_fuel(hex_value, 4);
        let e = scan_hex_escape(s, p);
        assert(v as int == hex_value(s.take(e.used)));
        assert(is_scalar_value(v as int));
    }
    (v, used, pe)
}

/// Decode the braced part of `\u{H...}`, as `scan_braced_hex`
/// prescribes; the cursor stands just after the `u`.
#[verifier::loop_isolation(false)]
fn decode_braced_hex(input: &mut PeekBuffer<char>, p: Position) -> (r: Result<
    (char, Position),
    LexError,
>)
    requires
        old(input).wf(),
        old(input)@.index == 0,
    ensures
        final(input).wf(),
        final(input)@.index == 0,
        match scan_braced_hex(old(input)@.data, p) {
            Ok(e) => r matches Ok(v) && v.0 == e.value && v.1 == e.pos && final(input)@.data
                == old(input)@.data.skip(e.used),
            Err(er) => r == Err::<(char, Position), LexError>(er),
        },
{
    let ghost s = input@.data;
    match input.eat() {
        Some(c) => {
            if c != '{' {
                return Err(LexError::InvalidEscape(p));
            }
        },
        None => {
            return Err(LexError::UnterminatedEscape(p));
        },
    }
    let ghost body = s.skip(1);
    proof {
        assert(input@.data =~= body);
        lemma_hex_run(body);
    }
    let ghost d = hex_run(body);
    let mut pcur = p.stepped('{');
    let ghost p1 = pcur;
    let mut v: u32 = 0;
    let ghost mut i: int = 0;
    proof {
        assert(body.take(0) =~= Seq::<char>::empty());
    }
    loop
        invariant
            input.wf(),
            input@.index == 0,
            0 <= i <= d <= body.len(),
            input@.data == body.skip(i),
            v as int == clamp_scalar(hex_value(body.take(i))),
            v <= 0x110000,
            pcur == pos_steps(p1, body.take(i)),
            forall|j: int| 0 <= j < i ==> is_hex_digit(#[trigger] body[j]),
            d == hex_run(body),
            d < body.len() ==> !is_hex_digit(body[d]),
        decreases body.len() - i,
    {
        let c = match input.peek() {
            Some(c) => c,
            None => {
                proof {
                    lemma_hex_run_exact(body, i);
                }
                return Err(LexError::UnterminatedEscape(pcur));
            },
        };
        proof {
            assert(c == body[i]);
        }
        if !hex_digit(c) {
            proof {
                lemma_hex_run_exact(body, i);
            }
            if c == '}' {
                let _ = input.eat();
                let p2 = pcur.stepped('}');
                proof {
                    assert(input@.data =~= body.skip(i + 1));
                    assert(body.skip(i + 1) =~= s.skip(2 + i));
                }
                let valid = v < 0xD800 || (0xE000 <= v && v <= 0x10FFFF);
                proof {
                    assert(valid == is_scalar_value(hex_value(body.take(i))));
                }
                if valid {
                    match char_from_u32(v) {
                        Some(ch) => {
                            proof {
                                lemma_char_of_witness(ch, v);
                                assert(ch == char_of(hex_value(body.take(i))));
                            }
                            return Ok((ch, p2));
                        },
                        None => {
                            proof {
                                assert(false);
                            }
                            return Err(LexError::InvalidHexEscape(p2));
                        },
                    }
                } else {
                    return Err(LexError::InvalidHexEscape(p2));
                }
            } else {
                return Err(LexError::InvalidEscape(pcur));
            }
        }
        let _ = input.eat();
        let ghost hv = hex_value(body.take(i));
        let dv = hex_val(c);
        if v > 0x10FFFF {
            v = 0x110000;
        } else {
            v = v * 16 + dv;
            if v > 0x10FFFF {
                v = 0x110000;
            }
        }
        pcur = pcur.stepped(c);
        proof {
            i = i + 1;
            assert(input@.data =~= body.skip(i));
            assert(body.take(i).drop_last() =~= body.take(i - 1));
            assert(body.take(i).last() == c);
            assert(hex_value(body.take(i)) == hv * 16 + hex_digit_val(c));
            lemma_pos_steps_snoc(p1, body, i - 1);
            assert(i <= d) by {
                if i > d {
                    assert(is_hex_digit(body[d]));
                }
            }
        }
    }
}

/// Decode the braced part of `\U{NAME}`, as `scan_braced_name`
/// prescribes; the cursor stands just after the `U`.
#[verifier::loop_isolation(false)]
fn decode_braced_name(input: &mut PeekBuffer<char>, p: Position) -> (r: Result<
    (char, Position),
    LexError,
>)
    requires
        old(input).wf(),
        old(input)@.index == 0,
    ensures
        final(input).wf(),
        final(input)@.index == 0,
        match scan_braced_name(old(input)@.data, p) {
            Ok(e) => r matches Ok(v) && v.0 == e.value && v.1 == e.pos && final(input)@.data
                == old(input)@.data.skip(e.used),
            Err(er) => r == Err::<(char, Position), LexError>(er),
        },
{
    let ghost s = input@.data;
    match input.eat() {
        Some(c) => {
            if c != '{' {
                return Err(LexError::InvalidEscape(p));
            }
        },
        None => {
            return Err(LexError::UnterminatedEscape(p));
        },
    }
    let ghost body = s.skip(1);
    proof {
        assert(input@.data =~= body);
        lemma_name_run(body);
    }
    let ghost d = name_run(body);
    let mut pcur = p.stepped('{');
    let ghost p1 = pcur;
    let mut name: Vec<char> = Vec::new();
    let ghost mut i: int = 0;
    proof {
        assert(body.take(0) =~= Seq::<char>::empty());
    }
    loop
        invariant
            input.wf(),
            input@.index == 0,
            0 <= i <= d <= body.len(),
            input@.data == body.skip(i),
            name@ == body.take(i),
            pcur == pos_steps(p1, body.take(i)),
            forall|j: int| 0 <= j < i ==> #[trigger] body[j] != '}',
            d == name_run(body),
            d < body.len() ==> body[d] == '}',
        decreases body.len() - i,
    {
        let c = match input.peek() {
            Some(c) => c,
            None => {
                proof {
                    lemma_name_run_exact(body, i);
                }
                return Err(LexError::UnterminatedEscape(pcur));
            },
        };
        proof {
            assert(c == body[i]);
        }
        if c == '}' {
            proof {
                lemma_name_run_exact(body, i);
            }
            let _ = input.eat();
            let p2 = pcur.stepped('}');
            proof {
                assert(input@.data =~= body.skip(i + 1));
                assert(body.skip(i + 1) =~= s.skip(2 + i));
            }
            if name.len() > 0 && name[0] == '-' {
                return Err(LexError::InvalidEscape(p2));
            }
            let text = chars_to_string(&name);
            return match lookup_character_name(text.as_str()) {
                Some(ch) => Ok((ch, p2)),
                None => Err(LexError::InvalidEscape(p2)),
            };
        }
        let _ = input.eat();
        name.push(c);
        pcur = pcur.stepped(c);
        proof {
            i = i + 1;
            assert(input@.data =~= body.skip(i));
            assert(name@ =~= body.take(i));
            lemma_pos_steps_snoc(p1, body, i - 1);
            assert(i <= d) by {
                if i > d {
                    assert(body[d] != '}');
                }
            }
        }
    }
}

} // verus!
