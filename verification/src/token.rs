//! The token model: classified lexical units, their metadata, the
//! position-tagged spans the lexer emits, and the lexing errors.
//!
//! Exec tokens carry `String` and `Vec` payloads; their ghost
//! counterparts (`TokenView`, `SpanView`) carry `Seq<char>` and
//! `Seq<SpanView>`, and every contract in this crate speaks of tokens
//! through those views.

use vstd::prelude::*;

use crate::position::Position;

verus! {

/// Metadata of a number token, derived from the literal's raw text, not
/// from the parsed value: `digit_count` is the length of the raw text,
/// `fractional_digits` the number of characters between the first `.`
/// and the following `.` or the end of the text.
#[derive(Clone, Copy, Debug, Default, PartialEq, Eq, Structural)]
pub struct NumberMeta {
    pub is_float: bool,
    pub digit_count: usize,
    pub fractional_digits: usize,
}

/// Metadata of a word token.  A word is a mnemonic iff its text is in
/// the instruction-name set; it is an attribute iff it is no mnemonic
/// and its text begins with `.`.
#[derive(Clone, Copy, Debug, Default, PartialEq, Eq, Structural)]
pub struct WordMeta {
    pub is_mnemonic: bool,
    pub is_attribute: bool,
}

/// One classified unit of lexical input.
///
/// `End` is the end-of-stream sentinel, `EndBlock` the end-of-block
/// sentinel emitted after a directive.  A `Number` holds the literal's
/// raw text (the numeric value is the text parsed as a floating-point
/// number, which the caller may recompute; keeping the text preserves
/// the original precision).  A `List` holds the re-tokenized operands
/// of a directive.
#[derive(Debug, PartialEq)]
pub enum Token {
    End,
    EndBlock,
    Hashtag,
    Colon,
    Comma,
    LeftParen,
    RightParen,
    LeftBracket,
    RightBracket,
    Character(char),
    String(String),
    Number(String, NumberMeta),
    Word(String, WordMeta),
    List(Vec<TokenSpan>),
}

/// A token paired with the source positions of its first and last
/// character.  Zero-width tokens (punctuation, sentinels) have
/// `start == end`.
#[derive(Debug, PartialEq)]
pub struct TokenSpan(pub Token, pub Position, pub Position);

/// The ghost counterpart of `Token`.
pub ghost enum TokenView {
    End,
    EndBlock,
    Hashtag,
    Colon,
    Comma,
    LeftParen,
    RightParen,
    LeftBracket,
    RightBracket,
    Character(char),
    String(Seq<char>),
    Number(Seq<char>, NumberMeta),
    Word(Seq<char>, WordMeta),
    List(Seq<SpanView>),
}

/// The ghost counterpart of `TokenSpan`.
pub ghost struct SpanView {
    pub token: TokenView,
    pub start: Position,
    pub end: Position,
}

/// The view of one token.
pub open spec fn token_view(t: Token) -> TokenView
    decreases t,
{
    match t {
        Token::End => TokenView::End,
        Token::EndBlock => TokenView::EndBlock,
        Token::Hashtag => TokenView::Hashtag,
        Token::Colon => TokenView::Colon,
        Token::Comma => TokenView::Comma,
        Token::LeftParen => TokenView::LeftParen,
        Token::RightParen => TokenView::RightParen,
        Token::LeftBracket => TokenView::LeftBracket,
        Token::RightBracket => TokenView::RightBracket,
        Token::Character(c) => TokenView::Character(c),
        Token::String(s) => TokenView::String(s@),
        Token::Number(s, m) => TokenView::Number(s@, m),
        Token::Word(s, m) => TokenView::Word(s@, m),
        Token::List(v) => TokenView::List(spans_view(v@)),
    }
}

/// The view of one token span.
pub open spec fn span_view(ts: TokenSpan) -> SpanView
    decreases ts,
{
    SpanView { token: token_view(ts.0), start: ts.1, end: ts.2 }
}

/// The views of a sequence of token spans, element by element.
pub open spec fn spans_view(v: Seq<TokenSpan>) -> Seq<SpanView>
    decreases v,
{
    if v.len() == 0 {
        Seq::empty()
    } else {
        seq![span_view(v[0])] + spans_view(v.skip(1))
    }
}

impl View for Token {
    type V = TokenView;

    open spec fn view(&self) -> TokenView {
        token_view(*self)
    }
}

impl View for TokenSpan {
    type V = SpanView;

    open spec fn view(&self) -> SpanView {
        span_view(*self)
    }
}

/// `spans_view` is the element-wise view map.
pub proof fn lemma_spans_view_len(v: Seq<TokenSpan>)
    ensures
        spans_view(v).len() == v.len(),
        forall|i: int| 0 <= i < v.len() ==> spans_view(v)[i] == #[trigger] v[i]@,
    decreases v.len(),
{
    if v.len() > 0 {
        lemma_spans_view_len(v.skip(1));
        assert forall|i: int| 0 <= i < v.len() implies spans_view(v)[i] == #[trigger] v[i]@ by {
            if i > 0 {
                assert(v.skip(1)[i - 1] == v[i]);
            }
        }
    }
}

/// `spans_view` distributes over concatenation.
pub proof fn lemma_spans_view_app(a: Seq<TokenSpan>, b: Seq<TokenSpan>)
    ensures
        spans_view(a + b) == spans_view(a) + spans_view(b),
    decreases a.len(),
{
    if a.len() == 0 {
        assert(a + b =~= b);
        assert(spans_view(a) + spans_view(b) =~= spans_view(b));
    } else {
        assert((a + b)[0] == a[0]);
        assert((a + b).skip(1) =~= a.skip(1) + b);
        lemma_spans_view_app(a.skip(1), b);
        assert(seq![(a + b)[0]@] + (spans_view(a.skip(1)) + spans_view(b)) =~= (seq![a[0]@]
            + spans_view(a.skip(1))) + spans_view(b));
    }
}

/// A lexing failure.  Every variant carries the position at which the
/// failure was detected; scanning stops there and the error is returned
/// to the caller.
#[derive(Clone, Copy, Debug, PartialEq, Eq, Structural)]
pub enum LexError {
    UnterminatedStringLiteral(Position),
    UnterminatedCharacterLiteral(Position),
    InvalidCharacterLiteral(Position),
    UnterminatedEscape(Position),
    InvalidEscape(Position),
    InvalidHexEscape(Position),
    InvalidNumberLiteral(Position),
}

} // verus!
