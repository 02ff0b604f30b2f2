//! The token data model and the lexer itself.
//!
//! A token never copies source text: where it carries a payload, the payload
//! is a [`Span`], a half-open range of byte offsets into the source buffer
//! handed to [`tokenize`].

use vstd::prelude::*;

use crate::scan::{
    digit_run_end, identifier_run_end, is_digit_byte, is_identifier_continue_byte, is_letter_byte,
    is_whitespace_byte, keyword_of, lemma_trace_step, spec_tokens, spec_warnings, spells_int,
    spells_return, step_consumed, step_end, tokens_of, trace_from, warnings_of, whitespace_run_end,
    Consumed,
};

verus! {

/// A half-open range `[start, end)` of byte offsets into a source buffer.
#[derive(Debug, Hash, Clone, Copy, PartialEq, Eq, Structural)]
pub struct Span {
    pub start: usize,
    pub end: usize,
}

impl Span {
    /// The span lies within a buffer of length `n` and is well ordered.
    pub open spec fn wf(self, n: nat) -> bool {
        self.start <= self.end && self.end <= n
    }
}

/// The base of an integer literal. Only `Decimal` is ever produced; the
/// other bases are reserved for future rules and match nothing today.
#[derive(Debug, Hash, Clone, Copy, PartialEq, Eq, Structural)]
pub enum IntegerKind {
    Decimal,
    Hexadecimal,
    Binary,
}

/// An integer literal: the span of its digits and its base.
#[derive(Debug, Hash, Clone, Copy, PartialEq, Eq, Structural)]
pub struct Integer {
    pub span: Span,
    pub kind: IntegerKind,
}

/// A literal. Integers are the only literal class recognized today.
#[derive(Debug, Hash, Clone, Copy, PartialEq, Eq, Structural)]
pub enum Literal {
    Integer(Integer),
}

/// A reserved keyword.
#[derive(Debug, Hash, Clone, Copy, PartialEq, Eq, Structural)]
pub enum Keyword {
    Int,
    Return,
}

/// Which side of a paired punctuator.
#[derive(Debug, Hash, Clone, Copy, PartialEq, Eq, Structural)]
pub enum PairSide {
    Opening,
    Closing,
}

/// A paired punctuator. `Brackets` is reserved: no rule produces it.
#[derive(Debug, Hash, Clone, Copy, PartialEq, Eq, Structural)]
pub enum Pair {
    Parentheses(PairSide),
    Brackets(PairSide),
    Braces(PairSide),
}

/// An identifier: the span of a maximal letter-initial run of letters,
/// digits and underscores that does not spell a keyword.
#[derive(Debug, Hash, Clone, Copy, PartialEq, Eq, Structural)]
pub struct Identifier(pub Span);

/// One classified token.
#[derive(Debug, Hash, Clone, Copy, PartialEq, Eq, Structural)]
pub enum Token {
    Keyword(Keyword),
    Literal(Literal),
    Pair(Pair),
    Identifier(Identifier),
    Semicolon,
}

impl Token {
    /// Every span the token carries lies within a buffer of length `n`.
    pub open spec fn wf(self, n: nat) -> bool {
        match self {
            Token::Literal(Literal::Integer(i)) => i.span.wf(n),
            Token::Identifier(id) => id.0.wf(n),
            _ => true,
        }
    }
}

/// The ordered result of one lexing pass; order of appearance in the source.
pub type TokenStream = Vec<Token>;

/// The one diagnostic the lexer raises: the byte at `position` started no
/// token and was skipped.
#[derive(Debug, Hash, Clone, Copy, PartialEq, Eq, Structural)]
pub struct UnrecognizedUnit {
    pub position: usize,
    pub unit: u8,
}

/// The bytes that the span `sp` denotes in `s`.
pub open spec fn span_bytes(s: Seq<u8>, sp: Span) -> Seq<u8> {
    s.subrange(sp.start as int, sp.end as int)
}

/// Copy the bytes a span denotes out of the source buffer.
pub fn read_span(source: &Vec<u8>, span: Span) -> (r: Vec<u8>)
    requires
        span.wf(source@.len()),
    ensures
        r@ == span_bytes(source@, span),
{
    let mut r: Vec<u8> = Vec::new();
    let mut k = span.start;
    while k < span.end
        invariant
            span.start <= k <= span.end <= source.len(),
            r@ == source@.subrange(span.start as int, k as int),
        decreases span.end - k,
    {
        r.push(source[k]);
        proof {
            assert(source@.subrange(span.start as int, k as int + 1) =~= source@.subrange(
                span.start as int,
                k as int,
            ).push(source@[k as int]));
        }
        k = k + 1;
    }
    r
}

impl Keyword {
    /// The canonical spelling of the keyword.
    pub open spec fn spec_render(self) -> Seq<u8> {
        match self {
            Keyword::Int => seq![105u8, 110u8, 116u8],
            Keyword::Return => seq![114u8, 101u8, 116u8, 117u8, 114u8, 110u8],
        }
    }

    /// Render the keyword as its literal spelling.
    pub fn render(&self) -> (r: Vec<u8>)
        ensures
            r@ == self.spec_render(),
    {
        match self {
            Keyword::Int => {
                let r = vec![105u8, 110u8, 116u8];
                proof {
                    assert(r@ =~= self.spec_render());
                }
                r
            },
            Keyword::Return => {
                let r = vec![114u8, 101u8, 116u8, 117u8, 114u8, 110u8];
                proof {
                    assert(r@ =~= self.spec_render());
                }
                r
            },
        }
    }
}

impl Pair {
    /// The single punctuation character of the pair.
    pub open spec fn spec_render(self) -> Seq<u8> {
        match self {
            Pair::Parentheses(PairSide::Opening) => seq![40u8],
            Pair::Parentheses(PairSide::Closing) => seq![41u8],
            Pair::Brackets(PairSide::Opening) => seq![91u8],
            Pair::Brackets(PairSide::Closing) => seq![93u8],
            Pair::Braces(PairSide::Opening) => seq![123u8],
            Pair::Braces(PairSide::Closing) => seq![125u8],
        }
    }

    /// Render the pair as its single punctuation character.
    pub fn render(&self) -> (r: Vec<u8>)
        ensures
            r@ == self.spec_render(),
    {
        let b: u8 = match self {
            Pair::Parentheses(PairSide::Opening) => 40,
            Pair::Parentheses(PairSide::Closing) => 41,
            Pair::Brackets(PairSide::Opening) => 91,
            Pair::Brackets(PairSide::Closing) => 93,
            Pair::Braces(PairSide::Opening) => 123,
            Pair::Braces(PairSide::Closing) => 125,
        };
        let r = vec![b];
        proof {
            assert(r@ =~= self.spec_render());
        }
        r
    }
}

impl Integer {
    /// The exact matched digits of the literal.
    pub open spec fn spec_render(self, s: Seq<u8>) -> Seq<u8> {
        span_bytes(s, self.span)
    }

    /// Render the literal as its exact matched span of `source`.
    pub fn render(&self, source: &Vec<u8>) -> (r: Vec<u8>)
        requires
            self.span.wf(source@.len()),
        ensures
            r@ == self.spec_render(source@),
    {
        read_span(source, self.span)
    }
}

impl Literal {
    /// The exact matched text of the literal.
    pub open spec fn spec_render(self, s: Seq<u8>) -> Seq<u8> {
        match self {
            Literal::Integer(i) => i.spec_render(s),
        }
    }

    /// Render the literal as its exact matched span of `source`.
    pub fn render(&self, source: &Vec<u8>) -> (r: Vec<u8>)
        requires
            (match *self {
                Literal::Integer(i) => i.span.wf(source@.len()),
            }),
        ensures
            r@ == self.spec_render(source@),
    {
        match self {
            Literal::Integer(i) => i.render(source),
        }
    }
}

impl Identifier {
    /// The exact matched spelling of the identifier.
    pub open spec fn spec_render(self, s: Seq<u8>) -> Seq<u8> {
        span_bytes(s, self.0)
    }

    /// Render the identifier as its exact matched span of `source`.
    pub fn render(&self, source: &Vec<u8>) -> (r: Vec<u8>)
        requires
            self.0.wf(source@.len()),
        ensures
            r@ == self.spec_render(source@),
    {
        read_span(source, self.0)
    }
}

impl Token {
    /// The canonical textual form of the token: keywords as their spelling,
    /// pairs and semicolons as their punctuation character, identifiers and
    /// integer literals as their exact matched span of `s`.
    pub open spec fn spec_render(self, s: Seq<u8>) -> Seq<u8> {
        match self {
            Token::Keyword(k) => k.spec_render(),
            Token::Literal(l) => l.spec_render(s),
            Token::Pair(p) => p.spec_render(),
            Token::Identifier(id) => id.spec_render(s),
            Token::Semicolon => seq![59u8],
        }
    }

    /// Render the token in its canonical textual form.
    pub fn render(&self, source: &Vec<u8>) -> (r: Vec<u8>)
        requires
            self.wf(source@.len()),
        ensures
            r@ == self.spec_render(source@),
    {
        match self {
            Token::Keyword(k) => k.render(),
            Token::Literal(l) => l.render(source),
            Token::Pair(p) => p.render(),
            Token::Identifier(id) => id.render(source),
            Token::Semicolon => {
                let r = vec![59u8];
                proof {
                    assert(r@ =~= seq![59u8]);
                }
                r
            },
        }
    }
}

/// Lex `source` and render every token of the stream in order.
pub fn tokenize_rendered(source: &Vec<u8>) -> (r: Vec<Vec<u8>>)
    ensures
        r@.len() == spec_tokens(source@).len(),
        forall|k: int|
            0 <= k < r@.len() ==> r@[k]@ == spec_tokens(source@)[k].spec_render(source@),
{
    let stream = tokenize(source);
    let mut r: Vec<Vec<u8>> = Vec::new();
    let mut k: usize = 0;
    while k < stream.len()
        invariant
            k <= stream.len(),
            stream@ == spec_tokens(source@),
            forall|m: int| 0 <= m < stream@.len() ==> stream@[m].wf(source@.len()),
            r@.len() == k,
            forall|m: int| 0 <= m < k ==> r@[m]@ == spec_tokens(source@)[m].spec_render(source@),
        decreases stream.len() - k,
    {
        let piece = stream[k].render(source);
        r.push(piece);
        k = k + 1;
    }
    r
}

impl From<Keyword> for Token {
    fn from(value: Keyword) -> (t: Token) {
        Token::Keyword(value)
    }
}

impl vstd::std_specs::convert::FromSpecImpl<Keyword> for Token {
    open spec fn obeys_from_spec() -> bool {
        true
    }

    open spec fn from_spec(value: Keyword) -> Token {
        Token::Keyword(value)
    }
}

impl From<Literal> for Token {
    fn from(value: Literal) -> (t: Token) {
        Token::Literal(value)
    }
}

impl vstd::std_specs::convert::FromSpecImpl<Literal> for Token {
    open spec fn obeys_from_spec() -> bool {
        true
    }

    open spec fn from_spec(value: Literal) -> Token {
        Token::Literal(value)
    }
}

impl From<Pair> for Token {
    fn from(value: Pair) -> (t: Token) {
        Token::Pair(value)
    }
}

impl vstd::std_specs::convert::FromSpecImpl<Pair> for Token {
    open spec fn obeys_from_spec() -> bool {
        true
    }

    open spec fn from_spec(value: Pair) -> Token {
        Token::Pair(value)
    }
}

impl From<Identifier> for Token {
    fn from(value: Identifier) -> (t: Token) {
        Token::Identifier(value)
    }
}

impl vstd::std_specs::convert::FromSpecImpl<Identifier> for Token {
    open spec fn obeys_from_spec() -> bool {
        true
    }

    open spec fn from_spec(value: Identifier) -> Token {
        Token::Identifier(value)
    }
}

/// Whether `b` is ASCII whitespace.
fn byte_is_whitespace(b: u8) -> (r: bool)
    ensures
        r == is_whitespace_byte(b),
{
    b == 32 || b == 9 || b == 10 || b == 11 || b == 12 || b == 13
}

/// Whether `b` is an ASCII letter.
fn byte_is_letter(b: u8) -> (r: bool)
    ensures
        r == is_letter_byte(b),
{
    (97 <= b && b <= 122) || (65 <= b && b <= 90)
}

/// Whether `b` is an ASCII decimal digit.
fn byte_is_digit(b: u8) -> (r: bool)
    ensures
        r == is_digit_byte(b),
{
    48 <= b && b <= 57
}

/// Whether `b` may continue an identifier.
fn byte_is_identifier_continue(b: u8) -> (r: bool)
    ensures
        r == is_identifier_continue_byte(b),
{
    byte_is_letter(b) || byte_is_digit(b) || b == 95
}

/// Scan the maximal whitespace run beginning at `start`.
fn whitespace_run(source: &Vec<u8>, start: usize) -> (end: usize)
    requires
        start <= source.len(),
    ensures
        end == whitespace_run_end(source@, start as int),
        start <= end <= source.len(),
{
    let mut j = start;
    while j < source.len() && byte_is_whitespace(source[j])
        invariant
            start <= j <= source.len(),
            whitespace_run_end(source@, start as int) == whitespace_run_end(source@, j as int),
        decreases source.len() - j,
    {
        j = j + 1;
    }
    j
}

/// Scan the maximal identifier-continuation run beginning at `start`.
fn identifier_run(source: &Vec<u8>, start: usize) -> (end: usize)
    requires
        start <= source.len(),
    ensures
        end == identifier_run_end(source@, start as int),
        start <= end <= source.len(),
{
    let mut j = start;
    while j < source.len() && byte_is_identifier_continue(source[j])
        invariant
            start <= j <= source.len(),
            identifier_run_end(source@, start as int) == identifier_run_end(source@, j as int),
        decreases source.len() - j,
    {
        j = j + 1;
    }
    j
}

/// Scan the maximal decimal-digit run beginning at `start`.
fn digit_run(source: &Vec<u8>, start: usize) -> (end: usize)
    requires
        start <= source.len(),
    ensures
        end == digit_run_end(source@, start as int),
        start <= end <= source.len(),
{
    let mut j = start;
    while j < source.len() && byte_is_digit(source[j])
        invariant
            start <= j <= source.len(),
            digit_run_end(source@, start as int) == digit_run_end(source@, j as int),
        decreases source.len() - j,
    {
        j = j + 1;
    }
    j
}

/// Classify the letter-initial run `source[start..end)`: the keyword it
/// spells, or an identifier token carrying its span.
fn classify_word(source: &Vec<u8>, start: usize, end: usize) -> (t: Token)
    requires
        start <= end <= source.len(),
    ensures
        t == (match keyword_of(source@, start as int, end as int) {
            Some(k) => Token::Keyword(k),
            None => Token::Identifier(Identifier(Span { start, end })),
        }),
{
    if end - start == 3 && source[start] == 105 && source[start + 1] == 110 && source[start + 2]
        == 116 {
        Token::Keyword(Keyword::Int)
    } else if end - start == 6 && source[start] == 114 && source[start + 1] == 101 && source[start
        + 2] == 116 && source[start + 3] == 117 && source[start + 4] == 114 && source[start + 5]
        == 110 {
        Token::Keyword(Keyword::Return)
    } else {
        assert(!spells_int(source@, start as int, end as int));
        assert(!spells_return(source@, start as int, end as int));
        Token::Identifier(Identifier(Span { start, end }))
    }
}

/// Lex `source` in one left-to-right pass and return the token stream
/// together with one diagnostic per skipped unrecognized byte.
///
/// The pass never fails: every byte of `source` is consumed, either by a
/// token, by a whitespace run, or by a single-byte skip that raises an
/// [`UnrecognizedUnit`].
pub fn tokenize_with_warnings(source: &Vec<u8>) -> (r: (TokenStream, Vec<UnrecognizedUnit>))
    ensures
        r.0@ == spec_tokens(source@),
        r.1@ == spec_warnings(source@),
        forall|k: int| 0 <= k < r.0@.len() ==> r.0@[k].wf(source@.len()),
{
    let ghost s = source@;
    let mut stream: Vec<Token> = Vec::new();
    let mut warnings: Vec<UnrecognizedUnit> = Vec::new();
    let mut i: usize = 0;
    proof {
        assert(stream@ + tokens_of(trace_from(s, 0)) =~= tokens_of(trace_from(s, 0)));
        assert(warnings@ + warnings_of(trace_from(s, 0)) =~= warnings_of(trace_from(s, 0)));
    }
    while i < source.len()
        invariant
            i <= source.len(),
            s == source@,
            spec_tokens(s) == stream@ + tokens_of(trace_from(s, i as int)),
            spec_warnings(s) == warnings@ + warnings_of(trace_from(s, i as int)),
            forall|k: int| 0 <= k < stream@.len() ==> stream@[k].wf(s.len()),
        decreases source.len() - i,
    {
        let ghost i0 = i as int;
        let ghost st0 = stream@;
        let ghost wn0 = warnings@;
        proof {
            lemma_trace_step(s, i0);
        }
        let b = source[i];
        if byte_is_whitespace(b) {
            let j = whitespace_run(source, i);
            assert(step_end(s, i0) == j as int);
            assert(step_consumed(s, i0) == Consumed::Whitespace);
            proof {
                assert(st0 + tokens_of(trace_from(s, i0)) =~= st0 + tokens_of(
                    trace_from(s, j as int),
                ));
                assert(wn0 + warnings_of(trace_from(s, i0)) =~= wn0 + warnings_of(
                    trace_from(s, j as int),
                ));
            }
            i = j;
        } else if byte_is_letter(b) {
            let j = identifier_run(source, i);
            assert(step_end(s, i0) == j as int);
            let t = classify_word(source, i, j);
            assert(step_consumed(s, i0) == Consumed::Emitted(t));
            stream.push(t);
            proof {
                assert(st0 + tokens_of(trace_from(s, i0)) =~= stream@ + tokens_of(
                    trace_from(s, j as int),
                ));
                assert(wn0 + warnings_of(trace_from(s, i0)) =~= wn0 + warnings_of(
                    trace_from(s, j as int),
                ));
            }
            i = j;
        } else if byte_is_digit(b) {
            let j = digit_run(source, i);
            assert(step_end(s, i0) == j as int);
            let t = Token::Literal(Literal::Integer(Integer {
                span: Span { start: i, end: j },
                kind: IntegerKind::Decimal,
            }));
            assert(step_consumed(s, i0) == Consumed::Emitted(t));
            stream.push(t);
            proof {
                assert(st0 + tokens_of(trace_from(s, i0)) =~= stream@ + tokens_of(
                    trace_from(s, j as int),
                ));
                assert(wn0 + warnings_of(trace_from(s, i0)) =~= wn0 + warnings_of(
                    trace_from(s, j as int),
                ));
            }
            i = j;
        } else if b == 123 || b == 125 || b == 40 || b == 41 || b == 59 {
            let t = if b == 123 {
                Token::Pair(Pair::Braces(PairSide::Opening))
            } else if b == 125 {
                Token::Pair(Pair::Braces(PairSide::Closing))
            } else if b == 40 {
                Token::Pair(Pair::Parentheses(PairSide::Opening))
            } else if b == 41 {
                Token::Pair(Pair::Parentheses(PairSide::Closing))
            } else {
                Token::Semicolon
            };
            assert(step_end(s, i0) == i0 + 1);
            assert(step_consumed(s, i0) == Consumed::Emitted(t));
            stream.push(t);
            proof {
                assert(st0 + tokens_of(trace_from(s, i0)) =~= stream@ + tokens_of(
                    trace_from(s, i0 + 1),
                ));
                assert(wn0 + warnings_of(trace_from(s, i0)) =~= wn0 + warnings_of(
                    trace_from(s, i0 + 1),
                ));
            }
            i = i + 1;
        } else {
            let w = UnrecognizedUnit { position: i, unit: b };
            assert(step_end(s, i0) == i0 + 1);
            assert(step_consumed(s, i0) == Consumed::Unrecognized(b));
            warnings.push(w);
            proof {
                assert(st0 + tokens_of(trace_from(s, i0)) =~= st0 + tokens_of(
                    trace_from(s, i0 + 1),
                ));
                assert(wn0 + warnings_of(trace_from(s, i0)) =~= warnings@ + warnings_of(
                    trace_from(s, i0 + 1),
                ));
            }
            i = i + 1;
        }
    }
    proof {
        assert(trace_from(s, i as int) =~= Seq::<crate::scan::Segment>::empty());
        assert(stream@ + tokens_of(trace_from(s, i as int)) =~= stream@);
        assert(warnings@ + warnings_of(trace_from(s, i as int)) =~= warnings@);
    }
    (stream, warnings)
}

/// Lex `source` and return the token stream alone, dropping the
/// diagnostics. The caller that wants them uses
/// [`tokenize_with_warnings`].
pub fn tokenize(source: &Vec<u8>) -> (stream: TokenStream)
    ensures
        stream@ == spec_tokens(source@),
        forall|k: int| 0 <= k < stream@.len() ==> stream@[k].wf(source@.len()),
{
    let (stream, _warnings) = tokenize_with_warnings(source);
    stream
}
} // verus!
