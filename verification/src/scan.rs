//! The mathematical model of the lexer: byte classes, maximal runs, and the
//! trace of segments that one scanning pass produces.
//!
//! [`trace_from`] describes the pass position by position: each loop
//! iteration of the lexer consumes exactly one [`Segment`]. The token stream
//! and the diagnostics are read off the trace by [`tokens_of`] and
//! [`warnings_of`]. The executable lexer in [`crate::tokens`] is proved to
//! return exactly these sequences.

use vstd::prelude::*;

use crate::tokens::{
    Identifier, Integer, IntegerKind, Keyword, Pair, PairSide, Span, Token, UnrecognizedUnit,
};

verus! {

/// ASCII whitespace: space, tab, line feed, vertical tab, form feed,
/// carriage return.
pub open spec fn is_whitespace_byte(b: u8) -> bool {
    b == 32 || b == 9 || b == 10 || b == 11 || b == 12 || b == 13
}

/// An ASCII letter, the only bytes that may start an identifier.
pub open spec fn is_letter_byte(b: u8) -> bool {
    (97 <= b && b <= 122) || (65 <= b && b <= 90)
}

/// An ASCII decimal digit.
pub open spec fn is_digit_byte(b: u8) -> bool {
    48 <= b && b <= 57
}

/// A byte that may continue an identifier: letter, digit or underscore.
pub open spec fn is_identifier_continue_byte(b: u8) -> bool {
    is_letter_byte(b) || is_digit_byte(b) || b == 95
}

/// End of the maximal whitespace run that begins at `i`.
pub open spec fn whitespace_run_end(s: Seq<u8>, i: int) -> int
    decreases s.len() - i,
{
    if 0 <= i && i < s.len() && is_whitespace_byte(s[i]) {
        whitespace_run_end(s, i + 1)
    } else {
        i
    }
}

/// End of the maximal identifier-continuation run that begins at `i`.
pub open spec fn identifier_run_end(s: Seq<u8>, i: int) -> int
    decreases s.len() - i,
{
    if 0 <= i && i < s.len() && is_identifier_continue_byte(s[i]) {
        identifier_run_end(s, i + 1)
    } else {
        i
    }
}

/// End of the maximal decimal-digit run that begins at `i`.
pub open spec fn digit_run_end(s: Seq<u8>, i: int) -> int
    decreases s.len() - i,
{
    if 0 <= i && i < s.len() && is_digit_byte(s[i]) {
        digit_run_end(s, i + 1)
    } else {
        i
    }
}

/// The bytes `s[i..j)` spell the keyword `int`.
pub open spec fn spells_int(s: Seq<u8>, i: int, j: int) -> bool {
    &&& j - i == 3
    &&& s[i] == 105
    &&& s[i + 1] == 110
    &&& s[i + 2] == 116
}

/// The bytes `s[i..j)` spell the keyword `return`.
pub open spec fn spells_return(s: Seq<u8>, i: int, j: int) -> bool {
    &&& j - i == 6
    &&& s[i] == 114
    &&& s[i + 1] == 101
    &&& s[i + 2] == 116
    &&& s[i + 3] == 117
    &&& s[i + 4] == 114
    &&& s[i + 5] == 110
}

/// The keyword spelled by `s[i..j)`, if any.
pub open spec fn keyword_of(s: Seq<u8>, i: int, j: int) -> Option<Keyword> {
    if spells_int(s, i, j) {
        Some(Keyword::Int)
    } else if spells_return(s, i, j) {
        Some(Keyword::Return)
    } else {
        None
    }
}

/// What one scanning step consumes.
#[derive(Debug, Clone, Copy, PartialEq, Eq, Structural)]
pub enum Consumed {
    /// The step emitted this token.
    Emitted(Token),
    /// The step skipped a run of whitespace and emitted nothing.
    Whitespace,
    /// The step skipped this one unrecognized byte and emitted nothing.
    Unrecognized(u8),
}

/// One scanning step: the range of bytes it consumed and what it did.
#[derive(Debug, Clone, Copy, PartialEq, Eq, Structural)]
pub struct Segment {
    pub span: Span,
    pub consumed: Consumed,
}

/// The position after the single scanning step taken at position `i`.
pub open spec fn step_end(s: Seq<u8>, i: int) -> int {
    let b = s[i];
    if is_whitespace_byte(b) {
        whitespace_run_end(s, i)
    } else if is_letter_byte(b) {
        identifier_run_end(s, i)
    } else if is_digit_byte(b) {
        digit_run_end(s, i)
    } else {
        i + 1
    }
}

/// What the single scanning step taken at position `i` consumes: a maximal
/// whitespace run; a maximal letter-initial run, classified as a keyword
/// exactly when it spells one, else as an identifier; a maximal digit run as
/// a decimal integer literal; one punctuator; or one unrecognized byte.
pub open spec fn step_consumed(s: Seq<u8>, i: int) -> Consumed {
    let b = s[i];
    if is_whitespace_byte(b) {
        Consumed::Whitespace
    } else if is_letter_byte(b) {
        let j = identifier_run_end(s, i);
        match keyword_of(s, i, j) {
            Some(k) => Consumed::Emitted(Token::Keyword(k)),
            None => Consumed::Emitted(
                Token::Identifier(Identifier(Span { start: i as usize, end: j as usize })),
            ),
        }
    } else if is_digit_byte(b) {
        let j = digit_run_end(s, i);
        Consumed::Emitted(
            Token::Literal(crate::tokens::Literal::Integer(Integer {
                span: Span { start: i as usize, end: j as usize },
                kind: IntegerKind::Decimal,
            })),
        )
    } else if b == 123 {
        Consumed::Emitted(Token::Pair(Pair::Braces(PairSide::Opening)))
    } else if b == 125 {
        Consumed::Emitted(Token::Pair(Pair::Braces(PairSide::Closing)))
    } else if b == 40 {
        Consumed::Emitted(Token::Pair(Pair::Parentheses(PairSide::Opening)))
    } else if b == 41 {
        Consumed::Emitted(Token::Pair(Pair::Parentheses(PairSide::Closing)))
    } else if b == 59 {
        Consumed::Emitted(Token::Semicolon)
    } else {
        Consumed::Unrecognized(b)
    }
}

/// The maximal whitespace run beginning at `i` stays within bounds, consists
/// of whitespace, and stops only at the end of the buffer or at a
/// non-whitespace byte.
pub proof fn lemma_whitespace_run_end(s: Seq<u8>, i: int)
    requires
        0 <= i <= s.len(),
    ensures
        i <= whitespace_run_end(s, i) <= s.len(),
        forall|k: int|
            i <= k < whitespace_run_end(s, i) ==> is_whitespace_byte(s[k]),
        whitespace_run_end(s, i) == s.len() || !is_whitespace_byte(s[whitespace_run_end(s, i)]),
    decreases s.len() - i,
{
    if i < s.len() && is_whitespace_byte(s[i]) {
        lemma_whitespace_run_end(s, i + 1);
    }
}

/// As [`lemma_whitespace_run_end`], for identifier-continuation runs.
pub proof fn lemma_identifier_run_end(s: Seq<u8>, i: int)
    requires
        0 <= i <= s.len(),
    ensures
        i <= identifier_run_end(s, i) <= s.len(),
        forall|k: int|
            i <= k < identifier_run_end(s, i) ==> is_identifier_continue_byte(s[k]),
        identifier_run_end(s, i) == s.len() || !is_identifier_continue_byte(
            s[identifier_run_end(s, i)],
        ),
    decreases s.len() - i,
{
    if i < s.len() && is_identifier_continue_byte(s[i]) {
        lemma_identifier_run_end(s, i + 1);
    }
}

/// As [`lemma_whitespace_run_end`], for decimal-digit runs.
pub proof fn lemma_digit_run_end(s: Seq<u8>, i: int)
    requires
        0 <= i <= s.len(),
    ensures
        i <= digit_run_end(s, i) <= s.len(),
        forall|k: int| i <= k < digit_run_end(s, i) ==> is_digit_byte(s[k]),
        digit_run_end(s, i) == s.len() || !is_digit_byte(s[digit_run_end(s, i)]),
    decreases s.len() - i,
{
    if i < s.len() && is_digit_byte(s[i]) {
        lemma_digit_run_end(s, i + 1);
    }
}

/// Any run whose bytes all lie in the whitespace class and that stops at the
/// buffer end or at a byte outside the class is the maximal run.
pub proof fn lemma_whitespace_run_is(s: Seq<u8>, i: int, e: int)
    requires
        0 <= i <= e <= s.len(),
        forall|k: int| i <= k < e ==> is_whitespace_byte(s[k]),
        e == s.len() || !is_whitespace_byte(s[e]),
    ensures
        whitespace_run_end(s, i) == e,
    decreases e - i,
{
    if i < e {
        lemma_whitespace_run_is(s, i + 1, e);
    }
}

/// As [`lemma_whitespace_run_is`], for identifier-continuation runs.
pub proof fn lemma_identifier_run_is(s: Seq<u8>, i: int, e: int)
    requires
        0 <= i <= e <= s.len(),
        forall|k: int| i <= k < e ==> is_identifier_continue_byte(s[k]),
        e == s.len() || !is_identifier_continue_byte(s[e]),
    ensures
        identifier_run_end(s, i) == e,
    decreases e - i,
{
    if i < e {
        lemma_identifier_run_is(s, i + 1, e);
    }
}

/// As [`lemma_whitespace_run_is`], for decimal-digit runs.
pub proof fn lemma_digit_run_is(s: Seq<u8>, i: int, e: int)
    requires
        0 <= i <= e <= s.len(),
        forall|k: int| i <= k < e ==> is_digit_byte(s[k]),
        e == s.len() || !is_digit_byte(s[e]),
    ensures
        digit_run_end(s, i) == e,
    decreases e - i,
{
    if i < e {
        lemma_digit_run_is(s, i + 1, e);
    }
}

/// A scanning step always moves forward and never leaves the buffer.
pub proof fn lemma_step_end(s: Seq<u8>, i: int)
    requires
        0 <= i < s.len(),
    ensures
        i < step_end(s, i) <= s.len(),
{
    let b = s[i];
    if is_whitespace_byte(b) {
        lemma_whitespace_run_end(s, i);
        assert(whitespace_run_end(s, i) == whitespace_run_end(s, i + 1));
        lemma_whitespace_run_end(s, i + 1);
    } else if is_letter_byte(b) {
        lemma_identifier_run_end(s, i);
        assert(identifier_run_end(s, i) == identifier_run_end(s, i + 1));
        lemma_identifier_run_end(s, i + 1);
    } else if is_digit_byte(b) {
        lemma_digit_run_end(s, i);
        assert(digit_run_end(s, i) == digit_run_end(s, i + 1));
        lemma_digit_run_end(s, i + 1);
    }
}

/// The sequence of scanning steps from position `i` to the end of the
/// buffer, one [`Segment`] per step.
pub open spec fn trace_from(s: Seq<u8>, i: int) -> Seq<Segment>
    decreases s.len() - i via trace_from_decreases
{
    if i < 0 || i >= s.len() {
        Seq::empty()
    } else {
        let j = step_end(s, i);
        seq![
            Segment { span: Span { start: i as usize, end: j as usize }, consumed: step_consumed(s, i) },
        ] + trace_from(s, j)
    }
}

#[via_fn]
proof fn trace_from_decreases(s: Seq<u8>, i: int) {
    if 0 <= i && i < s.len() {
        lemma_step_end(s, i);
    }
}

/// The tokens a trace emits, in order.
pub open spec fn tokens_of(tr: Seq<Segment>) -> Seq<Token>
    decreases tr.len(),
{
    if tr.len() == 0 {
        Seq::empty()
    } else {
        (match tr[0].consumed {
            Consumed::Emitted(t) => seq![t],
            _ => Seq::empty(),
        }) + tokens_of(tr.drop_first())
    }
}

/// The diagnostics a trace raises, in order: one per unrecognized byte.
pub open spec fn warnings_of(tr: Seq<Segment>) -> Seq<UnrecognizedUnit>
    decreases tr.len(),
{
    if tr.len() == 0 {
        Seq::empty()
    } else {
        (match tr[0].consumed {
            Consumed::Unrecognized(b) => seq![
                UnrecognizedUnit { position: tr[0].span.start, unit: b },
            ],
            _ => Seq::empty(),
        }) + warnings_of(tr.drop_first())
    }
}

/// The full trace of one lexing pass over `s`.
pub open spec fn spec_trace(s: Seq<u8>) -> Seq<Segment> {
    trace_from(s, 0)
}

/// The token stream one lexing pass over `s` returns.
pub open spec fn spec_tokens(s: Seq<u8>) -> Seq<Token> {
    tokens_of(spec_trace(s))
}

/// The diagnostics one lexing pass over `s` raises.
pub open spec fn spec_warnings(s: Seq<u8>) -> Seq<UnrecognizedUnit> {
    warnings_of(spec_trace(s))
}

/// Unfolding one scanning step: the trace at `i` is the step's segment
/// followed by the trace at the step's end, and the token stream and the
/// diagnostics decompose accordingly.
pub proof fn lemma_trace_step(s: Seq<u8>, i: int)
    requires
        0 <= i < s.len(),
    ensures
        ({
            let j = step_end(s, i);
            let seg = Segment {
                span: Span { start: i as usize, end: j as usize },
                consumed: step_consumed(s, i),
            };
            &&& i < j <= s.len()
            &&& trace_from(s, i) == seq![seg] + trace_from(s, j)
            &&& tokens_of(trace_from(s, i)) == (match step_consumed(s, i) {
                Consumed::Emitted(t) => seq![t],
                _ => Seq::<Token>::empty(),
            }) + tokens_of(trace_from(s, j))
            &&& warnings_of(trace_from(s, i)) == (match step_consumed(s, i) {
                Consumed::Unrecognized(b) => seq![
                    UnrecognizedUnit { position: i as usize, unit: b },
                ],
                _ => Seq::<UnrecognizedUnit>::empty(),
            }) + warnings_of(trace_from(s, j))
        }),
{
    lemma_step_end(s, i);
    let j = step_end(s, i);
    let seg = Segment {
        span: Span { start: i as usize, end: j as usize },
        consumed: step_consumed(s, i),
    };
    let one = seq![seg];
    assert(trace_from(s, i) == one + trace_from(s, j));
    lemma_tokens_of_add(one, trace_from(s, j));
    lemma_warnings_of_add(one, trace_from(s, j));
    assert(one.drop_first() =~= Seq::<Segment>::empty());
    assert(tokens_of(one.drop_first()) =~= Seq::<Token>::empty());
    assert(warnings_of(one.drop_first()) =~= Seq::<UnrecognizedUnit>::empty());
    match step_consumed(s, i) {
        Consumed::Emitted(t) => {
            assert(tokens_of(one) =~= seq![t]);
            assert(warnings_of(one) =~= Seq::<UnrecognizedUnit>::empty());
        },
        Consumed::Whitespace => {
            assert(tokens_of(one) =~= Seq::<Token>::empty());
            assert(warnings_of(one) =~= Seq::<UnrecognizedUnit>::empty());
        },
        Consumed::Unrecognized(b) => {
            assert(tokens_of(one) =~= Seq::<Token>::empty());
            assert(warnings_of(one) =~= seq![
                UnrecognizedUnit { position: i as usize, unit: b },
            ]);
        },
    }
}

/// Extracting tokens distributes over concatenation of traces.
pub proof fn lemma_tokens_of_add(a: Seq<Segment>, b: Seq<Segment>)
    ensures
        tokens_of(a + b) == tokens_of(a) + tokens_of(b),
    decreases a.len(),
{
    if a.len() == 0 {
        assert(a + b =~= b);
        assert(tokens_of(a) + tokens_of(b) =~= tokens_of(b));
    } else {
        assert((a + b).drop_first() =~= a.drop_first() + b);
        lemma_tokens_of_add(a.drop_first(), b);
        assert(tokens_of(a + b) =~= tokens_of(a) + tokens_of(b));
    }
}

/// Extracting diagnostics distributes over concatenation of traces.
pub proof fn lemma_warnings_of_add(a: Seq<Segment>, b: Seq<Segment>)
    ensures
        warnings_of(a + b) == warnings_of(a) + warnings_of(b),
    decreases a.len(),
{
    if a.len() == 0 {
        assert(a + b =~= b);
        assert(warnings_of(a) + warnings_of(b) =~= warnings_of(b));
    } else {
        assert((a + b).drop_first() =~= a.drop_first() + b);
        lemma_warnings_of_add(a.drop_first(), b);
        assert(warnings_of(a + b) =~= warnings_of(a) + warnings_of(b));
    }
}

} // verus!
