//! Laws of the lexer, proved against the model in [`crate::scan`].
//!
//! Each public proof function here states a property of every input, over
//! the same spec functions that the contracts of [`crate::tokens`] use.

use vstd::prelude::*;

use crate::scan::{
    digit_run_end, identifier_run_end, is_digit_byte, is_identifier_continue_byte, is_letter_byte,
    is_whitespace_byte, keyword_of, lemma_digit_run_end, lemma_digit_run_is,
    lemma_identifier_run_end, lemma_identifier_run_is, lemma_step_end, lemma_trace_step,
    lemma_whitespace_run_end, lemma_whitespace_run_is, spec_tokens, spec_trace, spec_warnings,
    step_consumed, step_end, tokens_of, trace_from, warnings_of, whitespace_run_end, Consumed,
    Segment,
};
use crate::tokens::{span_bytes, Identifier, Integer, Literal, Span, Token, UnrecognizedUnit};

verus! {

/// The bytes that a trace's segments denote in `s`, concatenated in order.
pub open spec fn concat_segments(s: Seq<u8>, tr: Seq<Segment>) -> Seq<u8>
    decreases tr.len(),
{
    if tr.len() == 0 {
        Seq::empty()
    } else {
        span_bytes(s, tr[0].span) + concat_segments(s, tr.drop_first())
    }
}

/// The segments' spans tile `[i, n)`: each span is non-empty, begins where
/// its predecessor ended, and the last one ends at `n`.
pub open spec fn tiles(tr: Seq<Segment>, i: int, n: int) -> bool
    decreases tr.len(),
{
    if tr.len() == 0 {
        i == n
    } else {
        &&& tr[0].span.start as int == i
        &&& i < tr[0].span.end as int <= n
        &&& tiles(tr.drop_first(), tr[0].span.end as int, n)
    }
}

proof fn lemma_trace_tiles(s: Seq<u8>, i: int)
    requires
        0 <= i <= s.len(),
        s.len() <= usize::MAX,
    ensures
        tiles(trace_from(s, i), i, s.len() as int),
        concat_segments(s, trace_from(s, i)) == s.subrange(i, s.len() as int),
    decreases s.len() - i,
{
    if i >= s.len() {
        assert(trace_from(s, i) =~= Seq::<Segment>::empty());
        assert(concat_segments(s, trace_from(s, i)) =~= s.subrange(i, s.len() as int));
    } else {
        lemma_step_end(s, i);
        let j = step_end(s, i);
        let seg = Segment {
            span: Span { start: i as usize, end: j as usize },
            consumed: step_consumed(s, i),
        };
        let rest = trace_from(s, j);
        assert(trace_from(s, i) == seq![seg] + rest);
        lemma_trace_tiles(s, j);
        assert((seq![seg] + rest)[0] == seg);
        assert((seq![seg] + rest).drop_first() =~= rest);
        assert(tiles(trace_from(s, i), i, s.len() as int));
        assert(span_bytes(s, seg.span) == s.subrange(i, j));
        assert(concat_segments(s, trace_from(s, i)) == s.subrange(i, j) + s.subrange(
            j,
            s.len() as int,
        ));
        assert(s.subrange(i, j) + s.subrange(j, s.len() as int) =~= s.subrange(
            i,
            s.len() as int,
        ));
    }
}

/// Round trip: one lexing pass consumes the whole buffer with no gaps, no
/// overlaps and no reordering. The segments of the trace — token spans and
/// skipped whitespace or unrecognized-byte ranges alike — tile `[0, len)`,
/// and their bytes, concatenated in order, are exactly the source buffer.
pub proof fn lemma_round_trip(s: Seq<u8>)
    requires
        s.len() <= usize::MAX,
    ensures
        tiles(spec_trace(s), 0, s.len() as int),
        concat_segments(s, spec_trace(s)) == s,
{
    lemma_trace_tiles(s, 0);
    assert(s.subrange(0, s.len() as int) =~= s);
}

/// Every segment of a trace records exactly one scanning step, taken at the
/// segment's own start position.
pub proof fn lemma_segment_is_step(s: Seq<u8>, i: int, k: int)
    requires
        0 <= i <= s.len(),
        s.len() <= usize::MAX,
        0 <= k < trace_from(s, i).len(),
    ensures
        ({
            let seg = trace_from(s, i)[k];
            &&& 0 <= seg.span.start < s.len()
            &&& seg.span.end as int == step_end(s, seg.span.start as int)
            &&& seg.consumed == step_consumed(s, seg.span.start as int)
        }),
    decreases s.len() - i,
{
    lemma_step_end(s, i);
    let j = step_end(s, i);
    let seg = Segment {
        span: Span { start: i as usize, end: j as usize },
        consumed: step_consumed(s, i),
    };
    let rest = trace_from(s, j);
    assert(trace_from(s, i) == seq![seg] + rest);
    if k == 0 {
        assert(trace_from(s, i)[0] == seg);
    } else {
        assert(trace_from(s, i)[k] == rest[k - 1]);
        lemma_segment_is_step(s, j, k - 1);
    }
}

/// Maximal munch: a segment that begins with a letter consumes a full
/// identifier-class run. Every byte of the segment continues an identifier,
/// the byte just past the segment (if any) cannot, and the run is classified
/// as a keyword exactly when the whole run spells one. An identifier that
/// merely begins with a keyword spelling is therefore never split into a
/// keyword and a remainder.
pub proof fn lemma_maximal_munch(s: Seq<u8>, k: int)
    requires
        s.len() <= usize::MAX,
        0 <= k < spec_trace(s).len(),
        is_letter_byte(s[spec_trace(s)[k].span.start as int]),
    ensures
        ({
            let seg = spec_trace(s)[k];
            let a = seg.span.start as int;
            let e = seg.span.end as int;
            &&& forall|m: int| a <= m < e ==> is_identifier_continue_byte(s[m])
            &&& e == s.len() || !is_identifier_continue_byte(s[e])
            &&& seg.consumed == Consumed::Emitted(
                match keyword_of(s, a, e) {
                    Some(kw) => Token::Keyword(kw),
                    None => Token::Identifier(Identifier(seg.span)),
                },
            )
        }),
{
    lemma_segment_is_step(s, 0, k);
    let seg = spec_trace(s)[k];
    let a = seg.span.start as int;
    assert(!is_whitespace_byte(s[a]));
    lemma_identifier_run_end(s, a);
    assert(seg.span.end as int == identifier_run_end(s, a));
}

/// A buffer that holds nothing but whitespace — the empty buffer included —
/// lexes to an empty token stream with no diagnostics.
pub proof fn lemma_whitespace_only(s: Seq<u8>)
    requires
        forall|k: int| 0 <= k < s.len() ==> is_whitespace_byte(s[k]),
    ensures
        spec_tokens(s) == Seq::<Token>::empty(),
        spec_warnings(s) == Seq::<UnrecognizedUnit>::empty(),
{
    if s.len() == 0 {
        assert(trace_from(s, 0) =~= Seq::<Segment>::empty());
        assert(spec_tokens(s) =~= Seq::<Token>::empty());
        assert(spec_warnings(s) =~= Seq::<UnrecognizedUnit>::empty());
    } else {
        lemma_trace_step(s, 0);
        assert(is_whitespace_byte(s[0]));
        lemma_whitespace_run_is(s, 0, s.len() as int);
        assert(step_end(s, 0) == s.len());
        assert(trace_from(s, s.len() as int) =~= Seq::<Segment>::empty());
        assert(tokens_of(trace_from(s, s.len() as int)) =~= Seq::<Token>::empty());
        assert(warnings_of(trace_from(s, s.len() as int)) =~= Seq::<UnrecognizedUnit>::empty());
        assert(spec_tokens(s) =~= Seq::<Token>::empty());
        assert(spec_warnings(s) =~= Seq::<UnrecognizedUnit>::empty());
    }
}

/// Every byte of `w` is whitespace.
pub open spec fn all_whitespace(w: Seq<u8>) -> bool {
    forall|k: int| 0 <= k < w.len() ==> is_whitespace_byte(w[k])
}

/// The span moved `d` positions to the right (`d` may be negative).
pub open spec fn shift_span(sp: Span, d: int) -> Span {
    Span { start: (sp.start + d) as usize, end: (sp.end + d) as usize }
}

/// The token with its span, if it carries one and that span starts at `cut`
/// or later, moved `d` positions to the right.
pub open spec fn shift_token_at(t: Token, cut: int, d: int) -> Token {
    match t {
        Token::Identifier(id) => if id.0.start as int >= cut {
            Token::Identifier(Identifier(shift_span(id.0, d)))
        } else {
            t
        },
        Token::Literal(Literal::Integer(n)) => if n.span.start as int >= cut {
            Token::Literal(Literal::Integer(Integer { span: shift_span(n.span, d), kind: n.kind }))
        } else {
            t
        },
        _ => t,
    }
}

/// Every token of `ts`, shifted by [`shift_token_at`].
pub open spec fn shift_tokens_at(ts: Seq<Token>, cut: int, d: int) -> Seq<Token>
    decreases ts.len(),
{
    if ts.len() == 0 {
        Seq::empty()
    } else {
        seq![shift_token_at(ts[0], cut, d)] + shift_tokens_at(ts.drop_first(), cut, d)
    }
}

spec fn shift_consumed(co: Consumed, c: int) -> Consumed {
    match co {
        Consumed::Emitted(t) => Consumed::Emitted(shift_token_at(t, 0, c)),
        _ => co,
    }
}

spec fn shift_segment(g: Segment, c: int) -> Segment {
    Segment { span: shift_span(g.span, c), consumed: shift_consumed(g.consumed, c) }
}

spec fn shift_trace(tr: Seq<Segment>, c: int) -> Seq<Segment>
    decreases tr.len(),
{
    if tr.len() == 0 {
        Seq::empty()
    } else {
        seq![shift_segment(tr[0], c)] + shift_trace(tr.drop_first(), c)
    }
}

proof fn lemma_shift_tokens_at_cons(t: Token, rest: Seq<Token>, cut: int, d: int)
    ensures
        shift_tokens_at(seq![t] + rest, cut, d) == seq![shift_token_at(t, cut, d)]
            + shift_tokens_at(rest, cut, d),
{
    assert((seq![t] + rest)[0] == t);
    assert((seq![t] + rest).drop_first() =~= rest);
}

proof fn lemma_shift_trace_cons(g: Segment, rest: Seq<Segment>, c: int)
    ensures
        shift_trace(seq![g] + rest, c) == seq![shift_segment(g, c)] + shift_trace(rest, c),
{
    assert((seq![g] + rest)[0] == g);
    assert((seq![g] + rest).drop_first() =~= rest);
}

/// The three maximal runs translate under prefixing: prepending `c` moves a
/// run's end by `c.len()`.
proof fn lemma_runs_translate(c: Seq<u8>, s: Seq<u8>, i: int)
    requires
        0 <= i <= s.len(),
    ensures
        whitespace_run_end(c + s, c.len() + i) == c.len() + whitespace_run_end(s, i),
        identifier_run_end(c + s, c.len() + i) == c.len() + identifier_run_end(s, i),
        digit_run_end(c + s, c.len() + i) == c.len() + digit_run_end(s, i),
{
    let cs = c + s;
    let ew = whitespace_run_end(s, i);
    lemma_whitespace_run_end(s, i);
    assert forall|k: int| c.len() + i <= k < c.len() + ew implies is_whitespace_byte(
        cs[k],
    ) by {
        assert(cs[k] == s[k - c.len()]);
    }
    if ew < s.len() {
        assert(cs[c.len() + ew] == s[ew]);
    }
    lemma_whitespace_run_is(cs, c.len() + i, c.len() + ew);
    let ei = identifier_run_end(s, i);
    lemma_identifier_run_end(s, i);
    assert forall|k: int| c.len() + i <= k < c.len() + ei implies is_identifier_continue_byte(
        cs[k],
    ) by {
        assert(cs[k] == s[k - c.len()]);
    }
    if ei < s.len() {
        assert(cs[c.len() + ei] == s[ei]);
    }
    lemma_identifier_run_is(cs, c.len() + i, c.len() + ei);
    let ed = digit_run_end(s, i);
    lemma_digit_run_end(s, i);
    assert forall|k: int| c.len() + i <= k < c.len() + ed implies is_digit_byte(cs[k]) by {
        assert(cs[k] == s[k - c.len()]);
    }
    if ed < s.len() {
        assert(cs[c.len() + ed] == s[ed]);
    }
    lemma_digit_run_is(cs, c.len() + i, c.len() + ed);
}

/// Lexing looks only at the unconsumed suffix: the trace of `c + s` from
/// position `c.len() + i` is the trace of `s` from `i` with every span moved
/// right by `c.len()`.
proof fn lemma_trace_translate(c: Seq<u8>, s: Seq<u8>, i: int)
    requires
        0 <= i <= s.len(),
        c.len() + s.len() <= usize::MAX,
    ensures
        trace_from(c + s, c.len() + i) == shift_trace(trace_from(s, i), c.len() as int),
    decreases s.len() - i,
{
    let cs = c + s;
    if i >= s.len() {
        assert(trace_from(cs, c.len() + i) =~= Seq::<Segment>::empty());
        assert(shift_trace(trace_from(s, i), c.len() as int) =~= Seq::<Segment>::empty());
    } else {
        lemma_step_end(s, i);
        lemma_runs_translate(c, s, i);
        assert(cs[c.len() + i] == s[i]);
        let j = step_end(s, i);
        assert(step_end(cs, c.len() + i) == c.len() + j);
        if is_letter_byte(s[i]) {
            let e = identifier_run_end(s, i);
            lemma_identifier_run_end(s, i);
            if e - i == 3 {
                assert(cs[c.len() + i + 1] == s[i + 1]);
                assert(cs[c.len() + i + 2] == s[i + 2]);
            }
            if e - i == 6 {
                assert(cs[c.len() + i + 1] == s[i + 1]);
                assert(cs[c.len() + i + 2] == s[i + 2]);
                assert(cs[c.len() + i + 3] == s[i + 3]);
                assert(cs[c.len() + i + 4] == s[i + 4]);
                assert(cs[c.len() + i + 5] == s[i + 5]);
            }
            assert(keyword_of(cs, c.len() + i, c.len() + e) == keyword_of(s, i, e));
        }
        assert(step_consumed(cs, c.len() + i) == shift_consumed(
            step_consumed(s, i),
            c.len() as int,
        ));
        let seg = Segment {
            span: Span { start: i as usize, end: j as usize },
            consumed: step_consumed(s, i),
        };
        let rest = trace_from(s, j);
        assert(trace_from(s, i) == seq![seg] + rest);
        lemma_trace_translate(c, s, j);
        lemma_shift_trace_cons(seg, rest, c.len() as int);
        assert(trace_from(cs, c.len() + i) =~= shift_trace(trace_from(s, i), c.len() as int));
    }
}

proof fn lemma_tokens_of_shift_trace(tr: Seq<Segment>, c: int)
    ensures
        tokens_of(shift_trace(tr, c)) == shift_tokens_at(tokens_of(tr), 0, c),
    decreases tr.len(),
{
    if tr.len() == 0 {
        assert(tokens_of(shift_trace(tr, c)) =~= shift_tokens_at(tokens_of(tr), 0, c));
    } else {
        lemma_tokens_of_shift_trace(tr.drop_first(), c);
        let sh = shift_trace(tr, c);
        assert(sh[0] == shift_segment(tr[0], c));
        assert(sh.drop_first() =~= shift_trace(tr.drop_first(), c));
        match tr[0].consumed {
            Consumed::Emitted(t) => {
                lemma_shift_tokens_at_cons(t, tokens_of(tr.drop_first()), 0, c);
                assert(tokens_of(tr) == seq![t] + tokens_of(tr.drop_first()));
                assert(tokens_of(sh) =~= shift_tokens_at(tokens_of(tr), 0, c));
            },
            _ => {
                assert(tokens_of(tr) == tokens_of(tr.drop_first()));
                assert(tokens_of(sh) =~= shift_tokens_at(tokens_of(tr), 0, c));
            },
        }
    }
}

/// The token's span, if it carries one, lies within `[lo, hi]`.
spec fn token_span_within(t: Token, lo: int, hi: int) -> bool {
    match t {
        Token::Identifier(id) => lo <= id.0.start as int && id.0.start <= id.0.end && id.0.end
            as int <= hi,
        Token::Literal(Literal::Integer(n)) => lo <= n.span.start as int && n.span.start
            <= n.span.end && n.span.end as int <= hi,
        _ => true,
    }
}

proof fn lemma_trace_tokens_within(s: Seq<u8>, i: int)
    requires
        0 <= i <= s.len(),
        s.len() <= usize::MAX,
    ensures
        forall|k: int|
            0 <= k < tokens_of(trace_from(s, i)).len() ==> token_span_within(
                tokens_of(trace_from(s, i))[k],
                i,
                s.len() as int,
            ),
    decreases s.len() - i,
{
    if i < s.len() {
        lemma_trace_step(s, i);
        let j = step_end(s, i);
        lemma_trace_tokens_within(s, j);
        if is_letter_byte(s[i]) {
            lemma_identifier_run_end(s, i);
        }
        if is_digit_byte(s[i]) {
            lemma_digit_run_end(s, i);
        }
        let toks = tokens_of(trace_from(s, i));
        let rest = tokens_of(trace_from(s, j));
        assert forall|k: int| 0 <= k < toks.len() implies token_span_within(
            toks[k],
            i,
            s.len() as int,
        ) by {
            match step_consumed(s, i) {
                Consumed::Emitted(t) => {
                    assert(toks == seq![t] + rest);
                    if k == 0 {
                        assert(toks[0] == t);
                    } else {
                        assert(toks[k] == rest[k - 1]);
                    }
                },
                _ => {
                    assert(toks == Seq::<Token>::empty() + rest);
                    assert(toks[k] == rest[k]);
                },
            }
        }
    }
}

/// Shifting every span right by `alen + c1` is the same as shifting by
/// `alen + c2` and then moving everything at `alen` or beyond by `c1 - c2`.
proof fn lemma_shift_compose(ts: Seq<Token>, alen: int, c1: int, c2: int, hi: int)
    requires
        0 <= alen,
        0 <= c1,
        0 <= c2,
        0 <= hi,
        alen + c1 + hi <= usize::MAX,
        alen + c2 + hi <= usize::MAX,
        forall|k: int| 0 <= k < ts.len() ==> token_span_within(ts[k], 0, hi),
    ensures
        shift_tokens_at(ts, 0, alen + c1) == shift_tokens_at(
            shift_tokens_at(ts, 0, alen + c2),
            alen,
            c1 - c2,
        ),
    decreases ts.len(),
{
    if ts.len() == 0 {
        assert(shift_tokens_at(ts, 0, alen + c1) =~= shift_tokens_at(
            shift_tokens_at(ts, 0, alen + c2),
            alen,
            c1 - c2,
        ));
    } else {
        let t = ts[0];
        assert(token_span_within(t, 0, hi));
        assert(forall|k: int|
            0 <= k < ts.drop_first().len() ==> token_span_within(#[trigger] ts.drop_first()[k], 0, hi));
        lemma_shift_compose(ts.drop_first(), alen, c1, c2, hi);
        lemma_shift_tokens_at_cons(
            shift_token_at(t, 0, alen + c2),
            shift_tokens_at(ts.drop_first(), 0, alen + c2),
            alen,
            c1 - c2,
        );
        assert(shift_token_at(shift_token_at(t, 0, alen + c2), alen, c1 - c2) == shift_token_at(
            t,
            0,
            alen + c1,
        ));
        assert(shift_tokens_at(ts, 0, alen + c1) =~= shift_tokens_at(
            shift_tokens_at(ts, 0, alen + c2),
            alen,
            c1 - c2,
        ));
    }
}

/// A whitespace run that reaches the end of `a` crosses the whole of `w` and
/// the whitespace prefix of `b`.
proof fn lemma_whitespace_run_cross(a: Seq<u8>, w: Seq<u8>, b: Seq<u8>, i: int)
    requires
        0 <= i <= a.len(),
        all_whitespace(w),
        forall|k: int| i <= k < a.len() ==> is_whitespace_byte(a[k]),
    ensures
        whitespace_run_end(a + w + b, i) == a.len() + w.len() + whitespace_run_end(b, 0),
{
    let s = a + w + b;
    let p0 = whitespace_run_end(b, 0);
    lemma_whitespace_run_end(b, 0);
    assert forall|k: int| i <= k < a.len() + w.len() + p0 implies is_whitespace_byte(s[k]) by {
        if k < a.len() {
            assert(s[k] == a[k]);
        } else if k < a.len() + w.len() {
            assert(s[k] == w[k - a.len()]);
        } else {
            assert(s[k] == b[k - a.len() - w.len()]);
        }
    }
    if p0 < b.len() {
        assert(s[a.len() + w.len() + p0] == b[p0]);
    }
    lemma_whitespace_run_is(s, i, a.len() + w.len() + p0);
}

proof fn lemma_exchange_from(a: Seq<u8>, w1: Seq<u8>, w2: Seq<u8>, b: Seq<u8>, i: int)
    requires
        all_whitespace(w1),
        all_whitespace(w2),
        w1.len() > 0,
        w2.len() > 0,
        0 <= i <= a.len(),
        a.len() + w1.len() + b.len() <= usize::MAX,
        a.len() + w2.len() + b.len() <= usize::MAX,
    ensures
        tokens_of(trace_from(a + w1 + b, i)) == shift_tokens_at(
            tokens_of(trace_from(a + w2 + b, i)),
            a.len() as int,
            w1.len() - w2.len(),
        ),
    decreases a.len() - i,
{
    let s1 = a + w1 + b;
    let s2 = a + w2 + b;
    let d = w1.len() - w2.len();
    let cut = a.len() as int;
    assert forall|m: int| 0 <= m < a.len() implies s1[m] == a[m] by {
        assert((a + w1)[m] == a[m]);
    }
    assert forall|m: int| 0 <= m < a.len() implies s2[m] == a[m] by {
        assert((a + w2)[m] == a[m]);
    }
    if i < a.len() && !is_whitespace_byte(a[i]) {
        lemma_trace_step(s1, i);
        lemma_trace_step(s2, i);
        let e: int = if is_letter_byte(a[i]) {
            let e = identifier_run_end(a, i);
            lemma_identifier_run_end(a, i);
            lemma_identifier_run_end(a, i + 1);
            assert(e >= i + 1);
            if e < a.len() {
                assert(!is_identifier_continue_byte(s1[e]));
                assert(!is_identifier_continue_byte(s2[e]));
            } else {
                assert((a + w1)[a.len() as int] == w1[0]);
                assert(s1[e] == w1[0]);
                assert((a + w2)[a.len() as int] == w2[0]);
                assert(s2[e] == w2[0]);
            }
            lemma_identifier_run_is(s1, i, e);
            lemma_identifier_run_is(s2, i, e);
            if e - i == 3 {
                assert(s1[i + 1] == a[i + 1] && s1[i + 2] == a[i + 2]);
                assert(s2[i + 1] == a[i + 1] && s2[i + 2] == a[i + 2]);
            }
            if e - i == 6 {
                assert(s1[i + 1] == a[i + 1] && s1[i + 2] == a[i + 2] && s1[i + 3] == a[i + 3]
                    && s1[i + 4] == a[i + 4] && s1[i + 5] == a[i + 5]);
                assert(s2[i + 1] == a[i + 1] && s2[i + 2] == a[i + 2] && s2[i + 3] == a[i + 3]
                    && s2[i + 4] == a[i + 4] && s2[i + 5] == a[i + 5]);
            }
            assert(keyword_of(s1, i, e) == keyword_of(s2, i, e));
            e
        } else if is_digit_byte(a[i]) {
            let e = digit_run_end(a, i);
            lemma_digit_run_end(a, i);
            lemma_digit_run_end(a, i + 1);
            assert(e >= i + 1);
            if e < a.len() {
                assert(!is_digit_byte(s1[e]));
                assert(!is_digit_byte(s2[e]));
            } else {
                assert((a + w1)[a.len() as int] == w1[0]);
                assert(s1[e] == w1[0]);
                assert((a + w2)[a.len() as int] == w2[0]);
                assert(s2[e] == w2[0]);
            }
            lemma_digit_run_is(s1, i, e);
            lemma_digit_run_is(s2, i, e);
            e
        } else {
            i + 1
        };
        assert(step_end(s1, i) == e);
        assert(step_end(s2, i) == e);
        assert(step_consumed(s1, i) == step_consumed(s2, i));
        assert(i < e <= a.len());
        lemma_exchange_from(a, w1, w2, b, e);
        let rest1 = tokens_of(trace_from(s1, e));
        let rest2 = tokens_of(trace_from(s2, e));
        match step_consumed(s1, i) {
            Consumed::Emitted(t) => {
                assert(shift_token_at(t, cut, d) == t);
                lemma_shift_tokens_at_cons(t, rest2, cut, d);
                assert(tokens_of(trace_from(s1, i)) =~= shift_tokens_at(
                    tokens_of(trace_from(s2, i)),
                    cut,
                    d,
                ));
            },
            _ => {
                assert(tokens_of(trace_from(s1, i)) =~= rest1);
                assert(tokens_of(trace_from(s2, i)) =~= rest2);
            },
        }
    } else {
        lemma_whitespace_run_end(a, i);
        let ea = whitespace_run_end(a, i);
        if ea < a.len() {
            assert(i < a.len() && is_whitespace_byte(a[i]));
            lemma_whitespace_run_end(a, i + 1);
            assert(ea >= i + 1);
            assert(!is_whitespace_byte(s1[ea]));
            assert(!is_whitespace_byte(s2[ea]));
            lemma_whitespace_run_is(s1, i, ea);
            lemma_whitespace_run_is(s2, i, ea);
            lemma_trace_step(s1, i);
            lemma_trace_step(s2, i);
            assert(step_end(s1, i) == ea);
            assert(step_end(s2, i) == ea);
            assert(step_consumed(s1, i) == Consumed::Whitespace);
            assert(step_consumed(s2, i) == Consumed::Whitespace);
            lemma_exchange_from(a, w1, w2, b, ea);
            assert(tokens_of(trace_from(s1, i)) =~= tokens_of(trace_from(s1, ea)));
            assert(tokens_of(trace_from(s2, i)) =~= tokens_of(trace_from(s2, ea)));
        } else {
            let p0 = whitespace_run_end(b, 0);
            lemma_whitespace_run_end(b, 0);
            lemma_whitespace_run_cross(a, w1, b, i);
            lemma_whitespace_run_cross(a, w2, b, i);
            if i < a.len() {
                assert(is_whitespace_byte(a[i]));
                assert(is_whitespace_byte(s1[i]));
                assert(is_whitespace_byte(s2[i]));
            } else {
                assert((a + w1)[a.len() as int] == w1[0]);
                assert(s1[i] == w1[0]);
                assert((a + w2)[a.len() as int] == w2[0]);
                assert(s2[i] == w2[0]);
            }
            lemma_trace_step(s1, i);
            lemma_trace_step(s2, i);
            let e1 = a.len() + w1.len() + p0;
            let e2 = a.len() + w2.len() + p0;
            assert(step_end(s1, i) == e1);
            assert(step_end(s2, i) == e2);
            assert(step_consumed(s1, i) == Consumed::Whitespace);
            assert(step_consumed(s2, i) == Consumed::Whitespace);
            lemma_trace_translate(a + w1, b, p0);
            lemma_trace_translate(a + w2, b, p0);
            let tb = tokens_of(trace_from(b, p0));
            assert(trace_from(s1, e1) == shift_trace(trace_from(b, p0), (a + w1).len() as int));
            assert(trace_from(s2, e2) == shift_trace(trace_from(b, p0), (a + w2).len() as int));
            lemma_tokens_of_shift_trace(trace_from(b, p0), (a + w1).len() as int);
            lemma_tokens_of_shift_trace(trace_from(b, p0), (a + w2).len() as int);
            lemma_trace_tokens_within(b, p0);
            lemma_shift_compose(tb, cut, w1.len() as int, w2.len() as int, b.len() as int);
            assert(tokens_of(trace_from(s1, i)) =~= tokens_of(trace_from(s1, e1)));
            assert(tokens_of(trace_from(s2, i)) =~= tokens_of(trace_from(s2, e2)));
            assert(tokens_of(trace_from(s1, e1)) == shift_tokens_at(tb, 0, cut + w1.len()));
            assert(tokens_of(trace_from(s2, e2)) == shift_tokens_at(tb, 0, cut + w2.len()));
        }
    }
}

/// Whitespace runs only separate: replacing the non-empty whitespace run
/// between `a` and `b` by any other non-empty whitespace run emits no token
/// for either run and leaves every token identical, except that the spans of
/// the tokens after the run move by the difference of the runs' lengths.
pub proof fn lemma_whitespace_exchange(a: Seq<u8>, w1: Seq<u8>, w2: Seq<u8>, b: Seq<u8>)
    requires
        all_whitespace(w1),
        all_whitespace(w2),
        w1.len() > 0,
        w2.len() > 0,
        a.len() + w1.len() + b.len() <= usize::MAX,
        a.len() + w2.len() + b.len() <= usize::MAX,
    ensures
        spec_tokens(a + w1 + b) == shift_tokens_at(
            spec_tokens(a + w2 + b),
            a.len() as int,
            w1.len() - w2.len(),
        ),
{
    lemma_exchange_from(a, w1, w2, b, 0);
}

} // verus!
