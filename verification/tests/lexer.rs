use c_compiler::tokens::{
    tokenize, tokenize_rendered, tokenize_with_warnings, Identifier, Integer, IntegerKind,
    Keyword, Literal, Pair, PairSide, Span, Token, UnrecognizedUnit,
};

fn span(start: usize, end: usize) -> Span {
    Span { start, end }
}

fn ident(start: usize, end: usize) -> Token {
    Token::Identifier(Identifier(span(start, end)))
}

fn decimal(start: usize, end: usize) -> Token {
    Token::Literal(Literal::Integer(Integer {
        span: span(start, end),
        kind: IntegerKind::Decimal,
    }))
}

#[test]
fn empty_input() {
    let source: Vec<u8> = Vec::new();
    let (stream, warnings) = tokenize_with_warnings(&source);
    assert_eq!(stream, Vec::new());
    assert_eq!(warnings, Vec::new());
}

#[test]
fn whitespace_only_input() {
    let source = b"   \n\t ".to_vec();
    let (stream, warnings) = tokenize_with_warnings(&source);
    assert_eq!(stream, Vec::new());
    assert_eq!(warnings, Vec::new());
}

#[test]
fn all_whitespace_kinds_input() {
    let source = vec![32u8, 9, 10, 11, 12, 13];
    let (stream, warnings) = tokenize_with_warnings(&source);
    assert_eq!(stream, Vec::new());
    assert_eq!(warnings, Vec::new());
}

#[test]
fn canonical_program() {
    let source = b"int main() { return 0; }".to_vec();
    let stream = tokenize(&source);
    let expected = vec![
        Token::Keyword(Keyword::Int),
        ident(4, 8),
        Token::Pair(Pair::Parentheses(PairSide::Opening)),
        Token::Pair(Pair::Parentheses(PairSide::Closing)),
        Token::Pair(Pair::Braces(PairSide::Opening)),
        Token::Keyword(Keyword::Return),
        decimal(20, 21),
        Token::Semicolon,
        Token::Pair(Pair::Braces(PairSide::Closing)),
    ];
    assert_eq!(stream, expected);
}

#[test]
fn canonical_program_has_no_warnings() {
    let source = b"int main() { return 0; }".to_vec();
    let (_, warnings) = tokenize_with_warnings(&source);
    assert_eq!(warnings, Vec::new());
}

#[test]
fn maximal_munch_integer() {
    let source = b"integer".to_vec();
    let stream = tokenize(&source);
    assert_eq!(stream, vec![ident(0, 7)]);
}

#[test]
fn maximal_munch_return_value() {
    let source = b"returnValue".to_vec();
    let stream = tokenize(&source);
    assert_eq!(stream, vec![ident(0, 11)]);
}

#[test]
fn exact_keyword_spellings() {
    let stream = tokenize(&b"int return".to_vec());
    assert_eq!(
        stream,
        vec![Token::Keyword(Keyword::Int), Token::Keyword(Keyword::Return)]
    );
}

#[test]
fn keyword_prefix_is_identifier() {
    assert_eq!(tokenize(&b"in".to_vec()), vec![ident(0, 2)]);
    assert_eq!(tokenize(&b"intx".to_vec()), vec![ident(0, 4)]);
    assert_eq!(tokenize(&b"ret".to_vec()), vec![ident(0, 3)]);
}

#[test]
fn unrecognized_recovery() {
    let source = b"int x @ return;".to_vec();
    let (stream, warnings) = tokenize_with_warnings(&source);
    let expected = vec![
        Token::Keyword(Keyword::Int),
        ident(4, 5),
        Token::Keyword(Keyword::Return),
        Token::Semicolon,
    ];
    assert_eq!(stream, expected);
    assert_eq!(
        warnings,
        vec![UnrecognizedUnit { position: 6, unit: b'@' }]
    );
}

#[test]
fn underscore_cannot_start_identifier() {
    let source = b"_x".to_vec();
    let (stream, warnings) = tokenize_with_warnings(&source);
    assert_eq!(stream, vec![ident(1, 2)]);
    assert_eq!(
        warnings,
        vec![UnrecognizedUnit { position: 0, unit: b'_' }]
    );
}

#[test]
fn identifier_may_continue_with_digits_and_underscores() {
    let source = b"x_1y".to_vec();
    assert_eq!(tokenize(&source), vec![ident(0, 4)]);
}

#[test]
fn digit_run_is_one_decimal_literal() {
    let source = b"007".to_vec();
    assert_eq!(tokenize(&source), vec![decimal(0, 3)]);
}

#[test]
fn digits_then_letters_split() {
    let source = b"0d12".to_vec();
    assert_eq!(tokenize(&source), vec![decimal(0, 1), ident(1, 4)]);
}

#[test]
fn brackets_are_reserved_and_unrecognized() {
    let source = b"[ ]".to_vec();
    let (stream, warnings) = tokenize_with_warnings(&source);
    assert_eq!(stream, Vec::new());
    assert_eq!(
        warnings,
        vec![
            UnrecognizedUnit { position: 0, unit: b'[' },
            UnrecognizedUnit { position: 2, unit: b']' },
        ]
    );
}

#[test]
fn whitespace_runs_collapse() {
    let narrow = b"a b".to_vec();
    let wide = b"a \t\n\r  b".to_vec();
    let narrow_tokens = tokenize(&narrow);
    let wide_tokens = tokenize(&wide);
    assert_eq!(narrow_tokens.len(), 2);
    assert_eq!(wide_tokens.len(), 2);
    assert_eq!(narrow_tokens[0], wide_tokens[0]);
    assert_eq!(narrow_tokens[0], ident(0, 1));
    assert_eq!(narrow_tokens[1], ident(2, 3));
    assert_eq!(wide_tokens[1], ident(7, 8));
    assert_eq!(tokenize_rendered(&narrow), tokenize_rendered(&wide));
}

#[test]
fn rendered_canonical_program() {
    let source = b"int main() { return 0; }".to_vec();
    let rendered = tokenize_rendered(&source);
    let expected: Vec<Vec<u8>> = vec![
        b"int".to_vec(),
        b"main".to_vec(),
        b"(".to_vec(),
        b")".to_vec(),
        b"{".to_vec(),
        b"return".to_vec(),
        b"0".to_vec(),
        b";".to_vec(),
        b"}".to_vec(),
    ];
    assert_eq!(rendered, expected);
}

#[test]
fn render_each_token_kind() {
    let source = b"count 42;".to_vec();
    let stream = tokenize(&source);
    assert_eq!(stream.len(), 3);
    assert_eq!(stream[0].render(&source), b"count".to_vec());
    assert_eq!(stream[1].render(&source), b"42".to_vec());
    assert_eq!(stream[2].render(&source), b";".to_vec());
    assert_eq!(Keyword::Int.render(), b"int".to_vec());
    assert_eq!(Keyword::Return.render(), b"return".to_vec());
    assert_eq!(Pair::Braces(PairSide::Opening).render(), b"{".to_vec());
    assert_eq!(Pair::Braces(PairSide::Closing).render(), b"}".to_vec());
    assert_eq!(Pair::Parentheses(PairSide::Opening).render(), b"(".to_vec());
    assert_eq!(Pair::Parentheses(PairSide::Closing).render(), b")".to_vec());
    assert_eq!(Pair::Brackets(PairSide::Opening).render(), b"[".to_vec());
    assert_eq!(Pair::Brackets(PairSide::Closing).render(), b"]".to_vec());
}

#[test]
fn round_trip_rebuilds_source() {
    // Token renderings plus skipped ranges rebuild the buffer; with no
    // whitespace and no unrecognized bytes the renderings alone do.
    let source = b"int(main){return;}".to_vec();
    let (stream, warnings) = tokenize_with_warnings(&source);
    assert_eq!(warnings, Vec::new());
    let mut rebuilt: Vec<u8> = Vec::new();
    for piece in tokenize_rendered(&source) {
        rebuilt.extend_from_slice(&piece);
    }
    assert_eq!(rebuilt, source);
    assert_eq!(stream.len(), 8);
}

#[test]
fn token_from_conversions() {
    assert_eq!(
        Token::from(Keyword::Int),
        Token::Keyword(Keyword::Int)
    );
    let lit = Literal::Integer(Integer {
        span: span(0, 1),
        kind: IntegerKind::Decimal,
    });
    assert_eq!(Token::from(lit), Token::Literal(lit));
    let p = Pair::Braces(PairSide::Opening);
    assert_eq!(Token::from(p), Token::Pair(p));
    let id = Identifier(span(0, 1));
    assert_eq!(Token::from(id), Token::Identifier(id));
}

#[test]
fn spans_never_overlap_and_increase() {
    let source = b"int a1 = 5; return a1;".to_vec();
    let stream = tokenize(&source);
    let mut last_end = 0usize;
    for t in &stream {
        let sp = match t {
            Token::Identifier(id) => Some(id.0),
            Token::Literal(Literal::Integer(n)) => Some(n.span),
            _ => None,
        };
        if let Some(sp) = sp {
            assert!(sp.start >= last_end);
            assert!(sp.start < sp.end);
            assert!(sp.end <= source.len());
            last_end = sp.end;
        }
    }
}
