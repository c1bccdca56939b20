use neg_c::lexer::{tokenize, Token};

fn spans(src: &str) -> Vec<(Token, usize, usize)> {
    tokenize(src).unwrap().into_iter().map(|t| (t.element, t.span.start, t.span.end)).collect()
}

fn error_spans(src: &str) -> Vec<(usize, usize)> {
    match tokenize(src) {
        Ok(_) => panic!("expected lexing errors"),
        Err(errs) => errs.iter().map(|e| {
            assert_eq!(e.msg(), "Unexpected character(s)");
            (e.start(), e.end())
        }).collect(),
    }
}

#[test]
fn lexes_operators_and_parens() {
    assert_eq!(spans("+-*/()"), vec![
        (Token::Add, 0, 1), (Token::Sub, 1, 2), (Token::Mul, 2, 3),
        (Token::Div, 3, 4), (Token::LParen, 4, 5), (Token::RParen, 5, 6),
    ]);
}

#[test]
fn lexes_char_literal() {
    assert_eq!(spans("'a'"), vec![(Token::Char(97), 0, 3)]);
    assert_eq!(spans("print ' '"), vec![(Token::Print, 0, 5), (Token::Char(32), 6, 9)]);
}

#[test]
fn rejects_quote_as_char_literal() {
    assert_eq!(error_spans("'''"), vec![(0, 1), (1, 2), (2, 3)]);
}

#[test]
fn lexes_identifiers_and_keyword() {
    assert_eq!(spans("printx print _a"), vec![
        (Token::Identifier("printx".to_string()), 0, 6),
        (Token::Print, 7, 12),
        (Token::Identifier("_a".to_string()), 13, 15),
    ]);
}

#[test]
fn skips_all_whitespace() {
    assert_eq!(spans(" \t\r\n\x0c1"), vec![(Token::Number(1), 5, 6)]);
    assert_eq!(spans(""), vec![]);
}

#[test]
fn number_prefix_without_digits_is_a_zero_then_a_word() {
    assert_eq!(spans("0x"), vec![(Token::Number(0), 0, 1), (Token::Identifier("x".to_string()), 1, 2)]);
    assert_eq!(spans("0b2"), vec![
        (Token::Number(0), 0, 1), (Token::Identifier("b".to_string()), 1, 2), (Token::Number(2), 2, 3),
    ]);
}

#[test]
fn leading_zeros_are_decimal() {
    assert_eq!(spans("007"), vec![(Token::Number(7), 0, 3)]);
}

#[test]
fn spans_count_bytes_of_multibyte_text() {
    assert_eq!(error_spans("é 1"), vec![(0, 2)]);
    assert_eq!(error_spans("1 €"), vec![(2, 5)]);
}

#[test]
fn reports_each_bad_lexeme_in_order() {
    assert_eq!(error_spans("# 1 70000 $"), vec![(0, 1), (4, 9), (10, 11)]);
    assert_eq!(error_spans("0b10000000000000000"), vec![(0, 19)]);
}

#[test]
fn token_spans_are_ordered_and_nonempty() {
    let toks = tokenize("print (12+0x3) * 'c' / 0B11").unwrap();
    for t in &toks {
        assert!(t.span.start < t.span.end);
    }
    for w in toks.windows(2) {
        assert!(w[0].span.end <= w[1].span.start);
    }
    assert!(toks.last().unwrap().span.end <= "print (12+0x3) * 'c' / 0B11".len());
}
