use neg_c::lexer::{tokenize, Token};
use neg_c::parser::{Expression, Parser, Statement};

fn parse_src(src: &str) -> Option<Result<Vec<neg_c::Spanned<Statement>>, Vec<neg_c::error::Error>>> {
    Parser::new(tokenize(src).unwrap()).try_parse()
}

#[test]
fn statement_spans_cover_their_tokens() {
    let stmts = parse_src("print 1 + 2  (3)").unwrap().unwrap();
    assert_eq!(stmts.len(), 2);
    assert_eq!(stmts[0].span, 0..11);
    assert_eq!(stmts[1].span, 13..16);
    match &stmts[1].element {
        Statement::Expression(e) => {
            assert_eq!(e.span, 13..16);
            match &e.element {
                Expression::Paren(inner) => assert_eq!(inner.span, 14..15),
                _ => panic!("expected a parenthesised expression"),
            }
        },
        _ => panic!("expected an expression statement"),
    }
}

#[test]
fn parses_char_literal_expression() {
    let stmts = parse_src("print 'z'").unwrap().unwrap();
    match &stmts[0].element {
        Statement::Print(e) => assert_eq!(e.element, Expression::Char(122)),
        _ => panic!("expected a print statement"),
    }
}

#[test]
fn binary_spans_run_from_left_to_right_operand() {
    let stmts = parse_src("1 * 2 + 3").unwrap().unwrap();
    match &stmts[0].element {
        Statement::Expression(e) => {
            assert_eq!(e.span, 0..9);
            match &e.element {
                Expression::Binary { left, op, right } => {
                    assert_eq!(*op, Token::Add);
                    assert_eq!(left.span, 0..5);
                    assert_eq!(right.span, 8..9);
                },
                _ => panic!("expected a binary expression"),
            }
        },
        _ => panic!("expected an expression statement"),
    }
}

#[test]
fn missing_paren_reports_the_token_found() {
    let errs = parse_src("(1 2").unwrap().unwrap_err();
    assert_eq!(errs.len(), 1);
    assert_eq!(errs[0].msg(), "Expected `RParen` after expression, got `Number(2)`");
    assert_eq!((errs[0].start(), errs[0].end()), (3, 4));
}

#[test]
fn errors_are_collected_and_parsing_goes_on() {
    let errs = parse_src("print (1 print").unwrap().unwrap_err();
    assert_eq!(errs.len(), 2);
    assert_eq!(errs[0].msg(), "Expected `RParen` after expression, got `Print`");
    assert_eq!(errs[1].msg(), "Expected something `after `print``, got EOF");
}

#[test]
fn try_parse_is_none_when_stuck() {
    assert!(parse_src("print )").is_none());
    assert!(parse_src("x").is_none());
}

#[test]
fn parser_gives_its_tokens_back() {
    let toks = tokenize("print 5").unwrap();
    let mut p = Parser::new(toks);
    let _ = p.try_parse();
    let back: Vec<Token> = p.into_tokens().into_iter().map(|t| t.element).collect();
    assert_eq!(back, vec![Token::Print, Token::Number(5)]);
}

#[test]
fn parsing_again_finds_nothing_left() {
    let mut p = Parser::new(tokenize("print 1 2").unwrap());
    assert_eq!(p.try_parse().unwrap().unwrap().len(), 2);
    assert_eq!(p.try_parse().unwrap().unwrap().len(), 0);
    assert_eq!(p.parse().unwrap().len(), 0);
}
