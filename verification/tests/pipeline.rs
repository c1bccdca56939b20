use neg_c::error::Error;
use neg_c::lexer::Token;
use neg_c::{compile, get_file_name, Outcome};

fn assembly(src: &str) -> String {
    match compile(src) {
        Outcome::Compiled(c) => c.assembly,
        _ => panic!("expected the source to compile"),
    }
}

#[test]
fn compile_print_char_gives_out_of_its_code() {
    assert_eq!(assembly("print 'e'"), "LD r7, 16384\nLD r0, 101\nOUT r0\n");
}

#[test]
fn compile_empty_source_gives_only_the_spill_base() {
    assert_eq!(assembly(""), "LD r7, 16384\n");
    assert_eq!(assembly("  \n\t "), "LD r7, 16384\n");
}

#[test]
fn compile_keeps_every_stage() {
    match compile("print 1 + 2") {
        Outcome::Compiled(c) => {
            let tokens: Vec<Token> = c.tokens.iter().map(|t| t.element.clone()).collect();
            assert_eq!(tokens, vec![Token::Print, Token::Number(1), Token::Add, Token::Number(2)]);
            assert_eq!(c.statements.len(), 1);
            assert_eq!(c.statements[0].span, 0..11);
            assert!(!c.ir.is_empty());
            assert!(c.assembly.starts_with("LD r7, 16384\n"));
            assert!(c.assembly.contains("ADD "));
            assert!(c.assembly.contains("\ndec_push_1:\n"));
        },
        _ => panic!("expected the source to compile"),
    }
}

#[test]
fn compile_reports_every_unknown_character() {
    match compile("print $ 1 @") {
        Outcome::LexFailed(errs) => {
            assert_eq!(errs.len(), 2);
            assert_eq!(errs[0].msg(), "Unexpected character(s)");
            assert_eq!((errs[0].start(), errs[0].end()), (6, 7));
            assert_eq!((errs[1].start(), errs[1].end()), (10, 11));
        },
        _ => panic!("expected lexing errors"),
    }
}

#[test]
fn compile_reports_number_overflow_over_the_whole_number() {
    match compile("print 70000") {
        Outcome::LexFailed(errs) => {
            assert_eq!(errs.len(), 1);
            assert_eq!((errs[0].start(), errs[0].end()), (6, 11));
        },
        _ => panic!("expected a lexing error"),
    }
}

#[test]
fn compile_reports_parse_errors() {
    match compile("print") {
        Outcome::ParseFailed(tokens, errs) => {
            assert_eq!(tokens.len(), 1);
            assert_eq!(errs.len(), 1);
            assert_eq!(errs[0].msg(), "Expected something `after `print``, got EOF");
            assert_eq!((errs[0].start(), errs[0].end()), (5, 5));
        },
        _ => panic!("expected a parse error"),
    }
}

#[test]
fn compile_reports_a_missing_closing_paren() {
    match compile("print (1 + 2") {
        Outcome::ParseFailed(_, errs) => {
            assert_eq!(errs.len(), 1);
            assert_eq!(errs[0].msg(), "Expected `RParen` after expression, got EOF");
            assert_eq!((errs[0].start(), errs[0].end()), (12, 12));
        },
        _ => panic!("expected a parse error"),
    }
}

#[test]
fn compile_reports_a_lone_open_paren() {
    match compile("(") {
        Outcome::ParseFailed(_, errs) => {
            assert_eq!(errs.len(), 1);
            assert_eq!(errs[0].msg(), "Expected something `after `(``, got EOF");
            assert_eq!((errs[0].start(), errs[0].end()), (1, 1));
        },
        _ => panic!("expected a parse error"),
    }
}

#[test]
fn compile_is_stuck_after_a_dangling_operator() {
    // parsing resumes at the operator, which cannot start an expression
    assert!(matches!(compile("1 +"), Outcome::Stuck(_)));
    assert!(matches!(compile("print 1 +"), Outcome::Stuck(_)));
}

#[test]
fn compile_is_stuck_on_a_token_that_starts_no_expression() {
    assert!(matches!(compile(")"), Outcome::Stuck(_)));
    assert!(matches!(compile("print +"), Outcome::Stuck(_)));
    assert!(matches!(compile("foo"), Outcome::Stuck(_)));
}

#[test]
fn file_name_of_nc_file() {
    assert_eq!(get_file_name("main.nc"), Some("main"));
    assert_eq!(get_file_name("dir/prog.nc"), Some("dir/prog"));
    assert_eq!(get_file_name(".nc"), Some(""));
}

#[test]
fn file_name_of_other_file() {
    assert_eq!(get_file_name("main.rs"), None);
    assert_eq!(get_file_name("main.NC"), None);
    assert_eq!(get_file_name("abc"), None);
}

#[test]
fn error_keeps_message_and_span() {
    let e = Error::new("something went wrong".to_string(), 3..9);
    assert_eq!(e.msg(), "something went wrong");
    assert_eq!(e.start(), 3);
    assert_eq!(e.end(), 9);
}
