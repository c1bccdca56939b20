//! The parser: turns spanned tokens into spanned statements.
//!
//! A program is a sequence of statements; a statement is `print <expression>` or an
//! expression on its own. Expressions are numbers, characters, parenthesised expressions
//! and binary operations, parsed by precedence climbing: `*` and `/` bind tighter than
//! `+` and `-`, and operators of equal precedence associate to the left.
//! After an erroneous statement the parser goes on with the next token (skipping one
//! token if the statement consumed none), so that all errors are collected.
use vstd::prelude::*;
use vstd::string::*;

use crate::error::{Error, ErrorView};
use crate::lexer::{Token, TokenView};
use crate::text::{decimal, push_decimal};
use crate::{span_of, Spanned};

verus! {

/// A statement.
#[derive(Debug, PartialEq)]
pub enum Statement {
    Print(Box<Spanned<Expression>>),
    Expression(Box<Spanned<Expression>>),
}

/// An expression.
#[derive(Debug, PartialEq)]
pub enum Expression {
    Number(u16),
    Char(u8),
    Binary { left: Box<Spanned<Expression>>, op: Token, right: Box<Spanned<Expression>> },
    Paren(Box<Spanned<Expression>>),
}

/// The parser state: the tokens and the position of the current token.
pub struct Parser {
    pos: usize,
    tokens: Vec<Spanned<Token>>,
}

// ---------------------------------------------------------------------------
// Specification

/// The outcome of parsing a construct at a position: the construct and the position after
/// it, an error and the position reached, or a token on which parsing cannot go on
/// (`Stuck`: a token that cannot start an expression).
pub enum Parsed<T> {
    Done(T, int),
    Failed(ErrorView, int),
    Stuck,
}

/// The binding powers (left, right) of an infix operator.
pub open spec fn binding_power(t: TokenView) -> Option<(u8, u8)> {
    match t {
        TokenView::Add | TokenView::Sub => Some((1u8, 2u8)),
        TokenView::Mul | TokenView::Div => Some((3u8, 4u8)),
        _ => None,
    }
}

/// The operator token kept in a binary expression.
pub open spec fn op_token(t: TokenView) -> Token {
    match t {
        TokenView::Add => Token::Add,
        TokenView::Sub => Token::Sub,
        TokenView::Mul => Token::Mul,
        _ => Token::Div,
    }
}

// What `{:?}` writes for a string: the string between double quotes, with `"`, `\`, control
// characters and the other characters that Rust does not print as they are escaped.
pub uninterp spec fn debug_str(s: Seq<char>) -> Seq<char>;

/// How a token is shown in messages: as `#[derive(Debug)]` shows it.
pub open spec fn token_debug(t: TokenView) -> Seq<char> {
    match t {
        TokenView::Print => "Print"@,
        TokenView::Identifier(s) => "Identifier("@ + debug_str(s) + ")"@,
        TokenView::Number(n) => "Number("@ + decimal(n as nat) + ")"@,
        TokenView::Char(c) => "Char("@ + decimal(c as nat) + ")"@,
        TokenView::Add => "Add"@,
        TokenView::Sub => "Sub"@,
        TokenView::Mul => "Mul"@,
        TokenView::Div => "Div"@,
        TokenView::LParen => "LParen"@,
        TokenView::RParen => "RParen"@,
    }
}

/// The message when something was expected after `context` but the tokens ran out.
pub open spec fn msg_expected_something(context: Seq<char>) -> Seq<char> {
    "Expected something `"@ + context + "`, got EOF"@
}

/// The message when `expected` was expected after `context` but `got` came.
pub open spec fn msg_expected_got(expected: TokenView, context: Seq<char>, got: TokenView) -> Seq<char> {
    "Expected `"@ + token_debug(expected) + "` "@ + context + ", got `"@ + token_debug(got) + "`"@
}

/// The message when `expected` was expected after `context` but the tokens ran out.
pub open spec fn msg_expected_eof(expected: TokenView, context: Seq<char>) -> Seq<char> {
    "Expected `"@ + token_debug(expected) + "` "@ + context + ", got EOF"@
}

pub open spec fn ctx_print() -> Seq<char> { "after `print`"@ }
pub open spec fn ctx_operator() -> Seq<char> { "after operator"@ }
pub open spec fn ctx_lparen() -> Seq<char> { "after `(`"@ }
pub open spec fn ctx_expression() -> Seq<char> { "after expression"@ }

/// The error when nothing follows the token at `pos` (which is the last one).
pub open spec fn eof_after(toks: Seq<Spanned<Token>>, pos: int, context: Seq<char>) -> ErrorView {
    ErrorView {
        msg: msg_expected_something(context),
        start: toks[pos].span.end as int,
        end: toks[pos].span.end as int,
    }
}

pub open spec fn spanned<T>(element: T, start: usize, end: usize) -> Spanned<T> {
    Spanned { element, span: core::ops::Range { start, end } }
}

/// A primary expression (number, character or parenthesised expression) at `pos`.
pub open spec fn parse_primary_spec(toks: Seq<Spanned<Token>>, pos: int) -> Parsed<Spanned<Expression>>
    decreases toks.len() - pos, 1int,
{
    if pos < 0 || pos >= toks.len() {
        Parsed::Stuck
    } else {
        let start = toks[pos].span.start;
        match toks[pos].element@ {
            TokenView::Number(n) => Parsed::Done(spanned(Expression::Number(n), start, toks[pos].span.end), pos + 1),
            TokenView::Char(c) => Parsed::Done(spanned(Expression::Char(c), start, toks[pos].span.end), pos + 1),
            TokenView::LParen => {
                if pos + 1 >= toks.len() {
                    Parsed::Failed(eof_after(toks, pos, ctx_lparen()), pos)
                } else {
                    match parse_bp_spec(toks, pos + 1, 0) {
                        Parsed::Done(inner, p) => {
                            if p >= toks.len() {
                                Parsed::Failed(
                                    ErrorView {
                                        msg: msg_expected_eof(TokenView::RParen, ctx_expression()),
                                        start: toks[p - 1].span.end as int,
                                        end: toks[p - 1].span.end as int,
                                    },
                                    p,
                                )
                            } else if toks[p].element@ is RParen {
                                Parsed::Done(
                                    spanned(Expression::Paren(Box::new(inner)), start, toks[p].span.end),
                                    p + 1,
                                )
                            } else {
                                Parsed::Failed(
                                    ErrorView {
                                        msg: msg_expected_got(TokenView::RParen, ctx_expression(), toks[p].element@),
                                        start: toks[p].span.start as int,
                                        end: toks[p].span.end as int,
                                    },
                                    p,
                                )
                            }
                        },
                        Parsed::Failed(e, p) => Parsed::Failed(e, p),
                        Parsed::Stuck => Parsed::Stuck,
                    }
                }
            },
            _ => Parsed::Stuck,
        }
    }
}

/// An expression at `pos` whose operators all bind at least as tightly as `min_bp`.
pub open spec fn parse_bp_spec(toks: Seq<Spanned<Token>>, pos: int, min_bp: u8) -> Parsed<Spanned<Expression>>
    decreases toks.len() - pos, 2int,
{
    if pos < 0 || pos >= toks.len() {
        Parsed::Stuck
    } else {
        match parse_primary_spec(toks, pos) {
            Parsed::Done(left, p) => {
                if p <= pos || p > toks.len() {
                    Parsed::Stuck
                } else {
                    climb_spec(toks, left, toks[pos].span.start, p, min_bp)
                }
            },
            Parsed::Failed(e, p) => Parsed::Failed(e, p),
            Parsed::Stuck => Parsed::Stuck,
        }
    }
}

/// Extends `left` (which starts at byte `start`) with the operators at `pos` on that bind at
/// least as tightly as `min_bp`.
pub open spec fn climb_spec(
    toks: Seq<Spanned<Token>>,
    left: Spanned<Expression>,
    start: usize,
    pos: int,
    min_bp: u8,
) -> Parsed<Spanned<Expression>>
    decreases toks.len() - pos, 0int,
{
    if pos < 0 || pos >= toks.len() {
        Parsed::Done(left, pos)
    } else {
        match binding_power(toks[pos].element@) {
            None => Parsed::Done(left, pos),
            Some((lbp, rbp)) => {
                if lbp < min_bp {
                    Parsed::Done(left, pos)
                } else if pos + 1 >= toks.len() {
                    Parsed::Failed(eof_after(toks, pos, ctx_operator()), pos)
                } else {
                    match parse_bp_spec(toks, pos + 1, rbp) {
                        Parsed::Done(right, p) => {
                            if p <= pos || p > toks.len() {
                                Parsed::Stuck
                            } else {
                                let end = right.span.end;
                                climb_spec(
                                    toks,
                                    spanned(
                                        Expression::Binary {
                                            left: Box::new(left),
                                            op: op_token(toks[pos].element@),
                                            right: Box::new(right),
                                        },
                                        start,
                                        end,
                                    ),
                                    start,
                                    p,
                                    min_bp,
                                )
                            }
                        },
                        Parsed::Failed(e, p) => Parsed::Failed(e, p),
                        Parsed::Stuck => Parsed::Stuck,
                    }
                }
            },
        }
    }
}

/// A statement at `pos`.
pub open spec fn parse_statement_spec(toks: Seq<Spanned<Token>>, pos: int) -> Parsed<Spanned<Statement>> {
    if pos < 0 || pos >= toks.len() {
        Parsed::Stuck
    } else {
        let start = toks[pos].span.start;
        if toks[pos].element@ is Print {
            if pos + 1 >= toks.len() {
                Parsed::Failed(eof_after(toks, pos, ctx_print()), pos)
            } else {
                match parse_bp_spec(toks, pos + 1, 0) {
                    Parsed::Done(e, p) => if p <= pos + 1 || p > toks.len() {
                        Parsed::Stuck
                    } else {
                        Parsed::Done(spanned(Statement::Print(Box::new(e)), start, toks[p - 1].span.end), p)
                    },
                    Parsed::Failed(e, p) => Parsed::Failed(e, p),
                    Parsed::Stuck => Parsed::Stuck,
                }
            }
        } else {
            match parse_bp_spec(toks, pos, 0) {
                Parsed::Done(e, p) => if p <= pos || p > toks.len() {
                    Parsed::Stuck
                } else {
                    Parsed::Done(spanned(Statement::Expression(Box::new(e)), start, toks[p - 1].span.end), p)
                },
                Parsed::Failed(e, p) => Parsed::Failed(e, p),
                Parsed::Stuck => Parsed::Stuck,
            }
        }
    }
}

/// The statements and the errors of the tokens from `pos` on, or `None` when parsing gets
/// stuck on a token that cannot start an expression.
pub open spec fn parse_from(toks: Seq<Spanned<Token>>, pos: int) -> Option<(Seq<Spanned<Statement>>, Seq<ErrorView>)>
    decreases toks.len() - pos,
{
    if pos < 0 || pos >= toks.len() {
        Some((seq![], seq![]))
    } else {
        match parse_statement_spec(toks, pos) {
            Parsed::Done(s, p) => if p <= pos || p > toks.len() {
                None
            } else {
                match parse_from(toks, p) {
                    Some((ss, es)) => Some((seq![s] + ss, es)),
                    None => None,
                }
            },
            Parsed::Failed(e, p) => {
                let next = if p == pos { pos + 1 } else { p };
                if next <= pos || next > toks.len() {
                    None
                } else {
                    match parse_from(toks, next) {
                        Some((ss, es)) => Some((ss, seq![e] + es)),
                        None => None,
                    }
                }
            },
            Parsed::Stuck => None,
        }
    }
}

} // verus!

verus! {

// ---------------------------------------------------------------------------
// Implementation

/// The outcome of parsing a construct: the construct, an error, or stuck on a token that
/// cannot start an expression.
enum Step<T> {
    Done(T),
    Failed(Error),
    Stuck,
}

/// `r`, with the position `p` reached, is the outcome `s`.
spec fn step_is<T>(r: Step<T>, p: int, s: Parsed<T>) -> bool {
    match s {
        Parsed::Done(v, q) => r == Step::Done(v) && p == q,
        Parsed::Failed(e, q) => (r matches Step::Failed(err) && err@ == e) && p == q,
        Parsed::Stuck => r is Stuck,
    }
}

/// `format!("{:?}", s)`: std's `Debug` rendering of a string, the one that a derived `Debug`
/// writes for a `String` field. The contract claims only that the result is `debug_str` of
/// the string; which characters are escaped, and how, is left unsaid.
#[verifier::external_body]
fn debug_string(s: &str) -> (r: String)
    ensures
        r@ == debug_str(s@),
{
    format!("{:?}", s)
}

/// Appends how `t` is shown in messages.
fn push_token_debug(out: &mut String, t: &Token)
    ensures
        final(out)@ == old(out)@ + token_debug(t@),
{
    match t {
        Token::Print => out.append("Print"),
        Token::Identifier(s) => {
            out.append("Identifier(");
            let d = debug_string(s.as_str());
            out.append(d.as_str());
            out.append(")");
        },
        Token::Number(n) => {
            out.append("Number(");
            push_decimal(out, *n as u64);
            out.append(")");
        },
        Token::Char(c) => {
            out.append("Char(");
            push_decimal(out, *c as u64);
            out.append(")");
        },
        Token::Add => out.append("Add"),
        Token::Sub => out.append("Sub"),
        Token::Mul => out.append("Mul"),
        Token::Div => out.append("Div"),
        Token::LParen => out.append("LParen"),
        Token::RParen => out.append("RParen"),
    }
}

/// Whether two tokens are equal.
fn token_eq(a: &Token, b: &Token) -> (r: bool)
    ensures
        r == (a@ == b@),
{
    match (a, b) {
        (Token::Print, Token::Print) => true,
        (Token::Identifier(x), Token::Identifier(y)) => {
            x.eq(y)
        },
        (Token::Number(x), Token::Number(y)) => *x == *y,
        (Token::Char(x), Token::Char(y)) => *x == *y,
        (Token::Add, Token::Add) => true,
        (Token::Sub, Token::Sub) => true,
        (Token::Mul, Token::Mul) => true,
        (Token::Div, Token::Div) => true,
        (Token::LParen, Token::LParen) => true,
        (Token::RParen, Token::RParen) => true,
        _ => false,
    }
}

fn binding_power_of(op: &Token) -> (r: Option<(u8, u8)>)
    ensures
        r == binding_power(op@),
{
    match op {
        Token::Add | Token::Sub => Some((1, 2)),
        Token::Mul | Token::Div => Some((3, 4)),
        _ => None,
    }
}

fn op_token_of(op: &Token) -> (r: Token)
    requires
        binding_power(op@) is Some,
    ensures
        r == op_token(op@),
{
    match op {
        Token::Add => Token::Add,
        Token::Sub => Token::Sub,
        Token::Mul => Token::Mul,
        _ => Token::Div,
    }
}

impl Parser {
    /// The tokens being parsed.
    pub closed spec fn token_seq(&self) -> Seq<Spanned<Token>> {
        self.tokens@
    }

    /// The position of the current token.
    pub closed spec fn position(&self) -> int {
        self.pos as int
    }

    /// A parser at the first of `tokens`.
    pub fn new(tokens: Vec<Spanned<Token>>) -> (p: Parser)
        ensures
            p.token_seq() == tokens@,
            p.position() == 0,
    {
        Parser { pos: 0, tokens }
    }

    /// The token at `pos`, if any.
    fn current(&self, pos: usize) -> (r: Option<&Spanned<Token>>)
        ensures
            pos < self.tokens@.len() ==> r == Some(&self.tokens@[pos as int]),
            pos >= self.tokens@.len() ==> r is None,
    {
        if pos < self.tokens.len() {
            Some(&self.tokens[pos])
        } else {
            None
        }
    }

    /// The token after the one at `pos`, if any.
    fn peek(&self, pos: usize) -> (r: Option<&Spanned<Token>>)
        ensures
            pos + 1 < self.tokens@.len() ==> r == Some(&self.tokens@[pos + 1]),
            pos + 1 >= self.tokens@.len() ==> r is None,
    {
        if pos < self.tokens.len() && pos + 1 < self.tokens.len() {
            Some(&self.tokens[pos + 1])
        } else {
            None
        }
    }

    /// The token before the one at `pos`.
    fn previous(&self, pos: usize) -> (r: &Spanned<Token>)
        requires
            0 < pos <= self.tokens@.len(),
        ensures
            r == &self.tokens@[pos - 1],
    {
        &self.tokens[pos - 1]
    }

    /// Checks that a token follows the current one (at `pos`), without advancing.
    fn expect_some(&self, pos: usize, context: &str) -> (r: Result<&Spanned<Token>, Error>)
        requires
            pos < self.tokens@.len(),
        ensures
            match r {
                Ok(t) => pos + 1 < self.tokens@.len() && t == &self.tokens@[pos + 1],
                Err(e) => pos + 1 >= self.tokens@.len() && e@ == eof_after(self.tokens@, pos as int, context@),
            },
    {
        match self.peek(pos) {
            Some(t) => Ok(t),
            None => {
                let current = &self.tokens[pos];
                let mut msg = "Expected something `".to_owned();
                msg.append(context);
                msg.append("`, got EOF");
                Err(Error::new(msg, span_of(current.span.end, current.span.end)))
            },
        }
    }

    /// Checks that the token after the current one (at `pos`) is `expected`, without advancing.
    #[allow(unused)]
    fn expect(&self, pos: usize, expected: &Token, context: &str) -> (r: Result<&Spanned<Token>, Error>)
        requires
            pos < self.tokens@.len(),
        ensures
            match r {
                Ok(t) => pos + 1 < self.tokens@.len() && t == &self.tokens@[pos + 1] && t.element@ == expected@,
                Err(e) => if pos + 1 < self.tokens@.len() {
                    &&& self.tokens@[pos + 1].element@ != expected@
                    &&& e@.msg == msg_expected_got(expected@, context@, self.tokens@[pos + 1].element@)
                    &&& e@.start == self.tokens@[pos + 1].span.start
                    &&& e@.end == self.tokens@[pos + 1].span.end
                } else {
                    &&& e@.msg == "Expected "@ + token_debug(expected@) + " "@ + context@ + ", got EOF"@
                    &&& e@.start == self.tokens@[pos as int].span.start
                    &&& e@.end == self.tokens@[pos as int].span.end
                },
            },
    {
        match self.peek(pos) {
            Some(t) => {
                if token_eq(&t.element, expected) {
                    Ok(t)
                } else {
                    let mut msg = "Expected `".to_owned();
                    push_token_debug(&mut msg, expected);
                    msg.append("` ");
                    msg.append(context);
                    msg.append(", got `");
                    push_token_debug(&mut msg, &t.element);
                    msg.append("`");
                    Err(Error::new(msg, span_of(t.span.start, t.span.end)))
                }
            },
            None => {
                let current = &self.tokens[pos];
                let mut msg = "Expected ".to_owned();
                push_token_debug(&mut msg, expected);
                msg.append(" ");
                msg.append(context);
                msg.append(", got EOF");
                assert(msg@ =~= "Expected "@ + token_debug(expected@) + " "@ + context@ + ", got EOF"@);
                Err(Error::new(msg, span_of(current.span.start, current.span.end)))
            },
        }
    }

    /// Checks that the current token (at `pos`) is `expected`, without advancing.
    fn expect_current(&self, pos: usize, expected: &Token, context: &str) -> (r: Result<&Spanned<Token>, Error>)
        requires
            0 < pos <= self.tokens@.len(),
        ensures
            match r {
                Ok(t) => pos < self.tokens@.len() && t == &self.tokens@[pos as int] && t.element@ == expected@,
                Err(e) => if pos < self.tokens@.len() {
                    &&& self.tokens@[pos as int].element@ != expected@
                    &&& e@.msg == msg_expected_got(expected@, context@, self.tokens@[pos as int].element@)
                    &&& e@.start == self.tokens@[pos as int].span.start
                    &&& e@.end == self.tokens@[pos as int].span.end
                } else {
                    &&& e@.msg == msg_expected_eof(expected@, context@)
                    &&& e@.start == self.tokens@[pos - 1].span.end
                    &&& e@.end == self.tokens@[pos - 1].span.end
                },
            },
    {
        match self.current(pos) {
            Some(t) => {
                if token_eq(&t.element, expected) {
                    Ok(t)
                } else {
                    let mut msg = "Expected `".to_owned();
                    push_token_debug(&mut msg, expected);
                    msg.append("` ");
                    msg.append(context);
                    msg.append(", got `");
                    push_token_debug(&mut msg, &t.element);
                    msg.append("`");
                    Err(Error::new(msg, span_of(t.span.start, t.span.end)))
                }
            },
            None => {
                let end = self.previous(pos).span.end;
                let mut msg = "Expected `".to_owned();
                push_token_debug(&mut msg, expected);
                msg.append("` ");
                msg.append(context);
                msg.append(", got EOF");
                Err(Error::new(msg, span_of(end, end)))
            },
        }
    }

    /// A primary expression at `pos`, and the position after it.
    fn parse_primary(&self, pos: usize) -> (r: (Step<Spanned<Expression>>, usize))
        requires
            pos < self.tokens@.len(),
        ensures
            step_is(r.0, r.1 as int, parse_primary_spec(self.tokens@, pos as int)),
            pos <= r.1 <= self.tokens@.len(),
            r.0 is Done ==> pos < r.1,
        decreases self.tokens@.len() - pos, 1int,
    {
        let _len = self.tokens.len();
        let start = self.tokens[pos].span.start;
        let end = self.tokens[pos].span.end;
        match &self.tokens[pos].element {
            Token::Number(n) => (Step::Done(Spanned { element: Expression::Number(*n), span: span_of(start, end) }), pos + 1),
            Token::Char(c) => (Step::Done(Spanned { element: Expression::Char(*c), span: span_of(start, end) }), pos + 1),
            Token::LParen => {
                if let Err(e) = self.expect_some(pos, "after `(`") {
                    return (Step::Failed(e), pos);
                }
                let (inner, p) = self.parse_expression(pos + 1);
                match inner {
                    Step::Done(inner) => {
                        match self.expect_current(p, &Token::RParen, "after expression") {
                            Ok(close) => {
                                let close_end = close.span.end;
                                (Step::Done(Spanned { element: Expression::Paren(Box::new(inner)), span: span_of(start, close_end) }), p + 1)
                            },
                            Err(e) => (Step::Failed(e), p),
                        }
                    },
                    Step::Failed(e) => (Step::Failed(e), p),
                    Step::Stuck => (Step::Stuck, p),
                }
            },
            _ => (Step::Stuck, pos),
        }
    }

    /// An expression at `pos` (a position holding a token), and the position after it.
    fn parse_expression(&self, pos: usize) -> (r: (Step<Spanned<Expression>>, usize))
        requires
            pos < self.tokens@.len(),
        ensures
            step_is(r.0, r.1 as int, parse_bp_spec(self.tokens@, pos as int, 0)),
            pos <= r.1 <= self.tokens@.len(),
            r.0 is Done ==> pos < r.1,
        decreases self.tokens@.len() - pos, 3int,
    {
        self.parse_expression_bp(pos, 0)
    }

    /// An expression at `pos` whose operators bind at least as tightly as `min_bp`.
    fn parse_expression_bp(&self, pos: usize, min_bp: u8) -> (r: (Step<Spanned<Expression>>, usize))
        requires
            pos < self.tokens@.len(),
        ensures
            step_is(r.0, r.1 as int, parse_bp_spec(self.tokens@, pos as int, min_bp)),
            pos <= r.1 <= self.tokens@.len(),
            r.0 is Done ==> pos < r.1,
        decreases self.tokens@.len() - pos, 2int,
    {
        let ghost toks = self.tokens@;
        let _len = self.tokens.len();
        let start = self.tokens[pos].span.start;
        let (first, p0) = self.parse_primary(pos);
        let mut left = match first {
            Step::Done(left) => left,
            Step::Failed(e) => { return (Step::Failed(e), p0); },
            Step::Stuck => { return (Step::Stuck, p0); },
        };
        let mut p = p0;
        loop
            invariant
                toks == self.tokens@,
                toks.len() <= usize::MAX,
                pos < p <= toks.len(),
                start == toks[pos as int].span.start,
                climb_spec(toks, left, start, p as int, min_bp) == parse_bp_spec(toks, pos as int, min_bp),
            decreases toks.len() - p,
        {
            let op_tok = match self.current(p) {
                Some(t) => t,
                None => { return (Step::Done(left), p); },
            };
            let (lbp, rbp) = match binding_power_of(&op_tok.element) {
                Some(bp) => bp,
                None => { return (Step::Done(left), p); },
            };
            if lbp < min_bp {
                return (Step::Done(left), p);
            }
            if let Err(e) = self.expect_some(p, "after operator") {
                return (Step::Failed(e), p);
            }
            let (rhs, p2) = self.parse_expression_bp(p + 1, rbp);
            match rhs {
                Step::Done(right) => {
                    let end = right.span.end;
                    let op = op_token_of(&op_tok.element);
                    left = Spanned {
                        element: Expression::Binary { left: Box::new(left), op, right: Box::new(right) },
                        span: span_of(start, end),
                    };
                    p = p2;
                },
                Step::Failed(e) => { return (Step::Failed(e), p2); },
                Step::Stuck => { return (Step::Stuck, p2); },
            }
        }
    }

    /// Reads `print` and its expression; `pos` holds the `print` token.
    fn read_print(&self, pos: usize) -> (r: (Step<Statement>, usize))
        requires
            pos < self.tokens@.len(),
            self.tokens@[pos as int].element@ is Print,
        ensures
            pos <= r.1 <= self.tokens@.len(),
            r.0 is Done ==> pos + 1 < r.1,
            match parse_statement_spec(self.tokens@, pos as int) {
                Parsed::Done(s, q) => r.0 == Step::Done(s.element) && r.1 == q,
                Parsed::Failed(e, q) => (r.0 matches Step::Failed(err) && err@ == e) && r.1 == q,
                Parsed::Stuck => r.0 is Stuck,
            },
    {
        let _len = self.tokens.len();
        if let Err(e) = self.expect_some(pos, "after `print`") {
            return (Step::Failed(e), pos);
        }
        let (e, p) = self.parse_expression(pos + 1);
        match e {
            Step::Done(e) => (Step::Done(Statement::Print(Box::new(e))), p),
            Step::Failed(err) => (Step::Failed(err), p),
            Step::Stuck => (Step::Stuck, p),
        }
    }

    /// A statement at `pos`, and the position after it.
    fn parse_statement(&self, pos: usize) -> (r: (Step<Spanned<Statement>>, usize))
        requires
            pos < self.tokens@.len(),
        ensures
            step_is(r.0, r.1 as int, parse_statement_spec(self.tokens@, pos as int)),
            pos <= r.1 <= self.tokens@.len(),
            r.0 is Done ==> pos < r.1,
    {
        let span_start = self.tokens[pos].span.start;
        let (statement, p) = match &self.tokens[pos].element {
            Token::Print => self.read_print(pos),
            _ => {
                let (e, p) = self.parse_expression(pos);
                match e {
                    Step::Done(e) => (Step::Done(Statement::Expression(Box::new(e))), p),
                    Step::Failed(err) => (Step::Failed(err), p),
                    Step::Stuck => (Step::Stuck, p),
                }
            },
        };
        match statement {
            Step::Done(s) => {
                let span_end = self.previous(p).span.end;
                (Step::Done(Spanned { element: s, span: span_of(span_start, span_end) }), p)
            },
            Step::Failed(e) => (Step::Failed(e), p),
            Step::Stuck => (Step::Stuck, p),
        }
    }

    /// Parses the statements from the current position on; `None` when a token that cannot
    /// start an expression stands where an expression must begin.
    ///
    /// Otherwise the statements when there was no error, or all the errors, in order.
    pub fn try_parse(&mut self) -> (r: Option<Result<Vec<Spanned<Statement>>, Vec<Error>>>)
        ensures
            final(self).token_seq() == old(self).token_seq(),
            r is Some ==> final(self).position() == (if old(self).position() < old(self).token_seq().len() {
                old(self).token_seq().len() as int
            } else {
                old(self).position()
            }),
            match parse_from(old(self).token_seq(), old(self).position()) {
                None => r is None,
                Some((ss, es)) => r is Some && match r.unwrap() {
                    Ok(v) => es.len() == 0 && v@ == ss,
                    Err(errs) => es.len() > 0 && errs@.len() == es.len()
                        && forall|k: int| 0 <= k < es.len() ==> #[trigger] errs@[k]@ == es[k],
                },
            },
    {
        let ghost toks = self.tokens@;
        let ghost all = parse_from(toks, self.pos as int);
        let mut statements: Vec<Spanned<Statement>> = Vec::new();
        let mut errors: Vec<Error> = Vec::new();
        let ghost mut errs: Seq<ErrorView> = seq![];
        if self.pos >= self.tokens.len() {
            return Some(Ok(statements));
        }
        while self.pos < self.tokens.len()
            invariant
                toks == self.tokens@,
                toks == old(self).tokens@,
                all == parse_from(old(self).tokens@, old(self).pos as int),
                parse_from(toks, self.pos as int) matches Some((ss, es))
                    ==> all == Some((statements@ + ss, errs + es)),
                parse_from(toks, self.pos as int) is None ==> all is None,
                errors@.len() == errs.len(),
                forall|k: int| 0 <= k < errs.len() ==> #[trigger] errors@[k]@ == errs[k],
                old(self).pos < toks.len(),
                self.pos <= toks.len(),
            decreases toks.len() - self.pos,
        {
            let pos_before = self.pos;
            let (r, p) = self.parse_statement(pos_before);
            match r {
                Step::Done(s) => {
                    statements.push(s);
                    self.pos = p;
                },
                Step::Failed(e) => {
                    proof { errs = errs.push(e@); }
                    errors.push(e);
                    self.pos = p;
                    if self.pos == pos_before {
                        self.advance();
                    }
                },
                Step::Stuck => {
                    assert(parse_from(toks, pos_before as int) is None);
                    return None;
                },
            }
        }
        if errors.len() == 0 {
            Some(Ok(statements))
        } else {
            Some(Err(errors))
        }
    }

    fn advance(&mut self)
        requires
            old(self).pos < usize::MAX,
        ensures
            final(self).pos == old(self).pos + 1,
            final(self).tokens == old(self).tokens,
    {
        self.pos = self.pos + 1;
    }

    /// Parses the statements from the current position on: the statements when there was no
    /// error, or all the errors, in order.
    pub fn parse(&mut self) -> (r: Result<Vec<Spanned<Statement>>, Vec<Error>>)
        requires
            parse_from(old(self).token_seq(), old(self).position()) is Some,
        ensures
            final(self).token_seq() == old(self).token_seq(),
            final(self).position() == (if old(self).position() < old(self).token_seq().len() {
                old(self).token_seq().len() as int
            } else {
                old(self).position()
            }),
            match parse_from(old(self).token_seq(), old(self).position()) {
                None => false,
                Some((ss, es)) => match r {
                    Ok(v) => es.len() == 0 && v@ == ss,
                    Err(errs) => es.len() > 0 && errs@.len() == es.len()
                        && forall|k: int| 0 <= k < es.len() ==> #[trigger] errs@[k]@ == es[k],
                },
            },
    {
        match self.try_parse() {
            Some(r) => r,
            None => Ok(Vec::new()),
        }
    }

    /// Gives back the tokens.
    pub fn into_tokens(self) -> (t: Vec<Spanned<Token>>)
        ensures
            t@ == self.token_seq(),
    {
        self.tokens
    }
}

} // verus!
