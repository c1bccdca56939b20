//! Laws of the parser: what it parses gives back the tokens it read, and respects the
//! precedence and associativity of the operators.
use vstd::prelude::*;

use crate::lexer::{Token, TokenView};
use crate::parser::{
    binding_power, climb_spec, op_token, parse_bp_spec, parse_from, parse_primary_spec, parse_statement_spec,
    Expression, Parsed, Statement,
};
use crate::Spanned;

verus! {

/// The kinds of the tokens.
pub open spec fn token_kinds(toks: Seq<Spanned<Token>>) -> Seq<TokenView> {
    toks.map_values(|t: Spanned<Token>| t.element@)
}

/// The tokens an expression is written with.
pub open spec fn expr_tokens(e: Expression) -> Seq<TokenView>
    decreases e,
{
    match e {
        Expression::Number(n) => seq![TokenView::Number(n)],
        Expression::Char(c) => seq![TokenView::Char(c)],
        Expression::Paren(inner) => seq![TokenView::LParen] + expr_tokens(inner.element) + seq![TokenView::RParen],
        Expression::Binary { left, op, right } => expr_tokens(left.element) + seq![op@] + expr_tokens(right.element),
    }
}

/// The tokens a statement is written with.
pub open spec fn stmt_tokens(s: Statement) -> Seq<TokenView> {
    match s {
        Statement::Print(e) => seq![TokenView::Print] + expr_tokens(e.element),
        Statement::Expression(e) => expr_tokens(e.element),
    }
}

/// The tokens a sequence of statements is written with.
pub open spec fn stmts_tokens(ss: Seq<Spanned<Statement>>) -> Seq<TokenView>
    decreases ss.len(),
{
    if ss.len() == 0 {
        seq![]
    } else {
        stmt_tokens(ss[0].element) + stmts_tokens(ss.drop_first())
    }
}

/// The precedence level of a binary operator: `* /` bind more tightly than `+ -`.
pub open spec fn level(op: Token) -> u8 {
    match op {
        Token::Add | Token::Sub => 1,
        Token::Mul | Token::Div => 2,
        _ => 0,
    }
}

/// Whether the binary operations in `e` are grouped by precedence and to the left: an operand
/// written without parentheses is an operation that binds at least as tightly (the left one)
/// or strictly more tightly (the right one).
pub open spec fn respects_precedence(e: Expression) -> bool
    decreases e,
{
    match e {
        Expression::Number(_) => true,
        Expression::Char(_) => true,
        Expression::Paren(inner) => respects_precedence(inner.element),
        Expression::Binary { left, op, right } => {
            &&& (left.element matches Expression::Binary { op: lop, .. } ==> level(lop) >= level(op))
            &&& (right.element matches Expression::Binary { op: rop, .. } ==> level(rop) > level(op))
            &&& respects_precedence(left.element)
            &&& respects_precedence(right.element)
        },
    }
}

/// The left binding power of a binary operator, as the parser uses it.
pub open spec fn bp_level(op: Token) -> u8 {
    match binding_power(op@) {
        Some((l, _)) => l,
        None => 0,
    }
}

/// The binding power of the outermost operation of `e` is at least `min` (when it is an
/// operation).
pub open spec fn top_level_at_least(e: Expression, min: u8) -> bool {
    e matches Expression::Binary { op, .. } ==> bp_level(op) >= min
}

/// Parsing at binding power `min` stopped at `p` because no operator binding that tightly follows.
pub open spec fn stops_before(toks: Seq<Spanned<Token>>, p: int, min: u8) -> bool {
    0 <= p < toks.len() ==> match binding_power(toks[p].element@) {
        Some((l, _)) => l < min,
        None => true,
    }
}

proof fn lemma_op_token(t: TokenView)
    requires
        binding_power(t) is Some,
    ensures
        op_token(t)@ == t,
        binding_power(t).unwrap().0 == 1 || binding_power(t).unwrap().0 == 3,
        level(op_token(t)) == (binding_power(t).unwrap().0 + 1) / 2,
        bp_level(op_token(t)) == binding_power(t).unwrap().0,
        binding_power(t).unwrap().1 == binding_power(t).unwrap().0 + 1,
{
}

proof fn lemma_primary(toks: Seq<Spanned<Token>>, pos: int)
    ensures
        parse_primary_spec(toks, pos) matches Parsed::Done(e, p) ==> {
            &&& 0 <= pos < p <= toks.len()
            &&& expr_tokens(e.element) == token_kinds(toks).subrange(pos, p)
            &&& respects_precedence(e.element)
            &&& !(e.element is Binary)
        },
    decreases toks.len() - pos, 1int,
{
    if 0 <= pos < toks.len() {
        let kinds = token_kinds(toks);
        match toks[pos].element@ {
            TokenView::Number(n) => {
                assert(kinds.subrange(pos, pos + 1) =~= seq![TokenView::Number(n)]);
            },
            TokenView::Char(c) => {
                assert(kinds.subrange(pos, pos + 1) =~= seq![TokenView::Char(c)]);
            },
            TokenView::LParen => {
                if pos + 1 < toks.len() {
                    lemma_bp(toks, pos + 1, 0);
                    if let Parsed::Done(inner, p) = parse_bp_spec(toks, pos + 1, 0) {
                        if p < toks.len() && toks[p].element@ is RParen {
                            assert(kinds.subrange(pos, p + 1) =~= seq![TokenView::LParen]
                                + kinds.subrange(pos + 1, p) + seq![TokenView::RParen]);
                        }
                    }
                }
            },
            _ => {},
        }
    }
}

proof fn lemma_bp(toks: Seq<Spanned<Token>>, pos: int, min: u8)
    ensures
        parse_bp_spec(toks, pos, min) matches Parsed::Done(e, p) ==> {
            &&& 0 <= pos < p <= toks.len()
            &&& expr_tokens(e.element) == token_kinds(toks).subrange(pos, p)
            &&& respects_precedence(e.element)
            &&& top_level_at_least(e.element, min)
            &&& stops_before(toks, p, min)
        },
    decreases toks.len() - pos, 2int,
{
    if 0 <= pos < toks.len() {
        lemma_primary(toks, pos);
        if let Parsed::Done(left, p) = parse_primary_spec(toks, pos) {
            if pos < p <= toks.len() {
                lemma_climb(toks, left, toks[pos].span.start, pos, p, min);
            }
        }
    }
}

proof fn lemma_climb(toks: Seq<Spanned<Token>>, left: Spanned<Expression>, start: usize, q: int, pos: int, min: u8)
    requires
        0 <= q < pos <= toks.len(),
        expr_tokens(left.element) == token_kinds(toks).subrange(q, pos),
        respects_precedence(left.element),
        top_level_at_least(left.element, min),
        left.element matches Expression::Binary { op, .. } ==> stops_before(toks, pos, (bp_level(op) + 1) as u8),
    ensures
        climb_spec(toks, left, start, pos, min) matches Parsed::Done(e, p) ==> {
            &&& pos <= p <= toks.len()
            &&& expr_tokens(e.element) == token_kinds(toks).subrange(q, p)
            &&& respects_precedence(e.element)
            &&& top_level_at_least(e.element, min)
            &&& stops_before(toks, p, min)
        },
    decreases toks.len() - pos, 0int,
{
    if pos < toks.len() {
        if let Some((lbp, rbp)) = binding_power(toks[pos].element@) {
            if lbp >= min && pos + 1 < toks.len() {
                lemma_bp(toks, pos + 1, rbp);
                if let Parsed::Done(right, p) = parse_bp_spec(toks, pos + 1, rbp) {
                    if pos < p <= toks.len() {
                        let t = toks[pos].element@;
                        lemma_op_token(t);
                        let op = op_token(t);
                        let e = Expression::Binary { left: Box::new(left), op, right: Box::new(right) };
                        let kinds = token_kinds(toks);
                        assert(kinds.subrange(q, p) =~= kinds.subrange(q, pos) + seq![t] + kinds.subrange(pos + 1, p));
                        assert(expr_tokens(e) == kinds.subrange(q, p));
                        assert(respects_precedence(e));
                        let next = crate::parser::spanned(e, start, right.span.end);
                        lemma_climb(toks, next, start, q, p, min);
                    }
                }
            }
        }
    }
}

/// Law: an expression parsed from position `pos` (at binding power `min_bp`) is written with
/// exactly the tokens it was parsed from, groups its operations by precedence and to the left,
/// and parsing stopped before any operator that binds at least as tightly as `min_bp`.
pub proof fn law_expression_parse(toks: Seq<Spanned<Token>>, pos: int, min_bp: u8)
    ensures
        parse_bp_spec(toks, pos, min_bp) matches Parsed::Done(e, p) ==> {
            &&& 0 <= pos < p <= toks.len()
            &&& expr_tokens(e.element) == token_kinds(toks).subrange(pos, p)
            &&& respects_precedence(e.element)
            &&& stops_before(toks, p, min_bp)
        },
{
    lemma_bp(toks, pos, min_bp);
}

proof fn lemma_statement(toks: Seq<Spanned<Token>>, pos: int)
    ensures
        parse_statement_spec(toks, pos) matches Parsed::Done(s, p) ==> {
            &&& 0 <= pos < p <= toks.len()
            &&& stmt_tokens(s.element) == token_kinds(toks).subrange(pos, p)
        },
{
    if 0 <= pos < toks.len() {
        if toks[pos].element@ is Print {
            lemma_bp(toks, pos + 1, 0);
            if let Parsed::Done(e, p) = parse_bp_spec(toks, pos + 1, 0) {
                let kinds = token_kinds(toks);
                assert(kinds.subrange(pos, p) =~= seq![TokenView::Print] + kinds.subrange(pos + 1, p));
            }
        } else {
            lemma_bp(toks, pos, 0);
        }
    }
}

/// Law: when the tokens from `pos` on parse without error, the parsed statements are written
/// with exactly those tokens, in order; no token is lost or added.
pub proof fn law_parse_keeps_tokens(toks: Seq<Spanned<Token>>, pos: int)
    requires
        0 <= pos <= toks.len(),
    ensures
        match parse_from(toks, pos) {
            Some((ss, es)) => es.len() == 0 ==> stmts_tokens(ss) == token_kinds(toks).subrange(pos, toks.len() as int),
            None => true,
        },
    decreases toks.len() - pos,
{
    let kinds = token_kinds(toks);
    if pos >= toks.len() {
        assert(kinds.subrange(pos, toks.len() as int) =~= Seq::<TokenView>::empty());
    } else {
        lemma_statement(toks, pos);
        match parse_statement_spec(toks, pos) {
            Parsed::Done(s, p) => {
                if pos < p <= toks.len() {
                    law_parse_keeps_tokens(toks, p);
                    if let Some((ss, es)) = parse_from(toks, p) {
                        let all = seq![s] + ss;
                        assert(all[0] == s);
                        assert(all.drop_first() =~= ss);
                        assert(kinds.subrange(pos, toks.len() as int) =~= kinds.subrange(pos, p) + kinds.subrange(p, toks.len() as int));
                    }
                }
            },
            Parsed::Failed(e, p) => {},
            Parsed::Stuck => {},
        }
    }
}

} // verus!
