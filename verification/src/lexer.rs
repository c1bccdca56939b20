//! The lexer: turns source text into spanned tokens.
//!
//! Whitespace (` `, `\t`, `\r`, `\n`, form feed) separates tokens and is skipped.
//! At every other position the longest lexeme that fits is taken:
//! a run of ASCII letters and `_` is a word (`print` is the keyword, anything else an
//! identifier); `0x`/`0X` followed by hex digits, `0b`/`0B` followed by binary digits,
//! or a run of decimal digits is a number, which must fit in 16 bits;
//! a character literal is an ASCII character other than `'` between two `'`;
//! `+ - * / ( )` are operators. Any other character is reported as an error.
//! Spans are byte ranges into the source.
use vstd::prelude::*;
use vstd::string::*;
use vstd::utf8::*;

use crate::error::Error;
use crate::text::{chars_of, decimal, digit_char};
use crate::{span_of, Spanned};

verus! {

/// A token of the -C language.
#[derive(Debug, Clone, PartialEq)]
pub enum Token {
    Print,
    Identifier(String),
    Number(u16),
    Char(u8),
    Add,
    Sub,
    Mul,
    Div,
    LParen,
    RParen,
}

/// A token as the specifications see it.
pub enum TokenView {
    Print,
    Identifier(Seq<char>),
    Number(u16),
    Char(u8),
    Add,
    Sub,
    Mul,
    Div,
    LParen,
    RParen,
}

impl View for Token {
    type V = TokenView;

    open spec fn view(&self) -> TokenView {
        match self {
            Token::Print => TokenView::Print,
            Token::Identifier(s) => TokenView::Identifier(s@),
            Token::Number(n) => TokenView::Number(*n),
            Token::Char(c) => TokenView::Char(*c),
            Token::Add => TokenView::Add,
            Token::Sub => TokenView::Sub,
            Token::Mul => TokenView::Mul,
            Token::Div => TokenView::Div,
            Token::LParen => TokenView::LParen,
            Token::RParen => TokenView::RParen,
        }
    }
}

/// A token with its span.
pub type SpannedToken = Spanned<Token>;

// ---------------------------------------------------------------------------
// Character classes

pub open spec fn is_space(c: char) -> bool {
    c == ' ' || c == '\t' || c == '\r' || c == '\n' || c == '\x0C'
}

pub open spec fn is_word_char(c: char) -> bool {
    ('a' <= c && c <= 'z') || ('A' <= c && c <= 'Z') || c == '_'
}

pub open spec fn is_dec_digit(c: char) -> bool {
    '0' <= c && c <= '9'
}

pub open spec fn is_hex_digit(c: char) -> bool {
    is_dec_digit(c) || ('a' <= c && c <= 'f') || ('A' <= c && c <= 'F')
}

pub open spec fn is_bin_digit(c: char) -> bool {
    c == '0' || c == '1'
}

/// The value of a digit character (in any base up to 16).
pub open spec fn digit_value(c: char) -> nat {
    if is_dec_digit(c) {
        (c as nat - '0' as nat) as nat
    } else if 'a' <= c && c <= 'f' {
        (c as nat - 'a' as nat + 10) as nat
    } else {
        (c as nat - 'A' as nat + 10) as nat
    }
}

/// The value of a sequence of digits in the given base, most significant first.
pub open spec fn digits_value(ds: Seq<char>, base: nat) -> nat
    decreases ds.len(),
{
    if ds.len() == 0 {
        0
    } else {
        digits_value(ds.drop_last(), base) * base + digit_value(ds.last())
    }
}

/// The operator token that a single character stands for, if any.
pub open spec fn operator_of(c: char) -> Option<TokenView> {
    if c == '+' { Some(TokenView::Add) }
    else if c == '-' { Some(TokenView::Sub) }
    else if c == '*' { Some(TokenView::Mul) }
    else if c == '/' { Some(TokenView::Div) }
    else if c == '(' { Some(TokenView::LParen) }
    else if c == ')' { Some(TokenView::RParen) }
    else { None }
}

/// Where the maximal run of characters satisfying the class `class` that starts at `i` ends.
/// Classes: 0 = word characters, 1 = decimal digits, 2 = hex digits, 3 = binary digits.
pub open spec fn run_end(cs: Seq<char>, i: int, class: int) -> int
    decreases cs.len() - i,
{
    if 0 <= i < cs.len() && in_class(cs[i], class) {
        run_end(cs, i + 1, class)
    } else {
        i
    }
}

pub open spec fn in_class(c: char, class: int) -> bool {
    if class == 0 { is_word_char(c) }
    else if class == 1 { is_dec_digit(c) }
    else if class == 2 { is_hex_digit(c) }
    else { is_bin_digit(c) }
}

/// What a lexeme at a position turns out to be.
pub enum Lexeme {
    Tok(TokenView),
    Bad,
}

/// A number lexeme of `digits` in `base`: a token if its value fits in 16 bits.
pub open spec fn number_lexeme(digits: Seq<char>, base: nat) -> Lexeme {
    if digits_value(digits, base) <= 0xFFFF {
        Lexeme::Tok(TokenView::Number(digits_value(digits, base) as u16))
    } else {
        Lexeme::Bad
    }
}

pub open spec fn has_prefix(cs: Seq<char>, i: int, lower: char, upper: char, class: int) -> bool {
    &&& i + 2 < cs.len()
    &&& cs[i] == '0'
    &&& (cs[i + 1] == lower || cs[i + 1] == upper)
    &&& in_class(cs[i + 2], class)
}

/// Whether a character literal starts at `i`.
pub open spec fn is_char_literal(cs: Seq<char>, i: int) -> bool {
    &&& i + 2 < cs.len()
    &&& cs[i] == '\''
    &&& (cs[i + 1] as u32) < 0x80
    &&& cs[i + 1] != '\''
    &&& cs[i + 2] == '\''
}

/// The longest lexeme starting at `i` (a position holding a non-space character),
/// and where it ends.
pub open spec fn scan(cs: Seq<char>, i: int) -> (Lexeme, int) {
    let c = cs[i];
    if is_word_char(c) {
        let e = run_end(cs, i, 0);
        if cs.subrange(i, e) == seq!['p', 'r', 'i', 'n', 't'] {
            (Lexeme::Tok(TokenView::Print), e)
        } else {
            (Lexeme::Tok(TokenView::Identifier(cs.subrange(i, e))), e)
        }
    } else if has_prefix(cs, i, 'x', 'X', 2) {
        let e = run_end(cs, i + 2, 2);
        (number_lexeme(cs.subrange(i + 2, e), 16), e)
    } else if has_prefix(cs, i, 'b', 'B', 3) {
        let e = run_end(cs, i + 2, 3);
        (number_lexeme(cs.subrange(i + 2, e), 2), e)
    } else if is_dec_digit(c) {
        let e = run_end(cs, i, 1);
        (number_lexeme(cs.subrange(i, e), 10), e)
    } else if is_char_literal(cs, i) {
        (Lexeme::Tok(TokenView::Char(cs[i + 1] as u8)), i + 3)
    } else if operator_of(c) is Some {
        (Lexeme::Tok(operator_of(c).unwrap()), i + 1)
    } else {
        (Lexeme::Bad, i + 1)
    }
}

/// The byte offset of character position `i` in the UTF-8 encoding of `cs`.
pub open spec fn byte_offset(cs: Seq<char>, i: int) -> int {
    encode_utf8(cs.take(i)).len() as int
}

/// The tokens (with byte spans) and the spans of the erroneous lexemes found in `cs`
/// from character position `i` on.
pub open spec fn lex_from(cs: Seq<char>, i: int) -> (Seq<(TokenView, int, int)>, Seq<(int, int)>)
    decreases cs.len() - i,
{
    if i < 0 || i >= cs.len() {
        (seq![], seq![])
    } else if is_space(cs[i]) {
        lex_from(cs, i + 1)
    } else {
        let (lx, e) = scan(cs, i);
        if e <= i || e > cs.len() {
            (seq![], seq![])
        } else {
            let rest = lex_from(cs, e);
            match lx {
                Lexeme::Tok(t) => (seq![(t, byte_offset(cs, i), byte_offset(cs, e))] + rest.0, rest.1),
                Lexeme::Bad => (rest.0, seq![(byte_offset(cs, i), byte_offset(cs, e))] + rest.1),
            }
        }
    }
}

/// The tokens of a source text, with their byte spans.
pub open spec fn spec_tokens(src: Seq<char>) -> Seq<(TokenView, int, int)> {
    lex_from(src, 0).0
}

/// The byte spans of the lexemes of a source text that are not tokens.
pub open spec fn spec_lex_errors(src: Seq<char>) -> Seq<(int, int)> {
    lex_from(src, 0).1
}

/// The message of every lexing error.
pub open spec fn unexpected_msg() -> Seq<char> {
    "Unexpected character(s)"@
}

pub open spec fn token_triple(t: Spanned<Token>) -> (TokenView, int, int) {
    (t.element@, t.span.start as int, t.span.end as int)
}

pub open spec fn error_is(e: Error, msg: Seq<char>, span: (int, int)) -> bool {
    e@.msg == msg && e@.start == span.0 && e@.end == span.1
}

} // verus!

verus! {

// ---------------------------------------------------------------------------
// Lemmas

proof fn lemma_run_end_bounds(cs: Seq<char>, i: int, class: int)
    requires
        0 <= i <= cs.len(),
    ensures
        i <= run_end(cs, i, class) <= cs.len(),
        forall|k: int| i <= k < run_end(cs, i, class) ==> in_class(#[trigger] cs[k], class),
        run_end(cs, i, class) < cs.len() ==> !in_class(cs[run_end(cs, i, class)], class),
    decreases cs.len() - i,
{
    if i < cs.len() && in_class(cs[i], class) {
        lemma_run_end_bounds(cs, i + 1, class);
    }
}

proof fn lemma_encode_utf8_concat(a: Seq<char>, b: Seq<char>)
    ensures
        encode_utf8(a + b) == encode_utf8(a) + encode_utf8(b),
    decreases a.len(),
{
    if a.len() == 0 {
        assert(a + b =~= b);
        assert(encode_utf8(a) =~= Seq::<u8>::empty());
        assert(encode_utf8(a) + encode_utf8(b) =~= encode_utf8(b));
    } else {
        assert((a + b).drop_first() =~= a.drop_first() + b);
        lemma_encode_utf8_concat(a.drop_first(), b);
        assert(encode_utf8(a + b) =~= encode_utf8(a) + encode_utf8(b));
    }
}

proof fn lemma_byte_offset_step(cs: Seq<char>, i: int)
    requires
        0 <= i < cs.len(),
    ensures
        byte_offset(cs, i + 1) == byte_offset(cs, i) + encode_scalar(cs[i] as u32).len(),
{
    let c = seq![cs[i]];
    assert(cs.take(i + 1) =~= cs.take(i) + c);
    lemma_encode_utf8_concat(cs.take(i), c);
    assert(c.drop_first() =~= Seq::<char>::empty());
    assert(encode_utf8(c.drop_first()) =~= Seq::<u8>::empty());
    assert(encode_utf8(c) =~= encode_scalar(cs[i] as u32));
}

proof fn lemma_byte_offset_bound(cs: Seq<char>, i: int)
    requires
        0 <= i <= cs.len(),
    ensures
        0 <= byte_offset(cs, i) <= encode_utf8(cs).len(),
{
    assert(cs =~= cs.take(i) + cs.skip(i));
    lemma_encode_utf8_concat(cs.take(i), cs.skip(i));
}

proof fn lemma_digits_value_prefix(ds: Seq<char>, k: int, base: nat)
    requires
        0 <= k <= ds.len(),
        base >= 1,
    ensures
        digits_value(ds.take(k), base) <= digits_value(ds, base),
    decreases ds.len(),
{
    if k < ds.len() {
        assert(ds.drop_last().take(k) =~= ds.take(k));
        lemma_digits_value_prefix(ds.drop_last(), k, base);
        let p = digits_value(ds.drop_last(), base);
        assert(p * base >= p) by (nonlinear_arith)
            requires base >= 1, p >= 0;
    } else {
        assert(ds.take(k) =~= ds);
    }
}

// ---------------------------------------------------------------------------
// Executable scanning

fn char_class(c: char, class: u8) -> (b: bool)
    ensures
        b == in_class(c, class as int),
{
    if class == 0 {
        ('a' <= c && c <= 'z') || ('A' <= c && c <= 'Z') || c == '_'
    } else if class == 1 {
        '0' <= c && c <= '9'
    } else if class == 2 {
        ('0' <= c && c <= '9') || ('a' <= c && c <= 'f') || ('A' <= c && c <= 'F')
    } else {
        c == '0' || c == '1'
    }
}

fn find_run_end(cs: &Vec<char>, i: usize, class: u8) -> (e: usize)
    requires
        i <= cs.len(),
    ensures
        e == run_end(cs@, i as int, class as int),
        i <= e <= cs.len(),
{
    proof { lemma_run_end_bounds(cs@, i as int, class as int); }
    let mut j = i;
    while j < cs.len() && char_class(cs[j], class)
        invariant
            i <= j <= cs.len(),
            run_end(cs@, j as int, class as int) == run_end(cs@, i as int, class as int),
        decreases cs.len() - j,
    {
        j = j + 1;
    }
    j
}

fn digit_val(c: char) -> (d: u32)
    requires
        is_hex_digit(c),
    ensures
        d == digit_value(c),
        d < 16,
{
    if '0' <= c && c <= '9' {
        (c as u32) - ('0' as u32)
    } else if 'a' <= c && c <= 'f' {
        (c as u32) - ('a' as u32) + 10
    } else {
        (c as u32) - ('A' as u32) + 10
    }
}

/// The value of the digits `cs[start..end]` in `base`, if it fits in 16 bits.
fn number_value(cs: &Vec<char>, start: usize, end: usize, base: u32) -> (r: Option<u16>)
    requires
        start <= end <= cs.len(),
        2 <= base <= 16,
        forall|k: int| start <= k < end ==> is_hex_digit(#[trigger] cs@[k]),
    ensures
        r == (if digits_value(cs@.subrange(start as int, end as int), base as nat) <= 0xFFFF {
            Some(digits_value(cs@.subrange(start as int, end as int), base as nat) as u16)
        } else {
            None::<u16>
        }),
{
    let ghost ds = cs@.subrange(start as int, end as int);
    let mut v: u32 = 0;
    let mut k = start;
    assert(ds.take(0) =~= Seq::<char>::empty());
    while k < end
        invariant
            start <= k <= end <= cs.len(),
            2 <= base <= 16,
            ds == cs@.subrange(start as int, end as int),
            forall|j: int| start <= j < end ==> is_hex_digit(#[trigger] cs@[j]),
            v == digits_value(ds.take(k - start), base as nat),
            v <= 0xFFFF,
        decreases end - k,
    {
        let d = digit_val(cs[k]);
        assert(v * base + d <= 0xFFFF * 16 + 15) by (nonlinear_arith)
            requires v <= 0xFFFF, base <= 16, d < 16;
        let nv = v * base + d;
        assert(ds.take(k + 1 - start).drop_last() =~= ds.take(k - start));
        assert(ds.take(k + 1 - start).last() == cs@[k as int]);
        if nv > 0xFFFF {
            proof { lemma_digits_value_prefix(ds, k + 1 - start, base as nat); }
            return None;
        }
        v = nv;
        k = k + 1;
    }
    assert(ds.take(end - start) =~= ds);
    Some(v as u16)
}

fn number_token(v: Option<u16>) -> (r: Option<Token>)
    ensures
        match v {
            Some(n) => r is Some && r.unwrap()@ == TokenView::Number(n),
            None => r is None,
        },
{
    match v {
        Some(n) => Some(Token::Number(n)),
        None => None,
    }
}

/// The longest lexeme at `i`: `None` for a lexeme that is no token.
fn scan_at(source: &str, cs: &Vec<char>, i: usize) -> (r: (Option<Token>, usize))
    requires
        cs@ == source@,
        i < cs.len(),
        !is_space(cs@[i as int]),
    ensures
        r.1 == scan(cs@, i as int).1,
        i < r.1 <= cs.len(),
        match scan(cs@, i as int).0 {
            Lexeme::Tok(t) => r.0 is Some && r.0.unwrap()@ == t,
            Lexeme::Bad => r.0 is None,
        },
{
    let c = cs[i];
    let n = cs.len();
    if char_class(c, 0) {
        let e = find_run_end(cs, i, 0);
        proof { lemma_run_end_bounds(cs@, i as int, 0); }
        let ghost w = cs@.subrange(i as int, e as int);
        if e - i == 5 && cs[i] == 'p' && cs[i + 1] == 'r' && cs[i + 2] == 'i' && cs[i + 3] == 'n'
            && cs[i + 4] == 't' {
            assert(w =~= seq!['p', 'r', 'i', 'n', 't']);
            (Some(Token::Print), e)
        } else {
            assert(w != seq!['p', 'r', 'i', 'n', 't']) by {
                if w.len() == 5 {
                    assert(w[0] == cs@[i as int] && w[1] == cs@[i + 1] && w[2] == cs@[i + 2]
                        && w[3] == cs@[i + 3] && w[4] == cs@[i + 4]);
                }
            }
            let s = source.substring_char(i, e).to_owned();
            (Some(Token::Identifier(s)), e)
        }
    } else if n - i > 2 && c == '0' && (cs[i + 1] == 'x' || cs[i + 1] == 'X') && char_class(cs[i + 2], 2) {
        let e = find_run_end(cs, i + 2, 2);
        proof { lemma_run_end_bounds(cs@, i + 2, 2); }
        (number_token(number_value(cs, i + 2, e, 16)), e)
    } else if n - i > 2 && c == '0' && (cs[i + 1] == 'b' || cs[i + 1] == 'B') && char_class(cs[i + 2], 3) {
        let e = find_run_end(cs, i + 2, 3);
        proof { lemma_run_end_bounds(cs@, i + 2, 3); }
        (number_token(number_value(cs, i + 2, e, 2)), e)
    } else if char_class(c, 1) {
        let e = find_run_end(cs, i, 1);
        proof { lemma_run_end_bounds(cs@, i as int, 1); }
        (number_token(number_value(cs, i, e, 10)), e)
    } else if n - i > 2 && c == '\'' && (cs[i + 1] as u32) < 0x80 && cs[i + 1] != '\''
        && cs[i + 2] == '\'' {
        (Some(Token::Char(cs[i + 1] as u8)), i + 3)
    } else if c == '+' {
        (Some(Token::Add), i + 1)
    } else if c == '-' {
        (Some(Token::Sub), i + 1)
    } else if c == '*' {
        (Some(Token::Mul), i + 1)
    } else if c == '/' {
        (Some(Token::Div), i + 1)
    } else if c == '(' {
        (Some(Token::LParen), i + 1)
    } else if c == ')' {
        (Some(Token::RParen), i + 1)
    } else {
        (None, i + 1)
    }
}

} // verus!

verus! {

fn utf8_width(c: char) -> (w: usize)
    ensures
        w == encode_scalar(c as u32).len(),
{
    proof { char_is_scalar(c); }
    let u = c as u32;
    if u < 0x80 {
        1
    } else if u < 0x800 {
        2
    } else if u < 0x10000 {
        3
    } else {
        4
    }
}

/// The byte offset of character position `e`, given that of position `i`.
fn advance_bytes(cs: &Vec<char>, i: usize, e: usize, b: usize, Ghost(nbytes): Ghost<int>) -> (r: usize)
    requires
        i <= e <= cs.len(),
        b == byte_offset(cs@, i as int),
        nbytes == encode_utf8(cs@).len(),
        nbytes <= usize::MAX,
    ensures
        r == byte_offset(cs@, e as int),
{
    let mut k = i;
    let mut bk = b;
    while k < e
        invariant
            i <= k <= e <= cs.len(),
            bk == byte_offset(cs@, k as int),
            nbytes == encode_utf8(cs@).len(),
            nbytes <= usize::MAX,
        decreases e - k,
    {
        proof {
            lemma_byte_offset_step(cs@, k as int);
            lemma_byte_offset_bound(cs@, k + 1);
        }
        bk = bk + utf8_width(cs[k]);
        k = k + 1;
    }
    bk
}

/// Splits `source` into tokens.
///
/// Returns the tokens with their byte spans when every lexeme is a token, and otherwise
/// one "Unexpected character(s)" error for each lexeme that is not (an unknown character,
/// or a number that does not fit in 16 bits), in source order.
pub fn tokenize(source: &str) -> (r: Result<Vec<Spanned<Token>>, Vec<Error>>)
    ensures
        match r {
            Ok(toks) => {
                &&& spec_lex_errors(source@).len() == 0
                &&& toks@.map_values(|t: Spanned<Token>| token_triple(t)) == spec_tokens(source@)
            },
            Err(errs) => {
                &&& spec_lex_errors(source@).len() > 0
                &&& errs@.len() == spec_lex_errors(source@).len()
                &&& forall|k: int| 0 <= k < errs@.len()
                    ==> error_is(#[trigger] errs@[k], unexpected_msg(), spec_lex_errors(source@)[k])
            },
        },
{
    let cs = chars_of(source);
    let nbytes = source.as_bytes().len();
    let ghost all = lex_from(cs@, 0);
    let mut tokens: Vec<Spanned<Token>> = Vec::new();
    let mut errors: Vec<Error> = Vec::new();
    let mut i: usize = 0;
    let mut b: usize = 0;
    let ghost mut errs: Seq<(int, int)> = seq![];
    assert(all.1 =~= errs + lex_from(cs@, 0).1);
    assert(cs@.take(0) =~= Seq::<char>::empty());
    assert(encode_utf8(cs@.take(0)) =~= Seq::<u8>::empty());
    while i < cs.len()
        invariant
            i <= cs.len(),
            cs@ == source@,
            nbytes == encode_utf8(cs@).len(),
            b == byte_offset(cs@, i as int),
            all == lex_from(cs@, 0),
            all.0 == tokens@.map_values(|t: Spanned<Token>| token_triple(t)) + lex_from(cs@, i as int).0,
            all.1 == errs + lex_from(cs@, i as int).1,
            errors@.len() == errs.len(),
            forall|k: int| 0 <= k < errors@.len()
                ==> error_is(#[trigger] errors@[k], unexpected_msg(), errs[k]),
        decreases cs.len() - i,
    {
        let c = cs[i];
        if c == ' ' || c == '\t' || c == '\r' || c == '\n' || c == '\x0C' {
            assert(lex_from(cs@, i as int) == lex_from(cs@, i + 1));
            b = advance_bytes(&cs, i, i + 1, b, Ghost(nbytes as int));
            i = i + 1;
        } else {
            let (tok, e) = scan_at(source, &cs, i);
            let be = advance_bytes(&cs, i, e, b, Ghost(nbytes as int));
            let ghost old_toks = tokens@;
            let ghost old_rest = lex_from(cs@, i as int);
            let ghost rest = lex_from(cs@, e as int);
            match tok {
                Some(t) => {
                    tokens.push(Spanned { element: t, span: span_of(b, be) });
                    assert(tokens@.map_values(|t: Spanned<Token>| token_triple(t)) =~= old_toks.map_values(
                        |t: Spanned<Token>| token_triple(t),
                    ).push(token_triple(tokens@[tokens@.len() - 1])));
                    assert(old_rest.0 =~= seq![token_triple(tokens@[tokens@.len() - 1])] + rest.0);
                    assert(all.0 =~= tokens@.map_values(|t: Spanned<Token>| token_triple(t)) + rest.0);
                    assert(old_rest.1 =~= rest.1);
                },
                None => {
                    let msg = "Unexpected character(s)".to_owned();
                    errors.push(Error::new(msg, span_of(b, be)));
                    assert(old_rest.1 =~= seq![(b as int, be as int)] + rest.1);
                    proof {
                        errs = errs.push((b as int, be as int));
                    }
                    assert(all.1 =~= errs + rest.1);
                },
            }
            b = be;
            i = e;
        }
    }
    assert(lex_from(cs@, i as int).1 =~= Seq::<(int, int)>::empty());
    assert(all.1 =~= errs);
    if errors.len() == 0 {
        assert(all.0 =~= tokens@.map_values(|t: Spanned<Token>| token_triple(t)));
        Ok(tokens)
    } else {
        Err(errors)
    }
}

} // verus!

verus! {

proof fn lemma_byte_offset_mono(cs: Seq<char>, i: int, j: int)
    requires
        0 <= i <= j <= cs.len(),
    ensures
        byte_offset(cs, i) + (j - i) <= byte_offset(cs, j),
    decreases j - i,
{
    if i < j {
        lemma_byte_offset_mono(cs, i, j - 1);
        lemma_byte_offset_step(cs, j - 1);
        char_is_scalar(cs[j - 1]);
    }
}

proof fn lemma_scan_end(cs: Seq<char>, i: int)
    requires
        0 <= i < cs.len(),
        !is_space(cs[i]),
    ensures
        i < scan(cs, i).1 <= cs.len(),
{
    lemma_run_end_bounds(cs, i, 0);
    if cs.len() > i + 2 {
        lemma_run_end_bounds(cs, i + 2, 2);
        lemma_run_end_bounds(cs, i + 2, 3);
    }
    lemma_run_end_bounds(cs, i, 1);
}

/// The token spans from position `i` on lie between the byte offset of `i` and the end of
/// the text, are non-empty, and follow each other without overlapping.
proof fn lemma_lex_spans(cs: Seq<char>, i: int)
    requires
        0 <= i <= cs.len(),
    ensures
        ({
            let ts = lex_from(cs, i).0;
            &&& forall|k: int| 0 <= k < ts.len() ==> byte_offset(cs, i) <= #[trigger] ts[k].1 < ts[k].2 <= byte_offset(cs, cs.len() as int)
            &&& forall|k: int| 0 <= k < ts.len() - 1 ==> #[trigger] ts[k].2 <= ts[k + 1].1
        }),
    decreases cs.len() - i,
{
    if i < cs.len() {
        if is_space(cs[i]) {
            lemma_lex_spans(cs, i + 1);
            lemma_byte_offset_mono(cs, i, i + 1);
        } else {
            lemma_scan_end(cs, i);
            let e = scan(cs, i).1;
            lemma_lex_spans(cs, e);
            lemma_byte_offset_mono(cs, i, e);
            lemma_byte_offset_mono(cs, e, cs.len() as int);
            let rest = lex_from(cs, e).0;
            let ts = lex_from(cs, i).0;
            if scan(cs, i).0 is Tok {
                assert forall|k: int| 0 <= k < ts.len() - 1 implies #[trigger] ts[k].2 <= ts[k + 1].1 by {
                    if k > 0 {
                        assert(ts[k] == rest[k - 1] && ts[k + 1] == rest[k]);
                    } else {
                        assert(ts[1] == rest[0]);
                    }
                }
                assert forall|k: int| 0 <= k < ts.len() implies byte_offset(cs, i) <= #[trigger] ts[k].1 < ts[k].2 <= byte_offset(cs, cs.len() as int) by {
                    if k > 0 {
                        assert(ts[k] == rest[k - 1]);
                    }
                }
            }
        }
    }
}

/// Law: the spans of the tokens of a source text are non-empty byte ranges within the text's
/// UTF-8 encoding, in source order and without overlap.
pub proof fn law_token_spans(src: Seq<char>)
    ensures
        ({
            let ts = spec_tokens(src);
            &&& forall|k: int| 0 <= k < ts.len() ==> 0 <= #[trigger] ts[k].1 < ts[k].2 <= encode_utf8(src).len()
            &&& forall|k: int| 0 <= k < ts.len() - 1 ==> #[trigger] ts[k].2 <= ts[k + 1].1
        }),
{
    lemma_lex_spans(src, 0);
    assert(src.take(src.len() as int) =~= src);
    assert(src.take(0) =~= Seq::<char>::empty());
    assert(encode_utf8(Seq::<char>::empty()) =~= Seq::<u8>::empty());
}

// ---------------------------------------------------------------------------
// The values of number literals

proof fn lemma_run_to_end(cs: Seq<char>, i: int, class: int)
    requires
        0 <= i <= cs.len(),
        forall|k: int| i <= k < cs.len() ==> in_class(#[trigger] cs[k], class),
    ensures
        run_end(cs, i, class) == cs.len(),
    decreases cs.len() - i,
{
    if i < cs.len() {
        lemma_run_to_end(cs, i + 1, class);
    }
}

proof fn lemma_decimal_digits(n: nat)
    ensures
        decimal(n).len() >= 1,
        forall|k: int| 0 <= k < decimal(n).len() ==> '0' <= #[trigger] decimal(n)[k] <= '9',
        digits_value(decimal(n), 10) == n,
    decreases n,
{
    let d = decimal(n);
    assert(digit_value(digit_char(n % 10)) == n % 10);
    if n < 10 {
        assert(d.drop_last() =~= Seq::<char>::empty());
        assert(digits_value(d.drop_last(), 10) == 0);
        assert(d.last() == digit_char(n % 10));
    } else {
        lemma_decimal_digits(n / 10);
        assert(d.drop_last() =~= decimal(n / 10));
        assert(d.last() == digit_char(n % 10));
        assert forall|k: int| 0 <= k < d.len() implies '0' <= #[trigger] d[k] <= '9' by {
            if k < d.len() - 1 {
                assert(d[k] == decimal(n / 10)[k]);
            }
        }
    }
}

/// Law: lexing the decimal representation of a number that fits in 16 bits gives exactly one
/// token, that number, and no error: the value of a decimal literal is the positional value
/// of its digits, `'0'`..`'9'` counting 0..9.
pub proof fn law_decimal_literal_round_trip(n: nat)
    requires
        n <= 0xFFFF,
    ensures
        spec_lex_errors(decimal(n)).len() == 0,
        spec_tokens(decimal(n)).len() == 1,
        spec_tokens(decimal(n))[0].0 == TokenView::Number(n as u16),
{
    let cs = decimal(n);
    lemma_decimal_digits(n);
    lemma_run_to_end(cs, 0, 1);
    assert(cs.subrange(0, cs.len() as int) =~= cs);
    assert(!is_space(cs[0]) && !is_word_char(cs[0]));
    if cs.len() > 1 {
        assert('0' <= cs[1] <= '9');
    }
    assert(scan(cs, 0) == (Lexeme::Tok(TokenView::Number(n as u16)), cs.len() as int));
    assert(lex_from(cs, cs.len() as int) == (Seq::<(TokenView, int, int)>::empty(), Seq::<(int, int)>::empty()));
}

/// The value of a hexadecimal digit: `'0'`..`'9'` count 0..9, `'a'`..`'f'` and `'A'`..`'F'`
/// count 10..15.
pub open spec fn hex_digit_count(c: char) -> nat {
    if '0' <= c <= '9' {
        (c as nat - 48) as nat
    } else if 'a' <= c <= 'f' {
        (c as nat - 87) as nat
    } else {
        (c as nat - 55) as nat
    }
}

/// The positional value of hexadecimal digits, most significant first.
pub open spec fn hex_number(ds: Seq<char>) -> nat
    decreases ds.len(),
{
    if ds.len() == 0 { 0 } else { hex_number(ds.drop_last()) * 16 + hex_digit_count(ds.last()) }
}

proof fn lemma_hex_number(ds: Seq<char>)
    requires
        forall|k: int| 0 <= k < ds.len() ==> is_hex_digit(#[trigger] ds[k]),
    ensures
        digits_value(ds, 16) == hex_number(ds),
    decreases ds.len(),
{
    if ds.len() > 0 {
        lemma_hex_number(ds.drop_last());
    }
}

/// Law: `0x` (or `0X`) followed by hexadecimal digits whose value fits in 16 bits lexes as
/// exactly one token, the positional value of the digits in base 16, and no error.
pub proof fn law_hex_literal_value(ds: Seq<char>, upper: bool)
    requires
        ds.len() >= 1,
        forall|k: int| 0 <= k < ds.len() ==> is_hex_digit(#[trigger] ds[k]),
        hex_number(ds) <= 0xFFFF,
    ensures ({
        let src = seq!['0', if upper { 'X' } else { 'x' }] + ds;
        &&& spec_lex_errors(src).len() == 0
        &&& spec_tokens(src).len() == 1
        &&& spec_tokens(src)[0].0 == TokenView::Number(hex_number(ds) as u16)
    }),
{
    let src = seq!['0', if upper { 'X' } else { 'x' }] + ds;
    lemma_hex_number(ds);
    assert(src[2] == ds[0]);
    lemma_run_to_end(src, 2, 2);
    assert(src.subrange(2, src.len() as int) =~= ds);
    assert(scan(src, 0) == (Lexeme::Tok(TokenView::Number(hex_number(ds) as u16)), src.len() as int));
    assert(lex_from(src, src.len() as int) == (Seq::<(TokenView, int, int)>::empty(), Seq::<(int, int)>::empty()));
}

// ---------------------------------------------------------------------------
// Operators, character literals and words

/// The character an operator token is written with.
pub open spec fn operator_text(t: TokenView) -> char {
    match t {
        TokenView::Add => '+',
        TokenView::Sub => '-',
        TokenView::Mul => '*',
        TokenView::Div => '/',
        TokenView::LParen => '(',
        TokenView::RParen => ')',
        _ => ' ',
    }
}

/// Whether `c` is one of the characters `+ - * / ( )`.
pub open spec fn is_operator_char(c: char) -> bool {
    c == '+' || c == '-' || c == '*' || c == '/' || c == '(' || c == ')'
}

proof fn lemma_operators_from(cs: Seq<char>, i: int)
    requires
        0 <= i <= cs.len(),
        forall|k: int| 0 <= k < cs.len() ==> is_operator_char(#[trigger] cs[k]),
    ensures
        lex_from(cs, i).1.len() == 0,
        lex_from(cs, i).0.len() == cs.len() - i,
        forall|k: int| 0 <= k < cs.len() - i ==> operator_text(#[trigger] lex_from(cs, i).0[k].0) == cs[i + k],
    decreases cs.len() - i,
{
    if i < cs.len() {
        lemma_operators_from(cs, i + 1);
        let c = cs[i];
        assert(!is_space(c) && !is_word_char(c) && !is_dec_digit(c) && !is_char_literal(cs, i));
        assert(!has_prefix(cs, i, 'x', 'X', 2) && !has_prefix(cs, i, 'b', 'B', 3));
        assert(scan(cs, i).1 == i + 1);
        let rest = lex_from(cs, i + 1).0;
        assert forall|k: int| 0 <= k < cs.len() - i implies operator_text(#[trigger] lex_from(cs, i).0[k].0) == cs[i + k] by {
            if k > 0 {
                assert(lex_from(cs, i).0[k] == rest[k - 1]);
            }
        }
    }
}

/// Law: a string of the characters `+ - * / ( )` lexes, without error, as one token per
/// character, in order, each being the operator written with that character.
pub proof fn law_operators_lex_as_written(cs: Seq<char>)
    requires
        forall|k: int| 0 <= k < cs.len() ==> is_operator_char(#[trigger] cs[k]),
    ensures
        spec_lex_errors(cs).len() == 0,
        spec_tokens(cs).len() == cs.len(),
        forall|k: int| 0 <= k < cs.len() ==> operator_text(#[trigger] spec_tokens(cs)[k].0) == cs[k],
{
    lemma_operators_from(cs, 0);
}

/// Law: an ASCII character other than `'` between two `'` lexes, without error, as one
/// character token whose value is the character's code.
pub proof fn law_char_literal_value(c: char)
    requires
        (c as u32) < 0x80,
        c != '\'',
    ensures ({
        let src = seq!['\'', c, '\''];
        &&& spec_lex_errors(src).len() == 0
        &&& spec_tokens(src).len() == 1
        &&& spec_tokens(src)[0].0 matches TokenView::Char(v) && v as u32 == c as u32
    }),
{
    let src = seq!['\'', c, '\''];
    assert(!is_space(src[0]) && !is_word_char(src[0]) && !is_dec_digit(src[0]));
    assert(is_char_literal(src, 0));
    assert(scan(src, 0) == (Lexeme::Tok(TokenView::Char(c as u8)), 3int));
    assert(lex_from(src, 3) == (Seq::<(TokenView, int, int)>::empty(), Seq::<(int, int)>::empty()));
}

/// Law: a run of ASCII letters and `_` lexes, without error, as one token: the keyword
/// `print` when it is the word "print", otherwise an identifier holding the word.
pub proof fn law_word_lexes_as_keyword_or_identifier(w: Seq<char>)
    requires
        w.len() >= 1,
        forall|k: int| 0 <= k < w.len() ==> ('a' <= #[trigger] w[k] <= 'z') || ('A' <= w[k] <= 'Z') || w[k] == '_',
    ensures
        spec_lex_errors(w).len() == 0,
        spec_tokens(w).len() == 1,
        spec_tokens(w)[0].0 == (if w == "print"@ { TokenView::Print } else { TokenView::Identifier(w) }),
{
    reveal_strlit("print");
    lemma_run_to_end(w, 0, 0);
    assert(w.subrange(0, w.len() as int) =~= w);
    assert(seq!['p', 'r', 'i', 'n', 't'] =~= "print"@);
    assert(lex_from(w, w.len() as int) == (Seq::<(TokenView, int, int)>::empty(), Seq::<(int, int)>::empty()));
}

} // verus!
