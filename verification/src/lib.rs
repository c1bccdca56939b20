//! Compiler for the -C language: lexer, parser, IR builder and PIKU assembly writer.
use vstd::prelude::*;
use vstd::string::*;
use vstd::utf8::is_char_boundary;

use crate::error::Error;
use crate::ir::builder::{build_from, all_ops_ok, IRBuilder};
use crate::ir::{Instr, instrs_view};
use crate::lexer::{spec_lex_errors, spec_tokens, token_triple, tokenize, unexpected_msg, error_is, Token};
use crate::parser::{parse_from, Parser, Statement};
use crate::writer::model::{initial_state, run_from};
use crate::writer::Writer;
use crate::writer::piku::{Cpu, cpu_steps, piku_ir_arith, program_of, render_all, writer_runs_like_ir};
use crate::ir::run::program_output;

pub mod text;
pub mod error;
pub mod lexer;
pub mod parser;
pub mod grammar;
pub mod ir;
pub mod writer;

verus! {

/// A value together with the byte range of the source text it came from.
#[derive(Debug, PartialEq)]
pub struct Spanned<T> {
    pub element: T,
    pub span: core::ops::Range<usize>,
}

/// Builds the span `start..end`.
pub fn span_of(start: usize, end: usize) -> (r: core::ops::Range<usize>)
    ensures
        r.start == start,
        r.end == end,
{
    core::ops::Range { start, end }
}

/// The UTF-8 bytes of `.nc`.
pub open spec fn nc_extension() -> Seq<u8> {
    seq![46u8, 110u8, 99u8]
}

/// The name of a `.nc` file without its extension, or `None` when `file` does not end in `.nc`.
/// The last three bytes of `file` must start at a character boundary.
pub fn get_file_name(file: &str) -> (r: Option<&str>)
    requires
        file.spec_bytes().len() >= 3,
        is_char_boundary(file.spec_bytes(), file.spec_bytes().len() - 3),
    ensures
        ({
            let b = file.spec_bytes();
            match r {
                Some(stem) => b.subrange(b.len() - 3, b.len() as int) == nc_extension()
                    && stem.spec_bytes() == b.subrange(0, b.len() - 3),
                None => b.subrange(b.len() - 3, b.len() as int) != nc_extension(),
            }
        }),
{
    let n = file.as_bytes().len();
    let (stem, extension) = file.split_at(n - 3);
    let e = extension.as_bytes();
    if e[0] == 46u8 && e[1] == 110u8 && e[2] == 99u8 {
        assert(e@ =~= nc_extension());
        Some(stem)
    } else {
        None
    }
}

/// How far compiling a source text got.
pub enum Outcome {
    /// Some lexemes are not tokens: one error for each.
    LexFailed(Vec<Error>),
    /// The statements have errors: all of them, in order.
    ParseFailed(Vec<Spanned<Token>>, Vec<Error>),
    /// A token that cannot start an expression stands where an expression must begin.
    Stuck(Vec<Spanned<Token>>),
    /// The program needs more registers or labels than a `usize` can number.
    TooLarge(Vec<Spanned<Token>>, Vec<Spanned<Statement>>),
    /// The program needs more spill slots than a `u16` can number.
    SpillsExhausted(Vec<Spanned<Token>>, Vec<Spanned<Statement>>, Vec<Instr>),
    /// The assembly, with what each stage produced.
    Compiled(Compilation),
}

/// What each stage of a successful compilation produced.
pub struct Compilation {
    pub tokens: Vec<Spanned<Token>>,
    pub statements: Vec<Spanned<Statement>>,
    pub ir: Vec<Instr>,
    pub assembly: String,
}

/// Whether the IR of `stmts` can be numbered: every operator is arithmetic and the register
/// and label counters (starting at 0 and 1) stay within `usize`.
pub open spec fn builds_within_limits(stmts: Seq<Spanned<Statement>>) -> bool {
    &&& all_ops_ok(stmts, 0)
    &&& build_from(stmts, 0, 0, 1).1 <= usize::MAX
    &&& build_from(stmts, 0, 0, 1).2 <= usize::MAX
}

/// Compiles -C source text to PIKU assembly: lexer, parser, IR builder and writer in turn,
/// stopping at the first stage that fails.
pub fn compile(src: &str) -> (r: Outcome)
    ensures
        r is LexFailed <==> spec_lex_errors(src@).len() > 0,
        r matches Outcome::LexFailed(errs) ==> {
            &&& errs@.len() == spec_lex_errors(src@).len()
            &&& forall|k: int| 0 <= k < errs@.len()
                ==> error_is(#[trigger] errs@[k], unexpected_msg(), spec_lex_errors(src@)[k])
        },
        r matches Outcome::ParseFailed(toks, errs) ==> {
            &&& toks@.map_values(|t: Spanned<Token>| token_triple(t)) == spec_tokens(src@)
            &&& parse_from(toks@, 0) matches Some((_, es)) && es.len() > 0 && errs@.len() == es.len()
                && forall|k: int| 0 <= k < es.len() ==> #[trigger] errs@[k]@ == es[k]
        },
        r matches Outcome::Stuck(toks) ==> {
            &&& toks@.map_values(|t: Spanned<Token>| token_triple(t)) == spec_tokens(src@)
            &&& parse_from(toks@, 0) is None
        },
        r matches Outcome::TooLarge(toks, stmts) ==> {
            &&& toks@.map_values(|t: Spanned<Token>| token_triple(t)) == spec_tokens(src@)
            &&& parse_from(toks@, 0) == Some((stmts@, Seq::<crate::error::ErrorView>::empty()))
            &&& !builds_within_limits(stmts@)
        },
        r matches Outcome::SpillsExhausted(toks, stmts, ir) ==> {
            &&& toks@.map_values(|t: Spanned<Token>| token_triple(t)) == spec_tokens(src@)
            &&& parse_from(toks@, 0) == Some((stmts@, Seq::<crate::error::ErrorView>::empty()))
            &&& builds_within_limits(stmts@)
            &&& instrs_view(ir@) == build_from(stmts@, 0, 0, 1).0
            &&& run_from(initial_state(), instrs_view(ir@), 0) is None
        },
        r matches Outcome::Compiled(c) ==> {
            &&& c.tokens@.map_values(|t: Spanned<Token>| token_triple(t)) == spec_tokens(src@)
            &&& parse_from(c.tokens@, 0) == Some((c.statements@, Seq::<crate::error::ErrorView>::empty()))
            &&& builds_within_limits(c.statements@)
            &&& instrs_view(c.ir@) == build_from(c.statements@, 0, 0, 1).0
            &&& run_from(initial_state(), instrs_view(c.ir@), 0) matches Some(s) && c.assembly@ == s.out
            &&& writer_runs_like_ir(instrs_view(c.ir@)) ==> {
                &&& c.assembly@ == render_all(program_of(initial_state(), instrs_view(c.ir@)))
                &&& forall|cpu: Cpu| cpu.pc == 0 ==> exists|n: nat|
                    #[trigger] cpu_steps(program_of(initial_state(), instrs_view(c.ir@)), cpu, n) matches Some(end) ==> {
                        &&& end.pc == program_of(initial_state(), instrs_view(c.ir@)).len()
                        &&& end.out == cpu.out + program_output(c.statements@, 0, piku_ir_arith())
                    }
            }
        },
{
    let tokens = match tokenize(src) {
        Ok(t) => t,
        Err(e) => { return Outcome::LexFailed(e); },
    };
    let mut parser = Parser::new(tokens);
    let parsed = parser.try_parse();
    let tokens = parser.into_tokens();
    let statements = match parsed {
        None => { return Outcome::Stuck(tokens); },
        Some(Err(e)) => { return Outcome::ParseFailed(tokens, e); },
        Some(Ok(s)) => s,
    };
    let mut builder = IRBuilder::new(statements);
    if !builder.fits() {
        return Outcome::TooLarge(tokens, builder.into_input());
    }
    let ir = builder.build();
    let statements = builder.into_input();
    let mut writer = Writer::new(ir);
    let assembly = writer.try_process();
    let ir = writer.into_instructions();
    match assembly {
        None => Outcome::SpillsExhausted(tokens, statements, ir),
        Some(assembly) => {
            proof {
                let v = instrs_view(ir@);
                if writer_runs_like_ir(v) {
                    crate::writer::piku::lemma_assembly_text(v);
                    assert forall|cpu: Cpu| cpu.pc == 0 implies exists|n: nat|
                        #[trigger] cpu_steps(program_of(initial_state(), v), cpu, n) matches Some(end) ==> {
                            &&& end.pc == program_of(initial_state(), v).len()
                            &&& end.out == cpu.out + program_output(statements@, 0, piku_ir_arith())
                        } by {
                        crate::writer::piku::law_assembly_prints(statements@, 0, 1, cpu);
                    }
                }
            }
            Outcome::Compiled(Compilation { tokens, statements, ir, assembly })
        },
    }
}

} // verus!
