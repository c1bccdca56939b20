//! What straight-line IR computes, and the law that the IR of an expression computes the
//! expression's value.
//!
//! The arithmetic of the target machine is left open: every law here holds for any
//! function giving the result of an arithmetic instruction.
use vstd::prelude::*;

use crate::ir::builder::{expr_ir, ops_ok};
use crate::ir::InstrView;
use crate::lexer::TokenView;
use crate::parser::Expression;

verus! {

/// An arithmetic operation of the IR.
pub enum ArithOp {
    Add,
    Sub,
    Mul,
    Div,
    Mod,
}

/// The operation that an operator token stands for.
pub open spec fn op_of(t: TokenView) -> ArithOp {
    match t {
        TokenView::Add => ArithOp::Add,
        TokenView::Sub => ArithOp::Sub,
        TokenView::Mul => ArithOp::Mul,
        _ => ArithOp::Div,
    }
}

/// The value of an expression, given the machine's arithmetic.
pub open spec fn eval_expr(e: Expression, arith: spec_fn(ArithOp, u16, u16) -> u16) -> u16
    decreases e,
{
    match e {
        Expression::Number(n) => n,
        Expression::Char(c) => c as u16,
        Expression::Paren(inner) => eval_expr(inner.element, arith),
        Expression::Binary { left, op, right } => arith(op_of(op@), eval_expr(left.element, arith), eval_expr(right.element, arith)),
    }
}

/// The registers after one straight-line instruction; `None` for an instruction that is not
/// straight-line register arithmetic (control flow, the stack, output).
pub open spec fn step_ir(i: InstrView, regs: Map<nat, u16>, arith: spec_fn(ArithOp, u16, u16) -> u16) -> Option<Map<nat, u16>> {
    match i {
        InstrView::LoadImm(d, n) => Some(regs.insert(d, n)),
        InstrView::Mov(d, s) => Some(regs.insert(d, regs[s])),
        InstrView::Add { left, right, dest } => Some(regs.insert(dest, arith(ArithOp::Add, regs[left], regs[right]))),
        InstrView::Sub { left, right, dest } => Some(regs.insert(dest, arith(ArithOp::Sub, regs[left], regs[right]))),
        InstrView::Mul { left, right, dest } => Some(regs.insert(dest, arith(ArithOp::Mul, regs[left], regs[right]))),
        InstrView::Div { left, right, dest } => Some(regs.insert(dest, arith(ArithOp::Div, regs[left], regs[right]))),
        InstrView::Mod { left, right, dest } => Some(regs.insert(dest, arith(ArithOp::Mod, regs[left], regs[right]))),
        InstrView::Drop(r) => Some(regs.remove(r)),
        _ => None,
    }
}

/// The registers after straight-line instructions.
pub open spec fn run_ir(instrs: Seq<InstrView>, regs: Map<nat, u16>, arith: spec_fn(ArithOp, u16, u16) -> u16) -> Option<Map<nat, u16>>
    decreases instrs.len(),
{
    if instrs.len() == 0 {
        Some(regs)
    } else {
        match step_ir(instrs[0], regs, arith) {
            None => None,
            Some(r1) => run_ir(instrs.drop_first(), r1, arith),
        }
    }
}

proof fn lemma_run_ir_concat(a: Seq<InstrView>, b: Seq<InstrView>, regs: Map<nat, u16>, arith: spec_fn(ArithOp, u16, u16) -> u16)
    ensures
        run_ir(a + b, regs, arith) == (match run_ir(a, regs, arith) {
            None => None,
            Some(r1) => run_ir(b, r1, arith),
        }),
    decreases a.len(),
{
    if a.len() == 0 {
        assert(a + b =~= b);
    } else {
        assert((a + b).drop_first() =~= a.drop_first() + b);
        assert((a + b)[0] == a[0]);
        match step_ir(a[0], regs, arith) {
            None => {},
            Some(r1) => lemma_run_ir_concat(a.drop_first(), b, r1, arith),
        }
    }
}

/// `after` agrees with `before` on every register outside `dest` and `[lo, hi)`.
pub open spec fn unchanged_outside(before: Map<nat, u16>, after: Map<nat, u16>, dest: nat, lo: nat, hi: nat) -> bool {
    forall|k: nat| k != dest && (k < lo || k >= hi) ==> {
        &&& (#[trigger] after.contains_key(k)) == before.contains_key(k)
        &&& before.contains_key(k) ==> after[k] == before[k]
    }
}

/// Law: the IR of an expression, run from any registers, leaves the expression's value in its
/// destination register and touches no register other than the destination and the fresh
/// ones it was given (from `next` up to the first unused register after it), whatever the
/// machine's arithmetic.
pub proof fn law_expression_ir_computes_value(
    e: Expression,
    dest: nat,
    next: nat,
    regs: Map<nat, u16>,
    arith: spec_fn(ArithOp, u16, u16) -> u16,
)
    requires
        ops_ok(e),
        dest < next,
    ensures
        run_ir(expr_ir(e, dest, next).0, regs, arith) matches Some(out) && {
            &&& out.contains_key(dest)
            &&& out[dest] == eval_expr(e, arith)
            &&& unchanged_outside(regs, out, dest, next, expr_ir(e, dest, next).1)
        },
    decreases e,
{
    reveal_with_fuel(run_ir, 4);
    match e {
        Expression::Number(n) => {
            let out = regs.insert(dest, n);
            assert(seq![InstrView::LoadImm(dest, n)].drop_first() =~= Seq::<InstrView>::empty());
            assert(run_ir(expr_ir(e, dest, next).0, regs, arith) == Some(out));
        },
        Expression::Char(c) => {
            let out = regs.insert(dest, c as u16);
            assert(seq![InstrView::LoadImm(dest, c as u16)].drop_first() =~= Seq::<InstrView>::empty());
            assert(run_ir(expr_ir(e, dest, next).0, regs, arith) == Some(out));
        },
        Expression::Paren(inner) => {
            law_expression_ir_computes_value(inner.element, dest, next, regs, arith);
        },
        Expression::Binary { left, op, right } => {
            let l = next;
            let r = next + 1;
            let (li, n1) = expr_ir(left.element, l, next + 2);
            let (ri, n2) = expr_ir(right.element, r, n1);
            crate::ir::builder::lemma_expr_ir_grows(left.element, l, next + 2);
            crate::ir::builder::lemma_expr_ir_grows(right.element, r, n1);
            law_expression_ir_computes_value(left.element, l, next + 2, regs, arith);
            let r1 = run_ir(li, regs, arith).unwrap();
            law_expression_ir_computes_value(right.element, r, n1, r1, arith);
            let r2 = run_ir(ri, r1, arith).unwrap();
            let tail = seq![op_instr_of(op@, l, r, dest), InstrView::Drop(l), InstrView::Drop(r)];
            lemma_run_ir_concat(li, ri, regs, arith);
            lemma_run_ir_concat(li + ri, tail, regs, arith);
            let v = arith(op_of(op@), r2[l], r2[r]);
            let r3 = r2.insert(dest, v);
            let r5 = r3.remove(l).remove(r);
            assert(tail[0] == crate::ir::builder::op_instr(op@, l, r, dest));
            assert(step_ir(tail[0], r2, arith) == Some(r3));
            assert(tail.drop_first().drop_first().drop_first() =~= Seq::<InstrView>::empty());
            assert(run_ir(tail, r2, arith) == Some(r5));
            assert(expr_ir(e, dest, next).0 == (li + ri) + tail);
            assert(r2.contains_key(l) == r1.contains_key(l));
            assert(r2[l] == r1[l]);
            assert(r5.contains_key(dest) && r5[dest] == eval_expr(e, arith));
            assert(unchanged_outside(regs, r5, dest, next, n2)) by {
                assert forall|k: nat| k != dest && (k < next || k >= n2) implies {
                    &&& (#[trigger] r5.contains_key(k)) == regs.contains_key(k)
                    &&& regs.contains_key(k) ==> r5[k] == regs[k]
                } by {
                    assert(k != l && k != r);
                    assert(r1.contains_key(k) == regs.contains_key(k));
                    assert(r2.contains_key(k) == r1.contains_key(k));
                }
            }
        },
    }
}

/// The instruction combining `left` and `right` into `dest` (see the builder).
pub open spec fn op_instr_of(op: TokenView, left: nat, right: nat, dest: nat) -> InstrView {
    crate::ir::builder::op_instr(op, left, right, dest)
}

} // verus!
