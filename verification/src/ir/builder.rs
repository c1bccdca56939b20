//! Compiles statements into IR.
//!
//! Every expression is computed into a destination register; a binary operation first
//! computes its operands into two fresh registers, then combines them and drops them.
//! A printed expression whose type is `char` is printed as it is; one of type `int` is
//! printed in decimal, digit by digit. The type of an expression is that of its leftmost
//! operand.
use vstd::prelude::*;
use vstd::string::*;

use crate::ir::{Instr, InstrView, VReg, instrs_view};
use crate::lexer::{Token, TokenView};
use crate::parser::{Expression, Statement};
use crate::text::{decimal, push_decimal};
use crate::Spanned;

verus! {

/// Compiles a sequence of statements into IR.
pub struct IRBuilder {
    input: Vec<Spanned<Statement>>,
    pos: usize,
    next_reg: VReg,
    label_id: usize,
}

/// The type of an expression.
pub enum Ty {
    Char,
    Int,
}

// ---------------------------------------------------------------------------
// Specification

/// The type of an expression: that of its leftmost operand.
pub open spec fn infer_type_spec(e: Expression) -> Ty
    decreases e,
{
    match e {
        Expression::Number(_) => Ty::Int,
        Expression::Char(_) => Ty::Char,
        Expression::Paren(inner) => infer_type_spec(inner.element),
        Expression::Binary { left, .. } => infer_type_spec(left.element),
    }
}

/// Whether every operator of `e` is an arithmetic one (`+ - * /`).
pub open spec fn ops_ok(e: Expression) -> bool
    decreases e,
{
    match e {
        Expression::Number(_) => true,
        Expression::Char(_) => true,
        Expression::Paren(inner) => ops_ok(inner.element),
        Expression::Binary { left, op, right } => {
            &&& (op@ is Add || op@ is Sub || op@ is Mul || op@ is Div)
            &&& ops_ok(left.element)
            &&& ops_ok(right.element)
        },
    }
}

/// The instruction that combines `left` and `right` into `dest` with the operator `op`.
pub open spec fn op_instr(op: TokenView, left: nat, right: nat, dest: nat) -> InstrView {
    match op {
        TokenView::Add => InstrView::Add { left, right, dest },
        TokenView::Sub => InstrView::Sub { left, right, dest },
        TokenView::Mul => InstrView::Mul { left, right, dest },
        _ => InstrView::Div { left, right, dest },
    }
}

/// The IR computing `e` into `dest`, with `next` the first unused register, and the first
/// unused register after it.
pub open spec fn expr_ir(e: Expression, dest: nat, next: nat) -> (Seq<InstrView>, nat)
    decreases e,
{
    match e {
        Expression::Number(n) => (seq![InstrView::LoadImm(dest, n)], next),
        Expression::Char(c) => (seq![InstrView::LoadImm(dest, c as u16)], next),
        Expression::Paren(inner) => expr_ir(inner.element, dest, next),
        Expression::Binary { left, op, right } => {
            let l = next;
            let r = next + 1;
            let (li, n1) = expr_ir(left.element, l, next + 2);
            let (ri, n2) = expr_ir(right.element, r, n1);
            (li + ri + seq![op_instr(op@, l, r, dest), InstrView::Drop(l), InstrView::Drop(r)], n2)
        },
    }
}

/// The binary expression `left op right`.
pub open spec fn binary_of(left: Spanned<Expression>, op: Token, right: Spanned<Expression>) -> Expression {
    Expression::Binary { left: Box::new(left), op, right: Box::new(right) }
}

/// A label: the prefix, `_` and the number.
pub open spec fn label_name(prefix: Seq<char>, id: nat) -> Seq<char> {
    prefix + "_"@ + decimal(id)
}

/// The IR printing the value in `value` in decimal, with `next` the first unused register and
/// `label` the next label number; also the first unused register and label number after it.
///
/// The digits are pushed on the stack from the least significant one on (one `0` digit for
/// the value zero), then popped, turned into their ASCII codes in place and printed. Every
/// temporary register is dropped as soon as it has been used, except each popped digit,
/// which printing consumes; so the loops need at most seven registers at a time.
pub open spec fn decimal_print_ir(value: nat, next: nat, label: nat) -> (Seq<InstrView>, nat, nat) {
    let zero = next;
    let one = next + 1;
    let ten = next + 2;
    let ascii_zero = next + 3;
    let cur = next + 4;
    let count = next + 5;
    let digit = next + 6;
    let nc = next + 7;
    let nv = next + 8;
    let d = next + 9;
    let dc = next + 10;
    let push_loop = label_name("dec_push"@, label);
    let push_done = label_name("dec_push_done"@, label + 1);
    let skip = label_name("dec_zero_skip"@, label + 2);
    let pop_loop = label_name("dec_pop"@, label + 3);
    let pop_done = label_name("dec_pop_done"@, label + 4);
    (seq![
        InstrView::LoadImm(zero, 0),
        InstrView::LoadImm(one, 1),
        InstrView::LoadImm(ten, 10),
        InstrView::LoadImm(ascii_zero, 48),
        InstrView::Mov(cur, value),
        InstrView::Drop(value),
        InstrView::LoadImm(count, 0),
        InstrView::Label(push_loop),
        InstrView::Cmp(cur, zero),
        InstrView::Jeq(push_done),
        InstrView::Mod { left: cur, right: ten, dest: digit },
        InstrView::Push(digit),
        InstrView::Drop(digit),
        InstrView::Add { left: count, right: one, dest: nc },
        InstrView::Mov(count, nc),
        InstrView::Drop(nc),
        InstrView::Div { left: cur, right: ten, dest: nv },
        InstrView::Mov(cur, nv),
        InstrView::Drop(nv),
        InstrView::Jmp(push_loop),
        InstrView::Label(push_done),
        InstrView::Cmp(count, zero),
        InstrView::Jne(skip),
        InstrView::Push(zero),
        InstrView::LoadImm(count, 1),
        InstrView::Label(skip),
        InstrView::Label(pop_loop),
        InstrView::Cmp(count, zero),
        InstrView::Jeq(pop_done),
        InstrView::Pop(d),
        InstrView::Add { left: d, right: ascii_zero, dest: d },
        InstrView::Print(d),
        InstrView::Sub { left: count, right: one, dest: dc },
        InstrView::Mov(count, dc),
        InstrView::Drop(dc),
        InstrView::Jmp(pop_loop),
        InstrView::Label(pop_done),
        InstrView::Drop(zero),
        InstrView::Drop(one),
        InstrView::Drop(ten),
        InstrView::Drop(ascii_zero),
        InstrView::Drop(cur),
        InstrView::Drop(count),
    ], next + 11, label + 5)
}

/// The IR of a statement, with `next` the first unused register and `label` the next label
/// number; also the first unused register and label number after it.
pub open spec fn stmt_ir(s: Statement, next: nat, label: nat) -> (Seq<InstrView>, nat, nat) {
    match s {
        Statement::Print(e) => {
            let dest = next;
            let (ei, n1) = expr_ir(e.element, dest, next + 1);
            match infer_type_spec(e.element) {
                Ty::Char => (ei.push(InstrView::Print(dest)), n1, label),
                Ty::Int => {
                    let (di, n2, l2) = decimal_print_ir(dest, n1, label);
                    (ei + di, n2, l2)
                },
            }
        },
        Statement::Expression(e) => {
            let (ei, n1) = expr_ir(e.element, next, next + 1);
            (ei, n1, label)
        },
    }
}

/// Whether every operator in a statement is an arithmetic one.
pub open spec fn stmt_ops_ok(s: Statement) -> bool {
    match s {
        Statement::Print(e) => ops_ok(e.element),
        Statement::Expression(e) => ops_ok(e.element),
    }
}

/// The IR of the statements from `i` on, and the first unused register and label number
/// after it.
pub open spec fn build_from(stmts: Seq<Spanned<Statement>>, i: int, next: nat, label: nat) -> (Seq<InstrView>, nat, nat)
    decreases stmts.len() - i,
{
    if i < 0 || i >= stmts.len() {
        (seq![], next, label)
    } else {
        let (si, n1, l1) = stmt_ir(stmts[i].element, next, label);
        let (ri, n2, l2) = build_from(stmts, i + 1, n1, l1);
        (si + ri, n2, l2)
    }
}

/// Whether every statement from `i` on has only arithmetic operators.
pub open spec fn all_ops_ok(stmts: Seq<Spanned<Statement>>, i: int) -> bool {
    forall|k: int| i <= k < stmts.len() ==> #[trigger] stmt_ops_ok(stmts[k].element)
}

// ---------------------------------------------------------------------------
// Lemmas

pub proof fn lemma_expr_ir_grows(e: Expression, dest: nat, next: nat)
    ensures
        expr_ir(e, dest, next).1 >= next,
        e is Binary ==> expr_ir(e, dest, next).1 >= next + 2,
    decreases e,
{
    match e {
        Expression::Paren(inner) => lemma_expr_ir_grows(inner.element, dest, next),
        Expression::Binary { left, op, right } => {
            lemma_expr_ir_grows(left.element, next, next + 2);
            let n1 = expr_ir(left.element, next, next + 2).1;
            lemma_expr_ir_grows(right.element, next + 1, n1);
        },
        _ => {},
    }
}

pub proof fn lemma_stmt_ir_grows(s: Statement, next: nat, label: nat)
    ensures
        stmt_ir(s, next, label).1 > next,
        stmt_ir(s, next, label).2 >= label,
{
    match s {
        Statement::Print(e) => lemma_expr_ir_grows(e.element, next, next + 1),
        Statement::Expression(e) => lemma_expr_ir_grows(e.element, next, next + 1),
    }
}

proof fn lemma_build_from_grows(stmts: Seq<Spanned<Statement>>, i: int, next: nat, label: nat)
    ensures
        build_from(stmts, i, next, label).1 >= next,
        build_from(stmts, i, next, label).2 >= label,
    decreases stmts.len() - i,
{
    if 0 <= i < stmts.len() {
        lemma_stmt_ir_grows(stmts[i].element, next, label);
        let (si, n1, l1) = stmt_ir(stmts[i].element, next, label);
        lemma_build_from_grows(stmts, i + 1, n1, l1);
    }
}

/// How many registers the IR of `e` takes beyond its destination.
pub open spec fn expr_regs(e: Expression) -> nat
    decreases e,
{
    match e {
        Expression::Number(_) => 0,
        Expression::Char(_) => 0,
        Expression::Paren(inner) => expr_regs(inner.element),
        Expression::Binary { left, right, .. } => 2 + expr_regs(left.element) + expr_regs(right.element),
    }
}

/// How many registers and labels the IR of a statement takes.
pub open spec fn stmt_counts(s: Statement) -> (nat, nat) {
    match s {
        Statement::Print(e) => match infer_type_spec(e.element) {
            Ty::Char => (1 + expr_regs(e.element), 0),
            Ty::Int => (12 + expr_regs(e.element), 5),
        },
        Statement::Expression(e) => (1 + expr_regs(e.element), 0),
    }
}

proof fn lemma_expr_regs(e: Expression, dest: nat, next: nat)
    ensures
        expr_ir(e, dest, next).1 == next + expr_regs(e),
    decreases e,
{
    match e {
        Expression::Paren(inner) => lemma_expr_regs(inner.element, dest, next),
        Expression::Binary { left, op, right } => {
            lemma_expr_regs(left.element, next, next + 2);
            let n1 = expr_ir(left.element, next, next + 2).1;
            lemma_expr_regs(right.element, next + 1, n1);
        },
        _ => {},
    }
}

proof fn lemma_stmt_counts(s: Statement, next: nat, label: nat)
    ensures
        stmt_ir(s, next, label).1 == next + stmt_counts(s).0,
        stmt_ir(s, next, label).2 == label + stmt_counts(s).1,
{
    match s {
        Statement::Print(e) => lemma_expr_regs(e.element, next, next + 1),
        Statement::Expression(e) => lemma_expr_regs(e.element, next, next + 1),
    }
}

} // verus!

verus! {

// ---------------------------------------------------------------------------
// Implementation

/// The type of an expression: that of its leftmost operand.
fn infer_type(expr: &Expression) -> (t: Ty)
    ensures
        t == infer_type_spec(*expr),
    decreases expr,
{
    match expr {
        Expression::Number(_) => Ty::Int,
        Expression::Char(_) => Ty::Char,
        Expression::Paren(e) => infer_type(&e.element),
        Expression::Binary { left, .. } => infer_type(&left.element),
    }
}

impl IRBuilder {
    /// The statements being compiled.
    pub closed spec fn input_seq(&self) -> Seq<Spanned<Statement>> {
        self.input@
    }

    /// The index of the next statement to compile.
    pub closed spec fn position(&self) -> int {
        self.pos as int
    }

    /// The first unused register.
    pub closed spec fn next_register(&self) -> nat {
        self.next_reg as nat
    }

    /// The next label number.
    pub closed spec fn next_label(&self) -> nat {
        self.label_id as nat
    }

    /// Whether compiling the remaining statements succeeds: every operator is arithmetic and
    /// the register and label counters stay within `usize`.
    pub open spec fn can_build(&self) -> bool {
        &&& all_ops_ok(self.input_seq(), self.position())
        &&& build_from(self.input_seq(), self.position(), self.next_register(), self.next_label()).1 <= usize::MAX
        &&& build_from(self.input_seq(), self.position(), self.next_register(), self.next_label()).2 <= usize::MAX
    }

    /// A builder for `input`, starting with register 0 and label number 1.
    pub fn new(input: Vec<Spanned<Statement>>) -> (b: Self)
        ensures
            b.input_seq() == input@,
            b.position() == 0,
            b.next_register() == 0,
            b.next_label() == 1,
    {
        Self { input, pos: 0, next_reg: 0, label_id: 1 }
    }

    fn get_reg(&mut self) -> (r: VReg)
        requires
            old(self).next_reg < usize::MAX,
        ensures
            r == old(self).next_reg,
            final(self).next_reg == old(self).next_reg + 1,
            final(self).label_id == old(self).label_id,
            final(self).input == old(self).input,
            final(self).pos == old(self).pos,
    {
        self.next_reg = self.next_reg + 1;
        self.next_reg - 1
    }

    fn new_label(&mut self, prefix: &str) -> (label: String)
        requires
            old(self).label_id < usize::MAX,
        ensures
            label@ == label_name(prefix@, old(self).label_id as nat),
            final(self).label_id == old(self).label_id + 1,
            final(self).next_reg == old(self).next_reg,
            final(self).input == old(self).input,
            final(self).pos == old(self).pos,
    {
        let mut label = prefix.to_owned();
        label.append("_");
        push_decimal(&mut label, self.label_id as u64);
        self.label_id = self.label_id + 1;
        label
    }

    fn eval_expression(&mut self, expression: &Spanned<Expression>, dest: VReg) -> (r: Vec<Instr>)
        requires
            ops_ok(expression.element),
            expr_ir(expression.element, dest as nat, old(self).next_reg as nat).1 <= usize::MAX,
        ensures
            instrs_view(r@) == expr_ir(expression.element, dest as nat, old(self).next_reg as nat).0,
            final(self).next_reg == expr_ir(expression.element, dest as nat, old(self).next_reg as nat).1,
            final(self).label_id == old(self).label_id,
            final(self).input == old(self).input,
            final(self).pos == old(self).pos,
        decreases expression.element, 1int,
    {
        match &expression.element {
            Expression::Number(n) => {
                let v = vec![Instr::LoadImm(dest, *n)];
                assert(instrs_view(v@) =~= seq![InstrView::LoadImm(dest as nat, *n)]);
                v
            },
            Expression::Char(c) => {
                let v = vec![Instr::LoadImm(dest, *c as u16)];
                assert(instrs_view(v@) =~= seq![InstrView::LoadImm(dest as nat, *c as u16)]);
                v
            },
            Expression::Paren(e) => self.eval_expression(e, dest),
            Expression::Binary { left, op, right } => self.eval_binary(left, right, op, dest),
        }
    }

    fn eval_binary(
        &mut self,
        left: &Spanned<Expression>,
        right: &Spanned<Expression>,
        op: &Token,
        dest: VReg,
    ) -> (r: Vec<Instr>)
        requires
            op@ is Add || op@ is Sub || op@ is Mul || op@ is Div,
            ops_ok(left.element),
            ops_ok(right.element),
            expr_ir(binary_of(*left, *op, *right), dest as nat, old(self).next_reg as nat).1 <= usize::MAX,
        ensures
            instrs_view(r@) == expr_ir(binary_of(*left, *op, *right), dest as nat, old(self).next_reg as nat).0,
            final(self).next_reg == expr_ir(binary_of(*left, *op, *right), dest as nat, old(self).next_reg as nat).1,
            final(self).label_id == old(self).label_id,
            final(self).input == old(self).input,
            final(self).pos == old(self).pos,
        decreases binary_of(*left, *op, *right), 0int,
    {
        let ghost e = binary_of(*left, *op, *right);
        let ghost n0 = self.next_reg as nat;
        proof {
            lemma_expr_ir_grows(e, dest as nat, n0);
            lemma_expr_ir_grows(left.element, n0, n0 + 2);
            let n1 = expr_ir(left.element, n0, n0 + 2).1;
            lemma_expr_ir_grows(right.element, n0 + 1, n1);
        }
        let left_reg = self.get_reg();
        let right_reg = self.get_reg();
        let mut out = self.eval_expression(left, left_reg);
        let mut right_ir = self.eval_expression(right, right_reg);
        let op_ir = match op {
            Token::Add => Instr::Add { left: left_reg, right: right_reg, dest },
            Token::Sub => Instr::Sub { left: left_reg, right: right_reg, dest },
            Token::Mul => Instr::Mul { left: left_reg, right: right_reg, dest },
            _ => Instr::Div { left: left_reg, right: right_reg, dest },
        };
        let ghost lv = instrs_view(out@);
        let ghost rv = instrs_view(right_ir@);
        out.append(&mut right_ir);
        out.push(op_ir);
        out.push(Instr::Drop(left_reg));
        out.push(Instr::Drop(right_reg));
        assert(instrs_view(out@) =~= lv + rv + seq![
            op_instr(op@, left_reg as nat, right_reg as nat, dest as nat),
            InstrView::Drop(left_reg as nat),
            InstrView::Drop(right_reg as nat),
        ]);
        out
    }

    fn emit_decimal_print(&mut self, value: VReg) -> (r: Vec<Instr>)
        requires
            old(self).next_reg + 11 <= usize::MAX,
            old(self).label_id + 5 <= usize::MAX,
        ensures
            instrs_view(r@) == decimal_print_ir(value as nat, old(self).next_reg as nat, old(self).label_id as nat).0,
            final(self).next_reg == old(self).next_reg + 11,
            final(self).label_id == old(self).label_id + 5,
            final(self).input == old(self).input,
            final(self).pos == old(self).pos,
    {
        let mut out: Vec<Instr> = Vec::new();

        let zero = self.get_reg(); out.push(Instr::LoadImm(zero, 0));
        let one = self.get_reg(); out.push(Instr::LoadImm(one, 1));
        let ten = self.get_reg(); out.push(Instr::LoadImm(ten, 10));
        let ascii_zero = self.get_reg(); out.push(Instr::LoadImm(ascii_zero, 48));

        let cur = self.get_reg();
        out.push(Instr::Mov(cur, value));
        out.push(Instr::Drop(value));
        let count = self.get_reg(); out.push(Instr::LoadImm(count, 0));

        let push_loop = self.new_label("dec_push");
        let push_done = self.new_label("dec_push_done");

        out.push(Instr::Label(push_loop.clone()));
        out.push(Instr::Cmp(cur, zero));
        out.push(Instr::Jeq(push_done.clone()));

        let digit = self.get_reg();
        out.push(Instr::Mod { left: cur, right: ten, dest: digit });
        out.push(Instr::Push(digit));
        out.push(Instr::Drop(digit));

        let nc = self.get_reg();
        out.push(Instr::Add { left: count, right: one, dest: nc });
        out.push(Instr::Mov(count, nc));
        out.push(Instr::Drop(nc));

        let nv = self.get_reg();
        out.push(Instr::Div { left: cur, right: ten, dest: nv });
        out.push(Instr::Mov(cur, nv));
        out.push(Instr::Drop(nv));

        out.push(Instr::Jmp(push_loop));
        out.push(Instr::Label(push_done));

        let skip = self.new_label("dec_zero_skip");
        out.push(Instr::Cmp(count, zero));
        out.push(Instr::Jne(skip.clone()));
        out.push(Instr::Push(zero));
        out.push(Instr::LoadImm(count, 1));
        out.push(Instr::Label(skip));

        let pop_loop = self.new_label("dec_pop");
        let pop_done = self.new_label("dec_pop_done");

        out.push(Instr::Label(pop_loop.clone()));
        out.push(Instr::Cmp(count, zero));
        out.push(Instr::Jeq(pop_done.clone()));

        let d = self.get_reg();
        out.push(Instr::Pop(d));
        out.push(Instr::Add { left: d, right: ascii_zero, dest: d });
        out.push(Instr::Print(d));

        let dc = self.get_reg();
        out.push(Instr::Sub { left: count, right: one, dest: dc });
        out.push(Instr::Mov(count, dc));
        out.push(Instr::Drop(dc));

        out.push(Instr::Jmp(pop_loop));
        out.push(Instr::Label(pop_done));

        out.push(Instr::Drop(zero));
        out.push(Instr::Drop(one));
        out.push(Instr::Drop(ten));
        out.push(Instr::Drop(ascii_zero));
        out.push(Instr::Drop(cur));
        out.push(Instr::Drop(count));

        assert(instrs_view(out@) =~= decimal_print_ir(value as nat, old(self).next_reg as nat, old(self).label_id as nat).0);
        out
    }

    fn eval_print(&mut self, expression: &Spanned<Expression>) -> (r: Vec<Instr>)
        requires
            ops_ok(expression.element),
            stmt_ir(Statement::Print(Box::new(*expression)), old(self).next_reg as nat, old(self).label_id as nat).1 <= usize::MAX,
            stmt_ir(Statement::Print(Box::new(*expression)), old(self).next_reg as nat, old(self).label_id as nat).2 <= usize::MAX,
        ensures
            instrs_view(r@) == stmt_ir(Statement::Print(Box::new(*expression)), old(self).next_reg as nat, old(self).label_id as nat).0,
            final(self).next_reg == stmt_ir(Statement::Print(Box::new(*expression)), old(self).next_reg as nat, old(self).label_id as nat).1,
            final(self).label_id == stmt_ir(Statement::Print(Box::new(*expression)), old(self).next_reg as nat, old(self).label_id as nat).2,
            final(self).input == old(self).input,
            final(self).pos == old(self).pos,
    {
        let ghost n0 = self.next_reg as nat;
        proof { lemma_expr_ir_grows(expression.element, n0, n0 + 1); }
        let ty = infer_type(&expression.element);
        let dest = self.get_reg();
        let mut instructions = self.eval_expression(expression, dest);
        let ghost ev = instrs_view(instructions@);

        match ty {
            Ty::Char => {
                instructions.push(Instr::Print(dest));
                assert(instrs_view(instructions@) =~= ev.push(InstrView::Print(dest as nat)));
            },
            Ty::Int => {
                let mut digits = self.emit_decimal_print(dest);
                let ghost dv = instrs_view(digits@);
                instructions.append(&mut digits);
                assert(instrs_view(instructions@) =~= ev + dv);
            },
        }

        instructions
    }

    fn eval_statement(&mut self, statement: &Spanned<Statement>) -> (r: Vec<Instr>)
        requires
            stmt_ops_ok(statement.element),
            stmt_ir(statement.element, old(self).next_reg as nat, old(self).label_id as nat).1 <= usize::MAX,
            stmt_ir(statement.element, old(self).next_reg as nat, old(self).label_id as nat).2 <= usize::MAX,
        ensures
            instrs_view(r@) == stmt_ir(statement.element, old(self).next_reg as nat, old(self).label_id as nat).0,
            final(self).next_reg == stmt_ir(statement.element, old(self).next_reg as nat, old(self).label_id as nat).1,
            final(self).label_id == stmt_ir(statement.element, old(self).next_reg as nat, old(self).label_id as nat).2,
            final(self).input == old(self).input,
            final(self).pos == old(self).pos,
    {
        match &statement.element {
            Statement::Print(e) => self.eval_print(e),
            Statement::Expression(e) => {
                proof { lemma_expr_ir_grows(e.element, self.next_reg as nat, (self.next_reg + 1) as nat); }
                let dest = self.get_reg();
                self.eval_expression(e, dest)
            },
        }
    }

    fn advance(&mut self)
        requires
            old(self).pos < usize::MAX,
        ensures
            final(self).pos == old(self).pos + 1,
            final(self).input == old(self).input,
            final(self).next_reg == old(self).next_reg,
            final(self).label_id == old(self).label_id,
    {
        self.pos = self.pos + 1;
    }

    /// Compiles the remaining statements, in order.
    pub fn build(&mut self) -> (r: Vec<Instr>)
        requires
            old(self).can_build(),
        ensures
            instrs_view(r@) == build_from(
                old(self).input_seq(),
                old(self).position(),
                old(self).next_register(),
                old(self).next_label(),
            ).0,
            final(self).input_seq() == old(self).input_seq(),
            final(self).position() == (if old(self).position() < old(self).input_seq().len() {
                old(self).input_seq().len() as int
            } else {
                old(self).position()
            }),
            final(self).next_register() == build_from(
                old(self).input_seq(),
                old(self).position(),
                old(self).next_register(),
                old(self).next_label(),
            ).1,
            final(self).next_label() == build_from(
                old(self).input_seq(),
                old(self).position(),
                old(self).next_register(),
                old(self).next_label(),
            ).2,
    {
        let ghost stmts = self.input@;
        let ghost all = build_from(stmts, self.pos as int, self.next_reg as nat, self.label_id as nat);
        let mut instructions: Vec<Instr> = Vec::new();
        let mut input: Vec<Spanned<Statement>> = Vec::new();
        core::mem::swap(&mut input, &mut self.input);
        let _n = input.len();
        while self.pos < input.len()
            invariant
                stmts == input@,
                input@.len() <= usize::MAX,
                all_ops_ok(stmts, old(self).pos as int),
                old(self).pos <= self.pos,
                old(self).pos < stmts.len() ==> self.pos <= stmts.len(),
                old(self).pos >= stmts.len() ==> self.pos == old(self).pos,
                all.1 <= usize::MAX,
                all.2 <= usize::MAX,
                all == ({
                    let rest = build_from(stmts, self.pos as int, self.next_reg as nat, self.label_id as nat);
                    (instrs_view(instructions@) + rest.0, rest.1, rest.2)
                }),
            decreases stmts.len() - self.pos,
        {
            let ghost i = self.pos as int;
            let ghost n0 = self.next_reg as nat;
            let ghost l0 = self.label_id as nat;
            let ghost step = stmt_ir(stmts[i].element, n0, l0);
            proof {
                assert(stmt_ops_ok(stmts[i].element));
                lemma_build_from_grows(stmts, i + 1, step.1, step.2);
            }
            let ghost before = instrs_view(instructions@);
            let mut v = self.eval_statement(&input[self.pos]);
            let ghost sv = instrs_view(v@);
            instructions.append(&mut v);
            assert(instrs_view(instructions@) =~= before + sv);
            self.advance();
            assert(build_from(stmts, i, n0, l0).0 =~= sv + build_from(stmts, i + 1, step.1, step.2).0);
            assert(before + build_from(stmts, i, n0, l0).0 =~= instrs_view(instructions@) + build_from(stmts, i + 1, step.1, step.2).0);
        }
        assert(build_from(stmts, self.pos as int, self.next_reg as nat, self.label_id as nat).0 =~= Seq::<InstrView>::empty());
        assert(instrs_view(instructions@) + Seq::<InstrView>::empty() =~= instrs_view(instructions@));
        self.input = input;
        instructions
    }

    /// Gives back the statements.
    pub fn into_input(self) -> (s: Vec<Spanned<Statement>>)
        ensures
            s@ == self.input_seq(),
    {
        self.input
    }

    /// Whether compiling the remaining statements succeeds (see [`Self::can_build`]).
    pub fn fits(&self) -> (r: bool)
        ensures
            r == self.can_build(),
    {
        let mut next: usize = self.next_reg;
        let mut label: usize = self.label_id;
        let mut i = self.pos;
        let ghost stmts = self.input@;
        let ghost start = self.pos as int;
        proof { lemma_build_from_grows(stmts, start, next as nat, label as nat); }
        if i >= self.input.len() {
            assert(all_ops_ok(stmts, start));
            return true;
        }
        while i < self.input.len()
            invariant
                stmts == self.input@,
                start == self.pos,
                start <= i <= stmts.len(),
                all_ops_ok(stmts, start) == all_ops_ok(stmts, i as int)
                    && forall|k: int| start <= k < i ==> #[trigger] stmt_ops_ok(stmts[k].element),
                build_from(stmts, start, self.next_reg as nat, self.label_id as nat).1
                    == build_from(stmts, i as int, next as nat, label as nat).1,
                build_from(stmts, start, self.next_reg as nat, self.label_id as nat).2
                    == build_from(stmts, i as int, next as nat, label as nat).2,
            decreases stmts.len() - i,
        {
            let s = &self.input[i].element;
            let ghost n0 = next as nat;
            let ghost l0 = label as nat;
            proof {
                lemma_stmt_counts(*s, n0, l0);
                let (_, n1, l1) = stmt_ir(*s, n0, l0);
                lemma_build_from_grows(stmts, i + 1, n1, l1);
            }
            let ok = match s {
                Statement::Print(e) => ops_ok_exec(&e.element),
                Statement::Expression(e) => ops_ok_exec(&e.element),
            };
            if !ok {
                assert(!stmt_ops_ok(stmts[i as int].element));
                return false;
            }
            let (regs, labels) = match stmt_counts_exec(s) {
                Some(c) => c,
                None => { return false; },
            };
            if regs > usize::MAX - next || labels > usize::MAX - label {
                return false;
            }
            next = next + regs;
            label = label + labels;
            i = i + 1;
        }
        true
    }
}

/// Whether every operator of `e` is arithmetic.
fn ops_ok_exec(e: &Expression) -> (r: bool)
    ensures
        r == ops_ok(*e),
    decreases e,
{
    match e {
        Expression::Number(_) => true,
        Expression::Char(_) => true,
        Expression::Paren(inner) => ops_ok_exec(&inner.element),
        Expression::Binary { left, op, right } => {
            let arith = match op {
                Token::Add | Token::Sub | Token::Mul | Token::Div => true,
                _ => false,
            };
            arith && ops_ok_exec(&left.element) && ops_ok_exec(&right.element)
        },
    }
}

/// How many registers the IR of `e` takes beyond its destination, if that fits in `usize`.
fn expr_regs_exec(e: &Expression) -> (r: Option<usize>)
    ensures
        match r {
            Some(n) => n == expr_regs(*e),
            None => expr_regs(*e) > usize::MAX,
        },
    decreases e,
{
    match e {
        Expression::Number(_) => Some(0),
        Expression::Char(_) => Some(0),
        Expression::Paren(inner) => expr_regs_exec(&inner.element),
        Expression::Binary { left, right, .. } => {
            let l = match expr_regs_exec(&left.element) { Some(n) => n, None => { return None; } };
            let r = match expr_regs_exec(&right.element) { Some(n) => n, None => { return None; } };
            if l > usize::MAX - 2 || r > usize::MAX - 2 - l {
                None
            } else {
                Some(2 + l + r)
            }
        },
    }
}

/// How many registers and labels the IR of a statement takes, if that fits in `usize`.
fn stmt_counts_exec(s: &Statement) -> (r: Option<(usize, usize)>)
    ensures
        match r {
            Some((regs, labels)) => regs == stmt_counts(*s).0 && labels == stmt_counts(*s).1,
            None => stmt_counts(*s).0 > usize::MAX,
        },
{
    match s {
        Statement::Print(e) => {
            let n = match expr_regs_exec(&e.element) { Some(n) => n, None => { return None; } };
            match infer_type(&e.element) {
                Ty::Char => if n > usize::MAX - 1 { None } else { Some((1 + n, 0)) },
                Ty::Int => if n > usize::MAX - 12 { None } else { Some((12 + n, 5)) },
            }
        },
        Statement::Expression(e) => {
            let n = match expr_regs_exec(&e.element) { Some(n) => n, None => { return None; } };
            if n > usize::MAX - 1 { None } else { Some((1 + n, 0)) }
        },
    }
}

} // verus!
