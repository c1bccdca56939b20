//! Running whole IR programs on the machine, and the law that the IR of a program prints what
//! its `print` statements promise.
use vstd::prelude::*;

use crate::ir::InstrView;
use crate::ir::machine::{Machine, label_from, machine_step, steps, target};
use crate::ir::builder::{Ty, all_ops_ok, build_from, decimal_print_ir, expr_ir, infer_type_spec, label_name, stmt_ir, stmt_ops_ok};
use crate::ir::machine::{decimal_codes, lemma_steps_add, usual_arith};
use crate::ir::semantics::eval_expr;
use crate::parser::{Expression, Statement};
use crate::Spanned;
use crate::ir::semantics::{ArithOp, run_ir, step_ir};
use crate::text::{decimal, digit_char};

verus! {

/// The machine with its program counter moved by `o`.
pub open spec fn shift(m: Machine, o: int) -> Machine {
    Machine { pc: m.pc + o, ..m }
}

/// Straight-line instructions standing in `prog` from `a` on run as `run_ir` says.
proof fn lemma_straight(prog: Seq<InstrView>, a: int, ins: Seq<InstrView>, m: Machine, arith: spec_fn(ArithOp, u16, u16) -> u16)
    requires
        0 <= a,
        a + ins.len() <= prog.len(),
        forall|i: int| 0 <= i < ins.len() ==> prog[a + i] == ins[i],
        m.pc == a,
        run_ir(ins, m.regs, arith) is Some,
    ensures
        steps(prog, m, ins.len(), arith) == Some(Machine { pc: a + ins.len(), regs: run_ir(ins, m.regs, arith).unwrap(), ..m }),
    decreases ins.len(),
{
    if ins.len() > 0 {
        let r1 = step_ir(ins[0], m.regs, arith).unwrap();
        assert(prog[a] == ins[0]);
        let m1 = Machine { pc: a + 1, regs: r1, ..m };
        assert(machine_step(prog, m, arith) == Some(m1));
        let rest = ins.drop_first();
        assert forall|i: int| 0 <= i < rest.len() implies prog[(a + 1) + i] == rest[i] by {
            assert(prog[a + (i + 1)] == ins[i + 1]);
        }
        lemma_straight(prog, a + 1, rest, m1, arith);
    }
}

/// No `Label(name)` stands in `[i, j)`: looking from `i` is looking from `j`.
proof fn lemma_label_from_skip(prog: Seq<InstrView>, name: Seq<char>, i: int, j: int)
    requires
        0 <= i <= j <= prog.len(),
        forall|k: int| i <= k < j ==> prog[k] != InstrView::Label(name),
    ensures
        label_from(prog, name, i) == label_from(prog, name, j),
    decreases j - i,
{
    if i < j {
        lemma_label_from_skip(prog, name, i + 1, j);
    }
}

/// A label found in `q` is found at the same place in `pre + q + post`, moved by `pre`.
proof fn lemma_label_from_shift(pre: Seq<InstrView>, q: Seq<InstrView>, post: Seq<InstrView>, name: Seq<char>, i: int)
    requires
        0 <= i <= q.len(),
        label_from(q, name, i) < q.len(),
    ensures
        label_from(pre + q + post, name, pre.len() + i) == pre.len() + label_from(q, name, i),
    decreases q.len() - i,
{
    let p = pre + q + post;
    if i < q.len() {
        assert(p[pre.len() + i] == q[i]);
        if q[i] != InstrView::Label(name) {
            lemma_label_from_shift(pre, q, post, name, i + 1);
        }
    }
}

/// Every jump of `q` lands, in `pre + q + post`, where it lands in `q`, moved by `pre`.
pub open spec fn jumps_kept(pre: Seq<InstrView>, q: Seq<InstrView>, post: Seq<InstrView>) -> bool {
    forall|i: int| 0 <= i < q.len() ==> match #[trigger] q[i] {
        InstrView::Jmp(l) => target(pre + q + post, l) == pre.len() + target(q, l),
        InstrView::Jeq(l) => target(pre + q + post, l) == pre.len() + target(q, l),
        InstrView::Jne(l) => target(pre + q + post, l) == pre.len() + target(q, l),
        _ => true,
    }
}

/// A run of `q` is a run of `q` standing inside `pre + q + post`.
proof fn lemma_embed(
    pre: Seq<InstrView>,
    q: Seq<InstrView>,
    post: Seq<InstrView>,
    m: Machine,
    k: nat,
    arith: spec_fn(ArithOp, u16, u16) -> u16,
)
    requires
        jumps_kept(pre, q, post),
        steps(q, m, k, arith) is Some,
    ensures
        steps(pre + q + post, shift(m, pre.len() as int), k, arith) == Some(shift(steps(q, m, k, arith).unwrap(), pre.len() as int)),
    decreases k,
{
    if k > 0 {
        let p = pre + q + post;
        let o = pre.len() as int;
        let m1 = machine_step(q, m, arith).unwrap();
        assert(0 <= m.pc < q.len());
        assert(p[o + m.pc] == q[m.pc]);
        assert(machine_step(p, shift(m, o), arith) == Some(shift(m1, o)));
        lemma_embed(pre, q, post, m1, (k - 1) as nat, arith);
    }
}

/// The prefixes of the labels that the IR uses.
pub open spec fn is_label_prefix(p: Seq<char>) -> bool {
    ||| p == "dec_push"@
    ||| p == "dec_push_done"@
    ||| p == "dec_zero_skip"@
    ||| p == "dec_pop"@
    ||| p == "dec_pop_done"@
}

proof fn lemma_decimal_shape(n: nat)
    ensures
        decimal(n).len() >= 1,
        '0' <= decimal(n)[0] <= '9',
        n >= 10 ==> decimal(n).len() >= 2,
    decreases n,
{
    if n >= 10 {
        lemma_decimal_shape(n / 10);
    }
}

/// Different numbers have different decimal representations.
proof fn lemma_decimal_injective(i: nat, j: nat)
    requires
        decimal(i) == decimal(j),
    ensures
        i == j,
    decreases i,
{
    lemma_decimal_shape(i);
    lemma_decimal_shape(j);
    if i >= 10 && j >= 10 {
        let a = decimal(i);
        assert(a.last() == digit_char(i % 10));
        assert(decimal(j).last() == digit_char(j % 10));
        assert(i % 10 == j % 10);
        assert(a.drop_last() =~= decimal(i / 10));
        assert(decimal(j).drop_last() =~= decimal(j / 10));
        lemma_decimal_injective(i / 10, j / 10);
    }
}

/// Labels with different numbers, or with different prefixes, have different names.
proof fn lemma_label_names_distinct(p1: Seq<char>, i: nat, p2: Seq<char>, j: nat)
    requires
        is_label_prefix(p1),
        is_label_prefix(p2),
        p1 != p2 || i != j,
    ensures
        label_name(p1, i) != label_name(p2, j),
{
    reveal_strlit("dec_push");
    reveal_strlit("dec_push_done");
    reveal_strlit("dec_zero_skip");
    reveal_strlit("dec_pop");
    reveal_strlit("dec_pop_done");
    reveal_strlit("_");
    lemma_decimal_shape(i);
    lemma_decimal_shape(j);
    let a = label_name(p1, i);
    let b = label_name(p2, j);
    if p1 == p2 {
        if a == b {
            assert(a.skip(p1.len() + 1int) =~= decimal(i));
            assert(b.skip(p2.len() + 1int) =~= decimal(j));
            lemma_decimal_injective(i, j);
        }
    } else if p1 == "dec_zero_skip"@ || p2 == "dec_zero_skip"@ {
        assert(a[4] != b[4]);
    } else if (p1 == "dec_push"@ || p1 == "dec_push_done"@) != (p2 == "dec_push"@ || p2 == "dec_push_done"@) {
        assert(a[5] != b[5]);
    } else if p1 == "dec_push"@ || p1 == "dec_push_done"@ {
        assert(a[9] != b[9]);
    } else {
        assert(a[8] != b[8]);
    }
}

/// No instruction of `s` is a label named with a prefix of the IR and a number from `lim` on.
pub open spec fn labels_below(s: Seq<InstrView>, lim: nat) -> bool {
    forall|k: int, pr: Seq<char>, id: nat|
        #![trigger s[k], label_name(pr, id)]
        0 <= k < s.len() && is_label_prefix(pr) && id >= lim ==> s[k] != InstrView::Label(label_name(pr, id))
}

proof fn lemma_labels_below_concat(a: Seq<InstrView>, la: nat, b: Seq<InstrView>, lb: nat)
    requires
        labels_below(a, la),
        labels_below(b, lb),
        la <= lb,
    ensures
        labels_below(a + b, lb),
{
    let s = a + b;
    assert forall|k: int, pr: Seq<char>, id: nat|
        0 <= k < s.len() && is_label_prefix(pr) && id >= lb implies #[trigger] s[k] != InstrView::Label(#[trigger] label_name(pr, id)) by {
        if k < a.len() {
            assert(s[k] == a[k]);
        } else {
            assert(s[k] == b[k - a.len()]);
        }
    }
}

/// The IR of an expression has no labels.
proof fn lemma_expr_ir_no_labels(e: Expression, dest: nat, next: nat)
    ensures
        forall|k: int| 0 <= k < expr_ir(e, dest, next).0.len() ==> !(#[trigger] expr_ir(e, dest, next).0[k] is Label),
    decreases e,
{
    match e {
        Expression::Paren(inner) => lemma_expr_ir_no_labels(inner.element, dest, next),
        Expression::Binary { left, op, right } => {
            let (li, n1) = expr_ir(left.element, next, next + 2);
            let (ri, n2) = expr_ir(right.element, next + 1, n1);
            lemma_expr_ir_no_labels(left.element, next, next + 2);
            lemma_expr_ir_no_labels(right.element, next + 1, n1);
            let tail = seq![crate::ir::builder::op_instr(op@, next, next + 1, dest), InstrView::Drop(next), InstrView::Drop(next + 1)];
            let s = li + ri + tail;
            assert forall|k: int| 0 <= k < s.len() implies !(#[trigger] s[k] is Label) by {
                if k < li.len() {
                    assert(s[k] == li[k]);
                } else if k < li.len() + ri.len() {
                    assert(s[k] == ri[k - li.len()]);
                } else {
                    assert(s[k] == tail[k - li.len() - ri.len()]);
                }
            }
        },
        _ => {},
    }
}

/// One of the five labels of the decimal printing numbered from `label`.
pub open spec fn dp_name(l: Seq<char>, label: nat) -> bool {
    ||| l == label_name("dec_push"@, label)
    ||| l == label_name("dec_push_done"@, label + 1)
    ||| l == label_name("dec_zero_skip"@, label + 2)
    ||| l == label_name("dec_pop"@, label + 3)
    ||| l == label_name("dec_pop_done"@, label + 4)
}

/// Every label and every jump of the decimal printing names one of its five labels.
proof fn lemma_dp_names(value: nat, next: nat, label: nat)
    ensures
        forall|k: int| 0 <= k < decimal_print_ir(value, next, label).0.len() ==> match #[trigger] decimal_print_ir(value, next, label).0[k] {
            InstrView::Label(l) => dp_name(l, label),
            InstrView::Jmp(l) => dp_name(l, label),
            InstrView::Jeq(l) => dp_name(l, label),
            InstrView::Jne(l) => dp_name(l, label),
            _ => true,
        },
{
    let p = decimal_print_ir(value, next, label).0;
    crate::ir::machine::lemma_dp_instrs(value, next, label);
    assert forall|k: int| 0 <= k < p.len() implies match #[trigger] p[k] {
        InstrView::Label(l) => dp_name(l, label),
        InstrView::Jmp(l) => dp_name(l, label),
        InstrView::Jeq(l) => dp_name(l, label),
        InstrView::Jne(l) => dp_name(l, label),
        _ => true,
    } by {
        if k == 0 {
        } else if k == 1 {
        } else if k == 2 {
        } else if k == 3 {
        } else if k == 4 {
        } else if k == 5 {
        } else if k == 6 {
        } else if k == 7 {
        } else if k == 8 {
        } else if k == 9 {
        } else if k == 10 {
        } else if k == 11 {
        } else if k == 12 {
        } else if k == 13 {
        } else if k == 14 {
        } else if k == 15 {
        } else if k == 16 {
        } else if k == 17 {
        } else if k == 18 {
        } else if k == 19 {
        } else if k == 20 {
        } else if k == 21 {
        } else if k == 22 {
        } else if k == 23 {
        } else if k == 24 {
        } else if k == 25 {
        } else if k == 26 {
        } else if k == 27 {
        } else if k == 28 {
        } else if k == 29 {
        } else if k == 30 {
        } else if k == 31 {
        } else if k == 32 {
        } else if k == 33 {
        } else if k == 34 {
        } else if k == 35 {
        } else if k == 36 {
        } else if k == 37 {
        } else if k == 38 {
        } else if k == 39 {
        } else if k == 40 {
        } else if k == 41 {
        } else if k == 42 {
        }
    }
}

proof fn lemma_dp_labels_below(value: nat, next: nat, label: nat)
    ensures
        labels_below(decimal_print_ir(value, next, label).0, label + 5),
{
    let p = decimal_print_ir(value, next, label).0;
    lemma_dp_names(value, next, label);
    assert forall|k: int, pr: Seq<char>, id: nat|
        0 <= k < p.len() && is_label_prefix(pr) && id >= label + 5 implies #[trigger] p[k] != InstrView::Label(#[trigger] label_name(pr, id)) by {
        lemma_label_names_distinct(pr, id, "dec_push"@, label);
        lemma_label_names_distinct(pr, id, "dec_push_done"@, label + 1);
        lemma_label_names_distinct(pr, id, "dec_zero_skip"@, label + 2);
        lemma_label_names_distinct(pr, id, "dec_pop"@, label + 3);
        lemma_label_names_distinct(pr, id, "dec_pop_done"@, label + 4);
    }
}

/// A label that `q` holds, and that `pre` does not, is found in `pre + q + post` inside `q`.
proof fn lemma_target_kept(pre: Seq<InstrView>, q: Seq<InstrView>, post: Seq<InstrView>, lim: nat, pr: Seq<char>, id: nat)
    requires
        labels_below(pre, lim),
        is_label_prefix(pr),
        id >= lim,
        target(q, label_name(pr, id)) < q.len(),
    ensures
        target(pre + q + post, label_name(pr, id)) == pre.len() + target(q, label_name(pr, id)),
{
    let l = label_name(pr, id);
    let p = pre + q + post;
    assert forall|k: int| 0 <= k < pre.len() implies p[k] != InstrView::Label(l) by {
        assert(p[k] == pre[k]);
        assert(pre[k] != InstrView::Label(label_name(pr, id)));
    }
    lemma_label_from_skip(p, l, 0, pre.len() as int);
    lemma_label_from_shift(pre, q, post, l, 0);
}

/// The jumps of the decimal printing land where they should after any prefix without its
/// labels.
proof fn lemma_dp_jumps_kept(pre: Seq<InstrView>, post: Seq<InstrView>, value: nat, next: nat, label: nat)
    requires
        labels_below(pre, label),
    ensures
        jumps_kept(pre, decimal_print_ir(value, next, label).0, post),
{
    let q = decimal_print_ir(value, next, label).0;
    lemma_dp_names(value, next, label);
    crate::ir::machine::lemma_dp_targets(value, next, label);
    crate::ir::machine::lemma_dp_instrs(value, next, label);
    lemma_target_kept(pre, q, post, label, "dec_push"@, label);
    lemma_target_kept(pre, q, post, label, "dec_push_done"@, label + 1);
    lemma_target_kept(pre, q, post, label, "dec_zero_skip"@, label + 2);
    lemma_target_kept(pre, q, post, label, "dec_pop"@, label + 3);
    lemma_target_kept(pre, q, post, label, "dec_pop_done"@, label + 4);
}

/// What a statement prints: a `char` as it is, an `int` in decimal, nothing for an
/// expression statement.
pub open spec fn stmt_output(s: Statement, arith: spec_fn(ArithOp, u16, u16) -> u16) -> Seq<u16> {
    match s {
        Statement::Print(e) => match infer_type_spec(e.element) {
            Ty::Char => seq![eval_expr(e.element, arith)],
            Ty::Int => decimal_codes(eval_expr(e.element, arith) as nat),
        },
        Statement::Expression(_) => Seq::empty(),
    }
}

/// What the statements from `i` on print, one after the other.
pub open spec fn program_output(stmts: Seq<Spanned<Statement>>, i: int, arith: spec_fn(ArithOp, u16, u16) -> u16) -> Seq<u16>
    decreases stmts.len() - i,
{
    if i < 0 || i >= stmts.len() {
        Seq::empty()
    } else {
        stmt_output(stmts[i].element, arith) + program_output(stmts, i + 1, arith)
    }
}

/// The IR of an expression, standing in a program, leaves its value in its destination.
proof fn lemma_expr_run(
    pre: Seq<InstrView>,
    post: Seq<InstrView>,
    e: Expression,
    dest: nat,
    next: nat,
    m: Machine,
    arith: spec_fn(ArithOp, u16, u16) -> u16,
) -> (m1: Machine)
    requires
        crate::ir::builder::ops_ok(e),
        dest < next,
        m.pc == pre.len(),
    ensures
        steps(pre + expr_ir(e, dest, next).0 + post, m, expr_ir(e, dest, next).0.len(), arith) == Some(m1),
        m1 == (Machine { pc: m1.pc, regs: m1.regs, ..m }),
        m1.pc == pre.len() + expr_ir(e, dest, next).0.len(),
        m1.regs.contains_key(dest),
        m1.regs[dest] == eval_expr(e, arith),
{
    let ei = expr_ir(e, dest, next).0;
    let p = pre + ei + post;
    crate::ir::semantics::law_expression_ir_computes_value(e, dest, next, m.regs, arith);
    assert forall|i: int| 0 <= i < ei.len() implies p[pre.len() + i] == ei[i] by {}
    lemma_straight(p, pre.len() as int, ei, m, arith);
    Machine { pc: (pre.len() + ei.len()) as int, regs: run_ir(ei, m.regs, arith).unwrap(), ..m }
}

/// The IR of a statement, standing in a program after instructions without its labels,
/// prints what the statement prints.
proof fn lemma_stmt_run(
    pre: Seq<InstrView>,
    post: Seq<InstrView>,
    s: Statement,
    next: nat,
    label: nat,
    m: Machine,
    arith: spec_fn(ArithOp, u16, u16) -> u16,
) -> (k: nat)
    requires
        usual_arith(arith),
        stmt_ops_ok(s),
        labels_below(pre, label),
        m.pc == pre.len(),
    ensures
        steps(pre + stmt_ir(s, next, label).0 + post, m, k, arith) matches Some(m2) && {
            &&& m2.pc == pre.len() + stmt_ir(s, next, label).0.len()
            &&& m2.out == m.out + stmt_output(s, arith)
            &&& m2.stack == m.stack
        },
{
    let si = stmt_ir(s, next, label).0;
    let p = pre + si + post;
    match s {
        Statement::Print(e) => {
            let (ei, n1) = expr_ir(e.element, next, next + 1);
            match infer_type_spec(e.element) {
                Ty::Char => {
                    let tail = seq![InstrView::Print(next)] + post;
                    assert(p =~= pre + ei + tail);
                    let m1 = lemma_expr_run(pre, tail, e.element, next, next + 1, m, arith);
                    let m2 = Machine { pc: m1.pc + 1, out: m1.out.push(m1.regs[next]), ..m1 };
                    assert(p[m1.pc] == InstrView::Print(next));
                    assert(steps(p, m1, 1, arith) == Some(m2)) by {
                        reveal_with_fuel(steps, 2);
                    }
                    lemma_steps_add(p, m, ei.len(), 1, arith);
                    assert(m2.out =~= m.out + stmt_output(s, arith));
                    ei.len() + 1
                },
                Ty::Int => {
                    crate::ir::builder::lemma_expr_ir_grows(e.element, next, next + 1);
                    let di = decimal_print_ir(next, n1, label).0;
                    let tail = di + post;
                    assert(p =~= pre + ei + tail);
                    let m1 = lemma_expr_run(pre, tail, e.element, next, next + 1, m, arith);
                    let pre2 = pre + ei;
                    assert(p =~= pre2 + di + post);
                    lemma_expr_ir_no_labels(e.element, next, next + 1);
                    lemma_labels_below_concat(pre, label, ei, label);
                    lemma_dp_jumps_kept(pre2, post, next, n1, label);
                    let mz = Machine { pc: 0, ..m1 };
                    crate::ir::machine::law_decimal_print_prints_digits(next, n1, label, mz, arith);
                    let kd = choose|kd: nat| #[trigger] steps(di, mz, kd, arith) matches Some(m2) && {
                        &&& m2.pc == di.len()
                        &&& m2.out == mz.out + decimal_codes(mz.regs[next] as nat)
                        &&& m2.stack == mz.stack
                        &&& !m2.regs.contains_key(next)
                        &&& crate::ir::semantics::unchanged_outside(mz.regs, m2.regs, next, n1, n1 + 11)
                    };
                    lemma_embed(pre2, di, post, mz, kd, arith);
                    assert(shift(mz, pre2.len() as int) == m1);
                    lemma_steps_add(p, m, ei.len(), kd, arith);
                    ei.len() + kd
                },
            }
        },
        Statement::Expression(e) => {
            let m1 = lemma_expr_run(pre, post, e.element, next, next + 1, m, arith);
            assert(m1.out =~= m.out + stmt_output(s, arith));
            expr_ir(e.element, next, next + 1).0.len()
        },
    }
}

/// The labels of a statement's IR are numbered below the next label number after it.
proof fn lemma_stmt_labels_below(s: Statement, next: nat, label: nat)
    ensures
        labels_below(stmt_ir(s, next, label).0, stmt_ir(s, next, label).2),
{
    let si = stmt_ir(s, next, label).0;
    match s {
        Statement::Print(e) => {
            let (ei, n1) = expr_ir(e.element, next, next + 1);
            lemma_expr_ir_no_labels(e.element, next, next + 1);
            match infer_type_spec(e.element) {
                Ty::Char => {
                    assert forall|k: int, pr: Seq<char>, id: nat|
                        0 <= k < si.len() && is_label_prefix(pr) && id >= label implies #[trigger] si[k] != InstrView::Label(#[trigger] label_name(pr, id)) by {
                        if k < ei.len() {
                            assert(si[k] == ei[k]);
                        }
                    }
                },
                Ty::Int => {
                    lemma_dp_labels_below(next, n1, label);
                    lemma_labels_below_concat(ei, label, decimal_print_ir(next, n1, label).0, label + 5);
                },
            }
        },
        Statement::Expression(e) => {
            lemma_expr_ir_no_labels(e.element, next, next + 1);
        },
    }
}

/// The IR of the statements from `i` on, standing after instructions without its labels,
/// prints what the statements print.
proof fn lemma_build_run(
    pre: Seq<InstrView>,
    stmts: Seq<Spanned<Statement>>,
    i: int,
    next: nat,
    label: nat,
    m: Machine,
    arith: spec_fn(ArithOp, u16, u16) -> u16,
) -> (k: nat)
    requires
        usual_arith(arith),
        all_ops_ok(stmts, i),
        labels_below(pre, label),
        0 <= i <= stmts.len(),
        m.pc == pre.len(),
    ensures
        steps(pre + build_from(stmts, i, next, label).0, m, k, arith) matches Some(m2) && {
            &&& m2.pc == pre.len() + build_from(stmts, i, next, label).0.len()
            &&& m2.out == m.out + program_output(stmts, i, arith)
            &&& m2.stack == m.stack
        },
    decreases stmts.len() - i,
{
    if i == stmts.len() {
        assert(pre + build_from(stmts, i, next, label).0 =~= pre);
        assert(m.out + program_output(stmts, i, arith) =~= m.out);
        0
    } else {
        let s = stmts[i].element;
        assert(stmt_ops_ok(s));
        let (si, n1, l1) = stmt_ir(s, next, label);
        let rest = build_from(stmts, i + 1, n1, l1).0;
        let p = pre + build_from(stmts, i, next, label).0;
        assert(p =~= pre + si + rest);
        let k1 = lemma_stmt_run(pre, rest, s, next, label, m, arith);
        let m1 = steps(p, m, k1, arith).unwrap();
        crate::ir::builder::lemma_stmt_ir_grows(s, next, label);
        lemma_stmt_labels_below(s, next, label);
        lemma_labels_below_concat(pre, label, si, l1);
        let pre2 = pre + si;
        assert(p =~= pre2 + rest);
        let k2 = lemma_build_run(pre2, stmts, i + 1, n1, l1, m1, arith);
        lemma_steps_add(p, m, k1, k2, arith);
        let m2 = steps(p, m1, k2, arith).unwrap();
        assert(m2.out =~= m.out + program_output(stmts, i, arith));
        k1 + k2
    }
}

/// Law: the IR of a program, run on the machine from its first instruction with any
/// registers, reaches its end having printed, statement after statement, what each `print`
/// promises: a `char` expression's value as it is and an `int` expression's value in decimal
/// digits; the stack is left as it was found. This holds whatever register and label numbers
/// the IR starts from, and for every arithmetic of the machine that agrees with the integers
/// where no overflow, underflow or division by zero can happen; the values printed are those
/// of the expressions under that arithmetic.
pub proof fn law_program_prints(
    stmts: Seq<Spanned<Statement>>,
    next: nat,
    label: nat,
    m: Machine,
    arith: spec_fn(ArithOp, u16, u16) -> u16,
)
    requires
        usual_arith(arith),
        all_ops_ok(stmts, 0),
        m.pc == 0,
    ensures
        exists|k: nat| #[trigger] steps(build_from(stmts, 0, next, label).0, m, k, arith) matches Some(m2) && {
            &&& m2.pc == build_from(stmts, 0, next, label).0.len()
            &&& m2.out == m.out + program_output(stmts, 0, arith)
            &&& m2.stack == m.stack
        },
{
    let pre = Seq::<InstrView>::empty();
    let k = lemma_build_run(pre, stmts, 0, next, label, m, arith);
    assert(pre + build_from(stmts, 0, next, label).0 =~= build_from(stmts, 0, next, label).0);
}

/// The leftmost operand of an expression: the literal written first.
pub open spec fn leftmost(e: Expression) -> Expression
    decreases e,
{
    match e {
        Expression::Paren(inner) => leftmost(inner.element),
        Expression::Binary { left, .. } => leftmost(left.element),
        _ => e,
    }
}

/// Law: an expression is of type `char` exactly when its leftmost operand is a character
/// literal, whatever its operators and parentheses; otherwise it is an `int`.
pub proof fn law_type_is_that_of_leftmost_operand(e: Expression)
    ensures
        leftmost(e) is Number || leftmost(e) is Char,
        infer_type_spec(e) == (if leftmost(e) is Char { Ty::Char } else { Ty::Int }),
    decreases e,
{
    match e {
        Expression::Paren(inner) => law_type_is_that_of_leftmost_operand(inner.element),
        Expression::Binary { left, .. } => law_type_is_that_of_leftmost_operand(left.element),
        _ => {},
    }
}

/// Law: printing an expression whose leftmost operand is a character literal prints the one
/// character with the expression's value as its code; printing any other expression prints
/// the value's decimal digits.
pub proof fn law_print_output(e: Spanned<Expression>, arith: spec_fn(ArithOp, u16, u16) -> u16)
    ensures
        stmt_output(Statement::Print(Box::new(e)), arith) == (if leftmost(e.element) is Char {
            seq![eval_expr(e.element, arith)]
        } else {
            decimal_codes(eval_expr(e.element, arith) as nat)
        }),
{
    law_type_is_that_of_leftmost_operand(e.element);
}

} // verus!
