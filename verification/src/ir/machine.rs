//! A machine running IR programs (registers, a stack, an equality flag and an output), and the
//! law that the IR printing a number in decimal prints its decimal digits.
use vstd::prelude::*;

use crate::ir::builder::{decimal_print_ir, label_name};
use crate::ir::semantics::ArithOp;
use crate::ir::InstrView;
use crate::text::{decimal, digit_char};

verus! {

/// The state of the machine.
pub struct Machine {
    pub pc: int,
    pub regs: Map<nat, u16>,
    pub stack: Seq<u16>,
    pub equal: bool,
    pub out: Seq<u16>,
}

/// The position of the first `Label(name)` from `i` on, or the program's length.
pub open spec fn label_from(prog: Seq<InstrView>, name: Seq<char>, i: int) -> int
    decreases prog.len() - i,
{
    if i < 0 || i >= prog.len() {
        prog.len() as int
    } else if prog[i] == InstrView::Label(name) {
        i
    } else {
        label_from(prog, name, i + 1)
    }
}

/// Where a jump to `name` goes.
pub open spec fn target(prog: Seq<InstrView>, name: Seq<char>) -> int {
    label_from(prog, name, 0)
}

pub open spec fn next(m: Machine) -> Machine {
    Machine { pc: m.pc + 1, ..m }
}

pub open spec fn set(m: Machine, r: nat, v: u16) -> Machine {
    Machine { pc: m.pc + 1, regs: m.regs.insert(r, v), ..m }
}

/// One step of the machine; `None` when the program counter is outside the program or a
/// `Pop` finds the stack empty.
pub open spec fn machine_step(prog: Seq<InstrView>, m: Machine, arith: spec_fn(ArithOp, u16, u16) -> u16) -> Option<Machine> {
    if m.pc < 0 || m.pc >= prog.len() {
        None
    } else {
        match prog[m.pc] {
            InstrView::Drop(r) => Some(Machine { pc: m.pc + 1, regs: m.regs.remove(r), ..m }),
            InstrView::LoadImm(d, n) => Some(set(m, d, n)),
            InstrView::Mov(d, s) => Some(set(m, d, m.regs[s])),
            InstrView::Add { left, right, dest } => Some(set(m, dest, arith(ArithOp::Add, m.regs[left], m.regs[right]))),
            InstrView::Sub { left, right, dest } => Some(set(m, dest, arith(ArithOp::Sub, m.regs[left], m.regs[right]))),
            InstrView::Mul { left, right, dest } => Some(set(m, dest, arith(ArithOp::Mul, m.regs[left], m.regs[right]))),
            InstrView::Div { left, right, dest } => Some(set(m, dest, arith(ArithOp::Div, m.regs[left], m.regs[right]))),
            InstrView::Mod { left, right, dest } => Some(set(m, dest, arith(ArithOp::Mod, m.regs[left], m.regs[right]))),
            InstrView::Cmp(a, b) => Some(Machine { pc: m.pc + 1, equal: m.regs[a] == m.regs[b], ..m }),
            InstrView::Label(_) => Some(next(m)),
            InstrView::Jmp(l) => Some(Machine { pc: target(prog, l), ..m }),
            InstrView::Jeq(l) => Some(if m.equal { Machine { pc: target(prog, l), ..m } } else { next(m) }),
            InstrView::Jne(l) => Some(if !m.equal { Machine { pc: target(prog, l), ..m } } else { next(m) }),
            InstrView::Push(r) => Some(Machine { pc: m.pc + 1, stack: m.stack.push(m.regs[r]), ..m }),
            InstrView::Pop(r) => if m.stack.len() == 0 {
                None
            } else {
                Some(Machine { pc: m.pc + 1, regs: m.regs.insert(r, m.stack.last()), stack: m.stack.drop_last(), ..m })
            },
            InstrView::Print(r) => Some(Machine { pc: m.pc + 1, out: m.out.push(m.regs[r]), ..m }),
        }
    }
}

/// The machine after exactly `k` steps.
pub open spec fn steps(prog: Seq<InstrView>, m: Machine, k: nat, arith: spec_fn(ArithOp, u16, u16) -> u16) -> Option<Machine>
    decreases k,
{
    if k == 0 {
        Some(m)
    } else {
        match machine_step(prog, m, arith) {
            None => None,
            Some(m1) => steps(prog, m1, (k - 1) as nat, arith),
        }
    }
}

/// Arithmetic that agrees with the integers where the decimal printing relies on it.
pub open spec fn usual_arith(arith: spec_fn(ArithOp, u16, u16) -> u16) -> bool {
    &&& forall|a: u16, b: u16| b != 0 ==> #[trigger] arith(ArithOp::Mod, a, b) == a % b
    &&& forall|a: u16, b: u16| b != 0 ==> #[trigger] arith(ArithOp::Div, a, b) == a / b
    &&& forall|a: u16, b: u16| a + b <= u16::MAX ==> #[trigger] arith(ArithOp::Add, a, b) == a + b
    &&& forall|a: u16, b: u16| a >= b ==> #[trigger] arith(ArithOp::Sub, a, b) == a - b
}

/// The characters of the decimal representation of `n`, as output codes.
pub open spec fn decimal_codes(n: nat) -> Seq<u16> {
    decimal(n).map_values(|c: char| c as u16)
}

/// The instructions of the decimal printing, one by one.
pub proof fn lemma_dp_instrs(value: nat, next: nat, label: nat)
    ensures ({
        let p = decimal_print_ir(value, next, label).0;
        &&& p.len() == 43
        &&& p[0] == InstrView::LoadImm(next, 0)
        &&& p[1] == InstrView::LoadImm(next + 1, 1)
        &&& p[2] == InstrView::LoadImm(next + 2, 10)
        &&& p[3] == InstrView::LoadImm(next + 3, 48)
        &&& p[4] == InstrView::Mov(next + 4, value)
        &&& p[5] == InstrView::Drop(value)
        &&& p[6] == InstrView::LoadImm(next + 5, 0)
        &&& p[7] == InstrView::Label(label_name("dec_push"@, label))
        &&& p[8] == InstrView::Cmp(next + 4, next)
        &&& p[9] == InstrView::Jeq(label_name("dec_push_done"@, label + 1))
        &&& p[10] == (InstrView::Mod { left: next + 4, right: next + 2, dest: next + 6 })
        &&& p[11] == InstrView::Push(next + 6)
        &&& p[12] == InstrView::Drop(next + 6)
        &&& p[13] == (InstrView::Add { left: next + 5, right: next + 1, dest: next + 7 })
        &&& p[14] == InstrView::Mov(next + 5, next + 7)
        &&& p[15] == InstrView::Drop(next + 7)
        &&& p[16] == (InstrView::Div { left: next + 4, right: next + 2, dest: next + 8 })
        &&& p[17] == InstrView::Mov(next + 4, next + 8)
        &&& p[18] == InstrView::Drop(next + 8)
        &&& p[19] == InstrView::Jmp(label_name("dec_push"@, label))
        &&& p[20] == InstrView::Label(label_name("dec_push_done"@, label + 1))
        &&& p[21] == InstrView::Cmp(next + 5, next)
        &&& p[22] == InstrView::Jne(label_name("dec_zero_skip"@, label + 2))
        &&& p[23] == InstrView::Push(next)
        &&& p[24] == InstrView::LoadImm(next + 5, 1)
        &&& p[25] == InstrView::Label(label_name("dec_zero_skip"@, label + 2))
        &&& p[26] == InstrView::Label(label_name("dec_pop"@, label + 3))
        &&& p[27] == InstrView::Cmp(next + 5, next)
        &&& p[28] == InstrView::Jeq(label_name("dec_pop_done"@, label + 4))
        &&& p[29] == InstrView::Pop(next + 9)
        &&& p[30] == (InstrView::Add { left: next + 9, right: next + 3, dest: next + 9 })
        &&& p[31] == InstrView::Print(next + 9)
        &&& p[32] == (InstrView::Sub { left: next + 5, right: next + 1, dest: next + 10 })
        &&& p[33] == InstrView::Mov(next + 5, next + 10)
        &&& p[34] == InstrView::Drop(next + 10)
        &&& p[35] == InstrView::Jmp(label_name("dec_pop"@, label + 3))
        &&& p[36] == InstrView::Label(label_name("dec_pop_done"@, label + 4))
        &&& p[37] == InstrView::Drop(next)
        &&& p[38] == InstrView::Drop(next + 1)
        &&& p[39] == InstrView::Drop(next + 2)
        &&& p[40] == InstrView::Drop(next + 3)
        &&& p[41] == InstrView::Drop(next + 4)
        &&& p[42] == InstrView::Drop(next + 5)
    }),
{
}

/// A label is looked for no further than the end of the program.
pub proof fn lemma_label_from_range(prog: Seq<InstrView>, name: Seq<char>, i: int)
    requires
        0 <= i,
    ensures
        i <= label_from(prog, name, i) <= prog.len() || (i > prog.len() && label_from(prog, name, i) == prog.len()),
    decreases prog.len() - i,
{
    if i < prog.len() && prog[i] != InstrView::Label(name) {
        lemma_label_from_range(prog, name, i + 1);
    }
}

proof fn lemma_label_from(prog: Seq<InstrView>, name: Seq<char>, i: int, j: int)
    requires
        0 <= i <= j < prog.len(),
        prog[j] == InstrView::Label(name),
        forall|k: int| i <= k < j ==> prog[k] != InstrView::Label(name),
    ensures
        label_from(prog, name, i) == j,
    decreases j - i,
{
    if i < j {
        lemma_label_from(prog, name, i + 1, j);
    }
}

proof fn lemma_decimal_first(n: nat)
    ensures
        decimal(n).len() >= 1,
        '0' <= decimal(n)[0] <= '9',
    decreases n,
{
    if n >= 10 {
        lemma_decimal_first(n / 10);
    }
}

/// Where the jumps of the decimal printing go.
pub proof fn lemma_dp_targets(value: nat, next: nat, label: nat)
    ensures ({
        let p = decimal_print_ir(value, next, label).0;
        &&& target(p, label_name("dec_push"@, label)) == 7
        &&& target(p, label_name("dec_push_done"@, label + 1)) == 20
        &&& target(p, label_name("dec_zero_skip"@, label + 2)) == 25
        &&& target(p, label_name("dec_pop"@, label + 3)) == 26
        &&& target(p, label_name("dec_pop_done"@, label + 4)) == 36
    }),
{
    let p = decimal_print_ir(value, next, label).0;
    lemma_dp_instrs(value, next, label);
    reveal_strlit("dec_push");
    reveal_strlit("dec_push_done");
    reveal_strlit("dec_zero_skip");
    reveal_strlit("dec_pop");
    reveal_strlit("dec_pop_done");
    reveal_strlit("_");
    let a = label_name("dec_push"@, label);
    let b = label_name("dec_push_done"@, label + 1);
    let c = label_name("dec_zero_skip"@, label + 2);
    let d = label_name("dec_pop"@, label + 3);
    let e = label_name("dec_pop_done"@, label + 4);
    lemma_decimal_first(label);
    lemma_decimal_first(label + 3);
    assert(a[9] == decimal(label)[0]);
    assert(b[9] == 'd');
    assert(a != b);
    assert(a[4] != c[4] && b[4] != c[4]);
    assert(a[5] != d[5] && b[5] != d[5] && c[4] != d[4]);
    assert(a[5] != e[5] && b[5] != e[5] && c[4] != e[4]);
    assert(d[8] == decimal(label + 3)[0]);
    assert(e[8] == 'd');
    assert(d != e);
    lemma_label_from(p, a, 0, 7);
    lemma_label_from(p, b, 0, 20);
    lemma_label_from(p, c, 0, 25);
    lemma_label_from(p, d, 0, 26);
    lemma_label_from(p, e, 0, 36);
}

pub proof fn lemma_steps_add(prog: Seq<InstrView>, m: Machine, a: nat, b: nat, arith: spec_fn(ArithOp, u16, u16) -> u16)
    ensures
        steps(prog, m, a + b, arith) == (match steps(prog, m, a, arith) {
            None => None,
            Some(m1) => steps(prog, m1, b, arith),
        }),
    decreases a,
{
    if a > 0 {
        match machine_step(prog, m, arith) {
            None => {},
            Some(m1) => {
                lemma_steps_add(prog, m1, (a - 1) as nat, b, arith);
                assert((a + b - 1) as nat == (a - 1) as nat + b);
            },
        }
    }
}

/// The digits of `c` from the least significant one on (none for zero).
pub open spec fn pushed_digits(c: nat) -> Seq<u16>
    decreases c,
{
    if c == 0 {
        Seq::empty()
    } else {
        seq![(c % 10) as u16] + pushed_digits(c / 10)
    }
}

/// `b` agrees with `a` on every register outside `[lo, hi)`.
pub open spec fn agree_outside(a: Map<nat, u16>, b: Map<nat, u16>, lo: nat, hi: nat) -> bool {
    forall|k: nat| (k < lo || k >= hi) ==> {
        &&& (#[trigger] b.contains_key(k)) == a.contains_key(k)
        &&& a.contains_key(k) ==> b[k] == a[k]
    }
}

/// The constant registers of the decimal printing hold 0, 1, 10 and 48.
pub open spec fn dp_consts(r: Map<nat, u16>, next: nat) -> bool {
    &&& r.contains_key(next) && r[next] == 0
    &&& r.contains_key(next + 1) && r[next + 1] == 1
    &&& r.contains_key(next + 2) && r[next + 2] == 10
    &&& r.contains_key(next + 3) && r[next + 3] == 48
}

proof fn lemma_push_loop(value: nat, next: nat, label: nat, m: Machine, arith: spec_fn(ArithOp, u16, u16) -> u16) -> (k: nat)
    requires
        usual_arith(arith),
        m.pc == 7,
        dp_consts(m.regs, next),
        m.regs.contains_key(next + 4),
        m.regs.contains_key(next + 5),
        m.regs[next + 5] + pushed_digits(m.regs[next + 4] as nat).len() <= 5,
    ensures
        steps(decimal_print_ir(value, next, label).0, m, k, arith) matches Some(m2) && {
            &&& m2.pc == 20
            &&& dp_consts(m2.regs, next)
            &&& m2.regs.contains_key(next + 5)
            &&& m2.regs[next + 5] == m.regs[next + 5] + pushed_digits(m.regs[next + 4] as nat).len()
            &&& m2.stack == m.stack + pushed_digits(m.regs[next + 4] as nat)
            &&& m2.out == m.out
            &&& agree_outside(m.regs, m2.regs, next, next + 11)
        },
    decreases m.regs[next + 4],
{
    let p = decimal_print_ir(value, next, label).0;
    lemma_dp_instrs(value, next, label);
    lemma_dp_targets(value, next, label);
    let c = m.regs[next + 4];
    let j = m.regs[next + 5];
    if c == 0 {
        reveal_with_fuel(steps, 4);
        let m2 = Machine { pc: 20, equal: true, ..m };
        assert(steps(p, m, 3, arith) == Some(m2));
        assert(m.stack + pushed_digits(0) =~= m.stack);
        3
    } else {
        reveal_with_fuel(steps, 14);
        let d = (c % 10) as u16;
        let q = (c / 10) as u16;
        let r1 = m.regs.insert(next + 6, d).remove(next + 6).insert(next + 7, (j + 1) as u16).insert(next + 5, (j + 1) as u16)
            .remove(next + 7).insert(next + 8, q).insert(next + 4, q).remove(next + 8);
        let m1 = Machine { pc: 7, regs: r1, stack: m.stack.push(d), equal: false, out: m.out };
        assert(arith(ArithOp::Mod, c, 10) == d);
        assert(arith(ArithOp::Div, c, 10) == q);
        assert(arith(ArithOp::Add, j, 1) == j + 1);
        assert(steps(p, m, 13, arith) == Some(m1));
        assert(r1[next + 4] == q);
        assert(pushed_digits(c as nat) == seq![d] + pushed_digits(q as nat));
        let k1 = lemma_push_loop(value, next, label, m1, arith);
        lemma_steps_add(p, m, 13, k1, arith);
        let m2 = steps(p, m1, k1, arith).unwrap();
        assert(m2.stack =~= m.stack + pushed_digits(c as nat));
        13 + k1
    }
}

/// What popping and printing every digit of `t` outputs: the ASCII codes of its elements,
/// from the last one on.
pub open spec fn printed(t: Seq<u16>) -> Seq<u16>
    decreases t.len(),
{
    if t.len() == 0 {
        Seq::empty()
    } else {
        seq![(t.last() + 48) as u16] + printed(t.drop_last())
    }
}

proof fn lemma_pop_loop(
    value: nat,
    next: nat,
    label: nat,
    m: Machine,
    base: Seq<u16>,
    t: Seq<u16>,
    arith: spec_fn(ArithOp, u16, u16) -> u16,
) -> (k: nat)
    requires
        usual_arith(arith),
        m.pc == 26,
        dp_consts(m.regs, next),
        m.regs.contains_key(next + 5),
        m.regs[next + 5] == t.len(),
        m.stack == base + t,
        forall|i: int| 0 <= i < t.len() ==> t[i] < 10,
    ensures
        steps(decimal_print_ir(value, next, label).0, m, k, arith) matches Some(m2) && {
            &&& m2.pc == 36
            &&& dp_consts(m2.regs, next)
            &&& m2.regs.contains_key(next + 5)
            &&& m2.stack == base
            &&& m2.out == m.out + printed(t)
            &&& agree_outside(m.regs, m2.regs, next, next + 11)
        },
    decreases t.len(),
{
    let p = decimal_print_ir(value, next, label).0;
    lemma_dp_instrs(value, next, label);
    lemma_dp_targets(value, next, label);
    if t.len() == 0 {
        reveal_with_fuel(steps, 4);
        let m2 = Machine { pc: 36, equal: true, ..m };
        assert(steps(p, m, 3, arith) == Some(m2));
        assert(m.stack =~= base);
        assert(m.out + printed(t) =~= m.out);
        3
    } else {
        reveal_with_fuel(steps, 11);
        let n = m.regs[next + 5];
        let top = t.last();
        let ch = (top + 48) as u16;
        let r1 = m.regs.insert(next + 9, top).insert(next + 9, ch)
            .insert(next + 10, (n - 1) as u16).insert(next + 5, (n - 1) as u16).remove(next + 10);
        let m1 = Machine { pc: 26, regs: r1, stack: m.stack.drop_last(), equal: false, out: m.out.push(ch) };
        assert(m.stack.last() == top);
        assert(arith(ArithOp::Add, top, 48) == ch);
        assert(arith(ArithOp::Sub, n, 1) == n - 1);
        assert(steps(p, m, 10, arith) == Some(m1));
        assert(m1.stack =~= base + t.drop_last());
        let k1 = lemma_pop_loop(value, next, label, m1, base, t.drop_last(), arith);
        lemma_steps_add(p, m, 10, k1, arith);
        let m2 = steps(p, m1, k1, arith).unwrap();
        assert(m2.out =~= m.out + printed(t));
        10 + k1
    }
}

proof fn lemma_pushed_digits(n: nat)
    ensures
        n < 100000 ==> pushed_digits(n).len() <= 5,
        n < 10000 ==> pushed_digits(n).len() <= 4,
        n < 1000 ==> pushed_digits(n).len() <= 3,
        n < 100 ==> pushed_digits(n).len() <= 2,
        n < 10 ==> pushed_digits(n).len() <= 1,
        n == 0 <==> pushed_digits(n).len() == 0,
        forall|i: int| 0 <= i < pushed_digits(n).len() ==> #[trigger] pushed_digits(n)[i] < 10,
    decreases n,
{
    if n > 0 {
        lemma_pushed_digits(n / 10);
        let t = pushed_digits(n);
        assert forall|i: int| 0 <= i < t.len() implies #[trigger] t[i] < 10 by {
            if i > 0 {
                assert(t[i] == pushed_digits(n / 10)[i - 1]);
            }
        }
    }
}

proof fn lemma_printed_prepend(x: u16, t: Seq<u16>)
    requires
        x < 10,
    ensures
        printed(seq![x] + t) == printed(t).push((x + 48) as u16),
    decreases t.len(),
{
    let s = seq![x] + t;
    if t.len() == 0 {
        assert(s.drop_last() =~= Seq::<u16>::empty());
        assert(s.last() == x);
        assert(printed(s.drop_last()) == Seq::<u16>::empty());
        assert(printed(s) =~= printed(t).push((x + 48) as u16));
    } else {
        assert(s.last() == t.last());
        assert(s.drop_last() =~= seq![x] + t.drop_last());
        lemma_printed_prepend(x, t.drop_last());
        assert(printed(s) =~= printed(t).push((x + 48) as u16));
    }
}

proof fn lemma_digit_code(d: nat)
    requires
        d < 10,
    ensures
        digit_char(d) as u16 == d + 48,
{
}

/// Printing the digits pushed for a positive number prints its decimal representation.
proof fn lemma_printed_pushed(n: nat)
    requires
        n >= 1,
    ensures
        printed(pushed_digits(n)) == decimal_codes(n),
    decreases n,
{
    let q = n / 10;
    let d = (n % 10) as u16;
    lemma_printed_prepend(d, pushed_digits(q));
    lemma_digit_code(n % 10);
    if q == 0 {
        assert(pushed_digits(q) =~= Seq::<u16>::empty());
        assert(printed(pushed_digits(q)) =~= Seq::<u16>::empty());
        assert(printed(pushed_digits(n)) =~= decimal_codes(n));
    } else {
        lemma_printed_pushed(q);
        assert(decimal(n) == decimal(q).push(digit_char(n % 10)));
        assert(printed(pushed_digits(n)) =~= decimal_codes(n));
    }
}

/// The first seven instructions: the constants, the working copy of the value and the count.
proof fn lemma_dp_setup(value: nat, next: nat, label: nat, m: Machine, arith: spec_fn(ArithOp, u16, u16) -> u16)
    requires
        value < next,
        m.pc == 0,
        m.regs.contains_key(value),
    ensures
        steps(decimal_print_ir(value, next, label).0, m, 7, arith) == Some(Machine {
            pc: 7,
            regs: m.regs.insert(next, 0).insert(next + 1, 1).insert(next + 2, 10).insert(next + 3, 48)
                .insert(next + 4, m.regs[value]).remove(value).insert(next + 5, 0),
            ..m
        }),
{
    lemma_dp_instrs(value, next, label);
    reveal_with_fuel(steps, 8);
}

/// From the end of the pushing to the start of the popping: a zero digit for the value zero.
proof fn lemma_dp_middle(value: nat, next: nat, label: nat, m: Machine, arith: spec_fn(ArithOp, u16, u16) -> u16)
    requires
        m.pc == 20,
        dp_consts(m.regs, next),
        m.regs.contains_key(next + 5),
    ensures
        m.regs[next + 5] == 0 ==> steps(decimal_print_ir(value, next, label).0, m, 6, arith) == Some(Machine {
            pc: 26,
            regs: m.regs.insert(next + 5, 1),
            stack: m.stack.push(0),
            equal: true,
            ..m
        }),
        m.regs[next + 5] != 0 ==> steps(decimal_print_ir(value, next, label).0, m, 4, arith) == Some(Machine {
            pc: 26,
            equal: false,
            ..m
        }),
{
    lemma_dp_instrs(value, next, label);
    lemma_dp_targets(value, next, label);
    reveal_with_fuel(steps, 7);
}

/// The last seven instructions drop the working registers.
proof fn lemma_dp_end(value: nat, next: nat, label: nat, m: Machine, arith: spec_fn(ArithOp, u16, u16) -> u16)
    requires
        m.pc == 36,
    ensures
        steps(decimal_print_ir(value, next, label).0, m, 7, arith) == Some(Machine {
            pc: 43,
            regs: m.regs.remove(next).remove(next + 1).remove(next + 2).remove(next + 3).remove(next + 4).remove(next + 5),
            ..m
        }),
{
    lemma_dp_instrs(value, next, label);
    reveal_with_fuel(steps, 8);
}

/// What is printed for `n`: its digits, or one zero digit for zero.
proof fn lemma_dp_output(n: u16)
    ensures
        n == 0 ==> printed(seq![0u16]) == decimal_codes(0),
        n != 0 ==> printed(pushed_digits(n as nat)) == decimal_codes(n as nat),
{
    if n == 0 {
        reveal_with_fuel(printed, 2);
        lemma_digit_code(0);
        assert(seq![0u16].drop_last() =~= Seq::<u16>::empty());
        assert(printed(seq![0u16]) =~= decimal_codes(0));
    } else {
        lemma_printed_pushed(n as nat);
    }
}

/// Law: the IR that prints a number in decimal, run on the machine from its first
/// instruction with the number in register `value`, reaches its end having printed the ASCII
/// codes of the number's decimal digits (one `0` for zero), with the stack as it found it.
/// It drops `value` and changes no other register outside its own fresh ones (from `next`
/// on). This holds for every arithmetic of the machine that agrees with the integers where
/// no overflow, underflow or division by zero can happen.
pub proof fn law_decimal_print_prints_digits(
    value: nat,
    next: nat,
    label: nat,
    m: Machine,
    arith: spec_fn(ArithOp, u16, u16) -> u16,
)
    requires
        usual_arith(arith),
        value < next,
        m.pc == 0,
        m.regs.contains_key(value),
    ensures
        exists|k: nat| #[trigger] steps(decimal_print_ir(value, next, label).0, m, k, arith) matches Some(m2) && {
            &&& m2.pc == decimal_print_ir(value, next, label).0.len()
            &&& m2.out == m.out + decimal_codes(m.regs[value] as nat)
            &&& m2.stack == m.stack
            &&& !m2.regs.contains_key(value)
            &&& crate::ir::semantics::unchanged_outside(m.regs, m2.regs, value, next, next + 11)
        },
{
    let p = decimal_print_ir(value, next, label).0;
    lemma_dp_instrs(value, next, label);
    let n = m.regs[value];
    lemma_pushed_digits(n as nat);
    let t = pushed_digits(n as nat);
    lemma_dp_setup(value, next, label, m, arith);
    let ra = m.regs.insert(next, 0).insert(next + 1, 1).insert(next + 2, 10).insert(next + 3, 48)
        .insert(next + 4, n).remove(value).insert(next + 5, 0);
    let ma = Machine { pc: 7, regs: ra, ..m };
    let k1 = lemma_push_loop(value, next, label, ma, arith);
    let mb = steps(p, ma, k1, arith).unwrap();
    lemma_steps_add(p, m, 7, k1, arith);
    lemma_dp_middle(value, next, label, mb, arith);
    let k2: nat = if n == 0 { 6 } else { 4 };
    let tp = if n == 0 { seq![0u16] } else { t };
    let mc = steps(p, mb, k2, arith).unwrap();
    assert(mc.stack == m.stack + tp);
    lemma_steps_add(p, m, 7 + k1, k2, arith);
    let k3 = lemma_pop_loop(value, next, label, mc, m.stack, tp, arith);
    let md = steps(p, mc, k3, arith).unwrap();
    lemma_steps_add(p, m, 7 + k1 + k2, k3, arith);
    lemma_dp_end(value, next, label, md, arith);
    let me = steps(p, md, 7, arith).unwrap();
    lemma_steps_add(p, m, 7 + k1 + k2 + k3, 7, arith);
    let k: nat = 7 + k1 + k2 + k3 + 7;
    assert(steps(p, m, k, arith) == Some(me));
    lemma_dp_output(n);
    assert(me.out =~= m.out + decimal_codes(n as nat));
    assert(crate::ir::semantics::unchanged_outside(m.regs, me.regs, value, next, next + 11)) by {
        assert forall|r: nat| r != value && (r < next || r >= next + 11) implies {
            &&& (#[trigger] me.regs.contains_key(r)) == m.regs.contains_key(r)
            &&& m.regs.contains_key(r) ==> me.regs[r] == m.regs[r]
        } by {
            assert(ra.contains_key(r) == m.regs.contains_key(r));
            assert(mb.regs.contains_key(r) == ra.contains_key(r));
            assert(mc.regs.contains_key(r) == mb.regs.contains_key(r));
            assert(md.regs.contains_key(r) == mc.regs.contains_key(r));
        }
    }
}

} // verus!
