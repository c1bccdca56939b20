//! What the emitted assembly does when PIKU runs it, and the law that, when the writer needs
//! no spill slot, the assembly prints what the IR prints.
//!
//! The assembly is modelled as a sequence of PIKU instructions whose rendering, line by line,
//! is the text that the writer emits. The machine follows PIKU's CPU: eight 16-bit registers,
//! wrapping `ADD`/`SUB`/`MUL`, `DIV` and `MOD` that stop the run on a zero divisor, `CMP`
//! setting the zero flag read by `JEQ`/`JNE`, a stack of at most `stack_words()` words, and
//! `OUT` writing the character with the register's code (stopping the run when the code is not
//! a character).
use vstd::prelude::*;

use crate::ir::semantics::ArithOp;
use crate::ir::InstrView;
use crate::ir::machine::{Machine, lemma_steps_add, machine_step, steps, target, usual_arith};
use crate::ir::builder::{all_ops_ok, build_from};
use crate::ir::run::program_output;
use crate::parser::Statement;
use crate::Spanned;
use crate::text::decimal;
use crate::writer::model::{
    binop_spec, get_reg_spec, line, reg_name, WState, step_spec, free_reg_spec, emit, unary_spec, slots_ok,
    spill_store_text, spill_load_text, alloc_spec, lowest_free_from, num_regs, owner,
};

verus! {

/// A PIKU instruction as the writer emits it.
pub enum PikuInstr {
    LdImm(usize, u16),
    LdReg(usize, usize),
    Arith(ArithOp, usize, usize),
    Cmp(usize, usize),
    Jmp(Seq<char>),
    Jeq(Seq<char>),
    Jne(Seq<char>),
    Label(Seq<char>),
    Push(usize),
    Pop(usize),
    Out(usize),
    AddImm(usize, u16),
    SubImm(usize, u16),
    /// `ST [a], v`: stores register `v` at the address in register `a`.
    Store(usize, usize),
    /// `LD d, [a]`: loads register `d` from the address in register `a`.
    LoadInd(usize, usize),
}

/// The mnemonic of an arithmetic instruction.
pub open spec fn mnemonic(op: ArithOp) -> Seq<char> {
    match op {
        ArithOp::Add => "ADD"@,
        ArithOp::Sub => "SUB"@,
        ArithOp::Mul => "MUL"@,
        ArithOp::Div => "DIV"@,
        ArithOp::Mod => "MOD"@,
    }
}

/// The text of one instruction.
pub open spec fn render(i: PikuInstr) -> Seq<char> {
    match i {
        PikuInstr::LdImm(d, n) => line("LD "@ + reg_name(d) + ", "@ + decimal(n as nat)),
        PikuInstr::LdReg(d, s) => line("LD "@ + reg_name(d) + ", "@ + reg_name(s)),
        PikuInstr::Arith(op, d, r) => line(mnemonic(op) + " "@ + reg_name(d) + ", "@ + reg_name(r)),
        PikuInstr::Cmp(a, b) => line("CMP"@ + " "@ + reg_name(a) + ", "@ + reg_name(b)),
        PikuInstr::Jmp(l) => line("JMP"@ + " "@ + l),
        PikuInstr::Jeq(l) => line("JEQ"@ + " "@ + l),
        PikuInstr::Jne(l) => line("JNE"@ + " "@ + l),
        PikuInstr::Label(l) => line("\n"@ + l + ":"@),
        PikuInstr::Push(r) => line("PUSH"@ + " "@ + reg_name(r)),
        PikuInstr::Pop(r) => line("POP"@ + " "@ + reg_name(r)),
        PikuInstr::Out(r) => line("OUT"@ + " "@ + reg_name(r)),
        PikuInstr::AddImm(r, n) => line("ADD "@ + reg_name(r) + ", "@ + decimal(n as nat)),
        PikuInstr::SubImm(r, n) => line("SUB "@ + reg_name(r) + ", "@ + decimal(n as nat)),
        PikuInstr::Store(a, v) => line("ST ["@ + reg_name(a) + "], "@ + reg_name(v)),
        PikuInstr::LoadInd(d, a) => line("LD "@ + reg_name(d) + ", ["@ + reg_name(a) + "]"@),
    }
}

/// The text of a sequence of instructions.
pub open spec fn render_all(s: Seq<PikuInstr>) -> Seq<char>
    decreases s.len(),
{
    if s.len() == 0 {
        Seq::empty()
    } else {
        render_all(s.drop_last()) + render(s.last())
    }
}

/// The operation of an IR arithmetic instruction.
pub open spec fn arith_op(i: InstrView) -> ArithOp {
    match i {
        InstrView::Add { .. } => ArithOp::Add,
        InstrView::Sub { .. } => ArithOp::Sub,
        InstrView::Mul { .. } => ArithOp::Mul,
        InstrView::Div { .. } => ArithOp::Div,
        _ => ArithOp::Mod,
    }
}

/// The instructions that the writer emits for `i` from state `s`, spill code aside.
pub open spec fn chunk(s: WState, i: InstrView) -> Seq<PikuInstr> {
    match i {
        InstrView::LoadImm(dest, n) => match get_reg_spec(s, dest as usize) {
            None => seq![],
            Some((_, d)) => seq![PikuInstr::LdImm(d, n)],
        },
        InstrView::Print(v) => match get_reg_spec(s, v as usize) {
            None => seq![],
            Some((_, r)) => seq![PikuInstr::Out(r)],
        },
        InstrView::Add { left, right, dest } | InstrView::Sub { left, right, dest }
        | InstrView::Mul { left, right, dest } | InstrView::Div { left, right, dest }
        | InstrView::Mod { left, right, dest } => match get_reg_spec(s, dest as usize) {
            None => seq![],
            Some((s1, d)) => match get_reg_spec(s1, left as usize) {
                None => seq![],
                Some((s2, l)) => match get_reg_spec(s2, right as usize) {
                    None => seq![],
                    Some((_, r)) => seq![PikuInstr::LdReg(d, l), PikuInstr::Arith(arith_op(i), d, r)],
                },
            },
        },
        InstrView::Cmp(a, b) => match get_reg_spec(s, a as usize) {
            None => seq![],
            Some((s1, x)) => match get_reg_spec(s1, b as usize) {
                None => seq![],
                Some((_, y)) => seq![PikuInstr::Cmp(x, y)],
            },
        },
        InstrView::Mov(a, b) => match get_reg_spec(s, a as usize) {
            None => seq![],
            Some((s1, x)) => match get_reg_spec(s1, b as usize) {
                None => seq![],
                Some((_, y)) => seq![PikuInstr::LdReg(x, y)],
            },
        },
        InstrView::Drop(_) => seq![],
        InstrView::Label(l) => seq![PikuInstr::Label(l)],
        InstrView::Jmp(l) => seq![PikuInstr::Jmp(l)],
        InstrView::Jeq(l) => seq![PikuInstr::Jeq(l)],
        InstrView::Jne(l) => seq![PikuInstr::Jne(l)],
        InstrView::Push(v) => match get_reg_spec(s, v as usize) {
            None => seq![],
            Some((_, r)) => seq![PikuInstr::Push(r)],
        },
        InstrView::Pop(v) => match get_reg_spec(s, v as usize) {
            None => seq![],
            Some((_, r)) => seq![PikuInstr::Pop(r)],
        },
    }
}

/// Taking a register without a spill slot in use emits nothing and hands out no slot.
proof fn lemma_get_reg_quiet(s: WState, v: usize)
    requires
        slots_ok(s),
        s.next_slot == 0,
    ensures
        get_reg_spec(s, v) matches Some((s1, r)) ==> s1.next_slot == 0 ==> s1.out == s.out && slots_ok(s1),
{
    assert(s.slots =~= Map::<usize, u16>::empty());
}

proof fn lemma_render_one(a: PikuInstr)
    ensures
        render_all(seq![a]) == render(a),
{
    assert(seq![a].drop_last() =~= Seq::<PikuInstr>::empty());
    assert(render_all(seq![a].drop_last()) == Seq::<char>::empty());
    assert(render_all(seq![a]) =~= render(a));
}

proof fn lemma_render_two(a: PikuInstr, b: PikuInstr)
    ensures
        render_all(seq![a, b]) == render(a) + render(b),
{
    assert(seq![a, b].drop_last() =~= seq![a]);
    lemma_render_one(a);
}

/// The chunk of an arithmetic instruction.
pub open spec fn binop_chunk(s: WState, op: ArithOp, left: usize, right: usize, dest: usize) -> Seq<PikuInstr> {
    match get_reg_spec(s, dest) {
        None => seq![],
        Some((s1, d)) => match get_reg_spec(s1, left) {
            None => seq![],
            Some((s2, l)) => match get_reg_spec(s2, right) {
                None => seq![],
                Some((_, r)) => seq![PikuInstr::LdReg(d, l), PikuInstr::Arith(op, d, r)],
            },
        },
    }
}

proof fn lemma_binop_text(s: WState, op: ArithOp, left: usize, right: usize, dest: usize)
    requires
        slots_ok(s),
        s.next_slot == 0,
    ensures
        binop_spec(s, mnemonic(op), left, right, dest) matches Some(s1) ==> s1.next_slot == 0
            ==> s1.out == s.out + render_all(binop_chunk(s, op, left, right, dest)),
{
    reveal_strlit("LD ");
    lemma_get_reg_quiet(s, dest);
    if let Some((s1, d)) = get_reg_spec(s, dest) {
        if s1.next_slot == 0 {
            lemma_get_reg_quiet(s1, left);
            if let Some((s2, l)) = get_reg_spec(s1, left) {
                if s2.next_slot == 0 {
                    lemma_get_reg_quiet(s2, right);
                    if let Some((s3, r)) = get_reg_spec(s2, right) {
                        lemma_render_two(PikuInstr::LdReg(d, l), PikuInstr::Arith(op, d, r));
                        assert(s3.out + render(PikuInstr::LdReg(d, l)) + render(PikuInstr::Arith(op, d, r))
                            =~= s3.out + (render(PikuInstr::LdReg(d, l)) + render(PikuInstr::Arith(op, d, r))));
                    }
                }
            }
        }
    }
}

proof fn lemma_pair_text(s: WState, a: usize, b: usize, cmp: bool)
    requires
        slots_ok(s),
        s.next_slot == 0,
    ensures
        get_reg_spec(s, a) matches Some((s1, x)) ==> get_reg_spec(s1, b) matches Some((s2, y)) ==> s2.next_slot == 0
            ==> emit(s2, (if cmp { "CMP"@ } else { "LD"@ }) + " "@ + reg_name(x) + ", "@ + reg_name(y)).out
                == s.out + render_all(seq![if cmp { PikuInstr::Cmp(x, y) } else { PikuInstr::LdReg(x, y) }]),
{
    reveal_strlit("LD ");
    reveal_strlit("LD");
    reveal_strlit(" ");
    lemma_get_reg_quiet(s, a);
    if let Some((s1, x)) = get_reg_spec(s, a) {
        if s1.next_slot == 0 {
            lemma_get_reg_quiet(s1, b);
            if let Some((s2, y)) = get_reg_spec(s1, b) {
                let i = if cmp { PikuInstr::Cmp(x, y) } else { PikuInstr::LdReg(x, y) };
                lemma_render_one(i);
                assert(("LD"@ + " "@) =~= "LD "@);
                assert(("LD"@ + " "@ + reg_name(x) + ", "@ + reg_name(y)) =~= ("LD "@ + reg_name(x) + ", "@ + reg_name(y)));
            }
        }
    }
}

/// A step that hands out no spill slot emits exactly the rendering of its chunk.
#[verifier::spinoff_prover]
pub proof fn lemma_step_text(s: WState, i: InstrView)
    requires
        slots_ok(s),
        s.next_slot == 0,
    ensures
        step_spec(s, i) matches Some(s1) ==> s1.next_slot == 0 ==> s1.out == s.out + render_all(chunk(s, i)),
{
    reveal(step_spec);
    let e = Seq::<PikuInstr>::empty();
    assert(render_all(e) == Seq::<char>::empty());
    match i {
        InstrView::LoadImm(dest, n) => {
            lemma_get_reg_quiet(s, dest as usize);
            if let Some((s1, d)) = get_reg_spec(s, dest as usize) {
                lemma_render_one(PikuInstr::LdImm(d, n));
            }
        },
        InstrView::Print(v) => {
            lemma_get_reg_quiet(s, v as usize);
            if let Some((s1, r)) = get_reg_spec(s, v as usize) {
                lemma_render_one(PikuInstr::Out(r));
            }
        },
        InstrView::Drop(v) => {
            lemma_get_reg_quiet(s, v as usize);
            assert(s.out + render_all(e) =~= s.out);
        },
        InstrView::Push(v) => {
            lemma_get_reg_quiet(s, v as usize);
            if let Some((s1, r)) = get_reg_spec(s, v as usize) {
                lemma_render_one(PikuInstr::Push(r));
            }
        },
        InstrView::Pop(v) => {
            lemma_get_reg_quiet(s, v as usize);
            if let Some((s1, r)) = get_reg_spec(s, v as usize) {
                lemma_render_one(PikuInstr::Pop(r));
            }
        },
        InstrView::Add { left, right, dest } => {
            lemma_binop_text(s, ArithOp::Add, left as usize, right as usize, dest as usize);
            assert(chunk(s, i) == binop_chunk(s, ArithOp::Add, left as usize, right as usize, dest as usize));
        },
        InstrView::Sub { left, right, dest } => {
            lemma_binop_text(s, ArithOp::Sub, left as usize, right as usize, dest as usize);
            assert(chunk(s, i) == binop_chunk(s, ArithOp::Sub, left as usize, right as usize, dest as usize));
        },
        InstrView::Mul { left, right, dest } => {
            lemma_binop_text(s, ArithOp::Mul, left as usize, right as usize, dest as usize);
            assert(chunk(s, i) == binop_chunk(s, ArithOp::Mul, left as usize, right as usize, dest as usize));
        },
        InstrView::Div { left, right, dest } => {
            lemma_binop_text(s, ArithOp::Div, left as usize, right as usize, dest as usize);
            assert(chunk(s, i) == binop_chunk(s, ArithOp::Div, left as usize, right as usize, dest as usize));
        },
        InstrView::Mod { left, right, dest } => {
            lemma_binop_text(s, ArithOp::Mod, left as usize, right as usize, dest as usize);
            assert(chunk(s, i) == binop_chunk(s, ArithOp::Mod, left as usize, right as usize, dest as usize));
        },
        InstrView::Cmp(a, b) => { lemma_pair_text(s, a as usize, b as usize, true); },
        InstrView::Mov(a, b) => { lemma_pair_text(s, a as usize, b as usize, false); },
        InstrView::Label(l) => { lemma_render_one(PikuInstr::Label(l)); },
        InstrView::Jmp(l) => { lemma_render_one(PikuInstr::Jmp(l)); },
        InstrView::Jeq(l) => { lemma_render_one(PikuInstr::Jeq(l)); },
        InstrView::Jne(l) => { lemma_render_one(PikuInstr::Jne(l)); },
    }
}

// ---------------------------------------------------------------------------
// The PIKU machine

/// The machine: program counter, registers, stack, zero flag and the codes written by `OUT`.
pub struct Cpu {
    pub pc: int,
    pub reg: Map<usize, u16>,
    /// The bytes of memory by address; a word is two bytes, the high one first.
    pub mem: Map<int, u8>,
    pub stack: Seq<u16>,
    pub zero: bool,
    pub out: Seq<u16>,
}

/// How many words PIKU's stack area holds.
pub open spec fn stack_words() -> nat {
    511
}

/// PIKU's arithmetic; `None` for a zero divisor.
pub open spec fn piku_arith(op: ArithOp, a: u16, b: u16) -> Option<u16> {
    match op {
        ArithOp::Add => Some(((a + b) % 65536) as u16),
        ArithOp::Sub => Some(((a - b + 65536) % 65536) as u16),
        ArithOp::Mul => Some(((a * b) % 65536) as u16),
        ArithOp::Div => if b == 0 { None } else { Some((a / b) as u16) },
        ArithOp::Mod => if b == 0 { None } else { Some((a % b) as u16) },
    }
}

/// PIKU's arithmetic as a total function (0 for a zero divisor), for running the IR.
pub open spec fn piku_ir_arith() -> spec_fn(ArithOp, u16, u16) -> u16 {
    |op: ArithOp, a: u16, b: u16| match piku_arith(op, a, b) {
        Some(v) => v,
        None => 0,
    }
}

/// The word at address `a`: the byte at `a` is the high one.
pub open spec fn word(mem: Map<int, u8>, a: int) -> u16 {
    (mem[a] as nat * 256 + mem[a + 1] as nat) as u16
}

/// `mem` with the word `v` written at address `a`.
pub open spec fn write_word(mem: Map<int, u8>, a: int, v: u16) -> Map<int, u8> {
    mem.insert(a, (v / 256) as u8).insert(a + 1, (v % 256) as u8)
}

/// Whether `LD`/`ST` through a register accept the address `a`: PIKU's data area.
pub open spec fn in_data(a: u16) -> bool {
    0x4000 <= a <= 0xFBFF
}

/// Whether `OUT` accepts the code `n`: whether it is a character.
pub open spec fn is_char_code(n: u16) -> bool {
    n < 0xD800 || n > 0xDFFF
}

/// The position of the first `name:` from `i` on, or the program's length.
pub open spec fn label_index(prog: Seq<PikuInstr>, name: Seq<char>, i: int) -> int
    decreases prog.len() - i,
{
    if i < 0 || i >= prog.len() {
        prog.len() as int
    } else if prog[i] == PikuInstr::Label(name) {
        i
    } else {
        label_index(prog, name, i + 1)
    }
}

pub open spec fn cpu_set(c: Cpu, r: usize, v: u16) -> Cpu {
    Cpu { pc: c.pc + 1, reg: c.reg.insert(r, v), ..c }
}

/// One instruction. At the end of the program the machine has stopped and stays as it is;
/// `None` when PIKU stops the run with an error.
pub open spec fn cpu_step(prog: Seq<PikuInstr>, c: Cpu) -> Option<Cpu> {
    if c.pc < 0 || c.pc >= prog.len() {
        Some(c)
    } else {
        match prog[c.pc] {
            PikuInstr::LdImm(d, n) => Some(cpu_set(c, d, n)),
            PikuInstr::LdReg(d, s) => Some(cpu_set(c, d, c.reg[s])),
            PikuInstr::Arith(op, d, r) => match piku_arith(op, c.reg[d], c.reg[r]) {
                None => None,
                Some(v) => Some(cpu_set(c, d, v)),
            },
            PikuInstr::Cmp(a, b) => Some(Cpu { pc: c.pc + 1, zero: c.reg[a] == c.reg[b], ..c }),
            PikuInstr::Jmp(l) => Some(Cpu { pc: label_index(prog, l, 0), ..c }),
            PikuInstr::Jeq(l) => Some(if c.zero { Cpu { pc: label_index(prog, l, 0), ..c } } else { Cpu { pc: c.pc + 1, ..c } }),
            PikuInstr::Jne(l) => Some(if !c.zero { Cpu { pc: label_index(prog, l, 0), ..c } } else { Cpu { pc: c.pc + 1, ..c } }),
            PikuInstr::Label(_) => Some(Cpu { pc: c.pc + 1, ..c }),
            PikuInstr::Push(r) => if c.stack.len() >= stack_words() {
                None
            } else {
                Some(Cpu { pc: c.pc + 1, stack: c.stack.push(c.reg[r]), ..c })
            },
            PikuInstr::Pop(r) => if c.stack.len() == 0 {
                None
            } else {
                Some(Cpu { pc: c.pc + 1, reg: c.reg.insert(r, c.stack.last()), stack: c.stack.drop_last(), ..c })
            },
            PikuInstr::Out(r) => if !is_char_code(c.reg[r]) {
                None
            } else {
                Some(Cpu { pc: c.pc + 1, out: c.out.push(c.reg[r]), ..c })
            },
            PikuInstr::AddImm(r, n) => Some(cpu_set(c, r, piku_arith(ArithOp::Add, c.reg[r], n).unwrap())),
            PikuInstr::SubImm(r, n) => Some(cpu_set(c, r, piku_arith(ArithOp::Sub, c.reg[r], n).unwrap())),
            PikuInstr::Store(a, v) => if !in_data(c.reg[a]) {
                None
            } else {
                Some(Cpu { pc: c.pc + 1, mem: write_word(c.mem, c.reg[a] as int, c.reg[v]), ..c })
            },
            PikuInstr::LoadInd(d, a) => if !in_data(c.reg[a]) {
                None
            } else {
                Some(cpu_set(c, d, word(c.mem, c.reg[a] as int)))
            },
        }
    }
}

/// The machine after `k` instructions; `None` once PIKU has stopped with an error.
pub open spec fn cpu_steps(prog: Seq<PikuInstr>, c: Cpu, k: nat) -> Option<Cpu>
    decreases k,
{
    if k == 0 {
        Some(c)
    } else {
        match cpu_step(prog, c) {
            None => None,
            Some(c1) => cpu_steps(prog, c1, (k - 1) as nat),
        }
    }
}

proof fn lemma_cpu_steps_add(prog: Seq<PikuInstr>, c: Cpu, a: nat, b: nat)
    ensures
        cpu_steps(prog, c, a + b) == (match cpu_steps(prog, c, a) {
            None => None,
            Some(c1) => cpu_steps(prog, c1, b),
        }),
    decreases a,
{
    if a > 0 {
        match cpu_step(prog, c) {
            None => {},
            Some(c1) => {
                lemma_cpu_steps_add(prog, c1, (a - 1) as nat, b);
                assert((a + b - 1) as nat == (a - 1) as nat + b);
            },
        }
    }
}

// ---------------------------------------------------------------------------
// The emitted program

/// The writer's state after the first `k` instructions.
pub open spec fn wstate_at(s0: WState, ir: Seq<InstrView>, k: nat) -> Option<WState>
    decreases k,
{
    if k == 0 {
        Some(s0)
    } else {
        match wstate_at(s0, ir, (k - 1) as nat) {
            None => None,
            Some(s) => if k - 1 < ir.len() { step_spec(s, ir[k - 1]) } else { None },
        }
    }
}

/// The chunks of the first `k` instructions.
pub open spec fn chunks_upto(s0: WState, ir: Seq<InstrView>, k: nat) -> Seq<PikuInstr>
    decreases k,
{
    if k == 0 {
        Seq::empty()
    } else {
        chunks_upto(s0, ir, (k - 1) as nat) + match wstate_at(s0, ir, (k - 1) as nat) {
            Some(s) => chunk(s, ir[k - 1]),
            None => Seq::empty(),
        }
    }
}

/// The instruction that loads the spill base.
pub open spec fn spill_base_load() -> PikuInstr {
    PikuInstr::LdImm(7, 0x4000)
}

/// The program that the writer emits for `ir`, as PIKU instructions.
pub open spec fn program_of(s0: WState, ir: Seq<InstrView>) -> Seq<PikuInstr> {
    seq![spill_base_load()] + chunks_upto(s0, ir, ir.len())
}

/// Where the chunk of instruction `k` starts.
pub open spec fn offset(s0: WState, ir: Seq<InstrView>, k: nat) -> int {
    1 + chunks_upto(s0, ir, k).len() as int
}

proof fn lemma_render_all_concat(a: Seq<PikuInstr>, b: Seq<PikuInstr>)
    ensures
        render_all(a + b) == render_all(a) + render_all(b),
    decreases b.len(),
{
    if b.len() == 0 {
        assert(a + b =~= a);
        assert(render_all(a) + render_all(b) =~= render_all(a));
    } else {
        assert((a + b).drop_last() =~= a + b.drop_last());
        lemma_render_all_concat(a, b.drop_last());
        assert(render_all(a + b) =~= render_all(a) + render_all(b));
    }
}

/// The suffix run from the state after `k` instructions is the whole run.
proof fn lemma_wstate_run(s0: WState, ir: Seq<InstrView>, k: nat)
    requires
        k <= ir.len(),
        crate::writer::model::run_from(s0, ir, 0) is Some,
    ensures
        wstate_at(s0, ir, k) matches Some(s) && crate::writer::model::run_from(s, ir, k as int)
            == crate::writer::model::run_from(s0, ir, 0),
    decreases k,
{
    if k > 0 {
        lemma_wstate_run(s0, ir, (k - 1) as nat);
    }
}

/// The next spill slot never goes down.
proof fn lemma_get_reg_next_slot(s: WState, v: usize)
    ensures
        get_reg_spec(s, v) matches Some((s1, r)) ==> s1.next_slot >= s.next_slot,
{
}

proof fn lemma_step_next_slot(s: WState, i: InstrView)
    ensures
        step_spec(s, i) matches Some(s1) ==> s1.next_slot >= s.next_slot,
{
    reveal(step_spec);
    match i {
        InstrView::LoadImm(v, _) | InstrView::Print(v) | InstrView::Drop(v) | InstrView::Push(v) | InstrView::Pop(v) => {
            lemma_get_reg_next_slot(s, v as usize);
        },
        InstrView::Add { left, right, dest } | InstrView::Sub { left, right, dest }
        | InstrView::Mul { left, right, dest } | InstrView::Div { left, right, dest }
        | InstrView::Mod { left, right, dest } => {
            lemma_get_reg_next_slot(s, dest as usize);
            if let Some((s1, d)) = get_reg_spec(s, dest as usize) {
                lemma_get_reg_next_slot(s1, left as usize);
                if let Some((s2, l)) = get_reg_spec(s1, left as usize) {
                    lemma_get_reg_next_slot(s2, right as usize);
                }
            }
        },
        InstrView::Cmp(a, b) | InstrView::Mov(a, b) => {
            lemma_get_reg_next_slot(s, a as usize);
            if let Some((s1, d)) = get_reg_spec(s, a as usize) {
                lemma_get_reg_next_slot(s1, b as usize);
            }
        },
        _ => {},
    }
}

proof fn lemma_run_next_slot(s: WState, ir: Seq<InstrView>, k: int)
    ensures
        crate::writer::model::run_from(s, ir, k) matches Some(s1) ==> s1.next_slot >= s.next_slot,
    decreases ir.len() - k,
{
    if 0 <= k < ir.len() {
        lemma_step_next_slot(s, ir[k]);
        if let Some(s1) = step_spec(s, ir[k]) {
            lemma_run_next_slot(s1, ir, k + 1);
        }
    }
}

proof fn lemma_text_start()
    ensures
        crate::writer::model::initial_state().out == render_all(seq![spill_base_load()]),
{
    reveal_strlit("LD ");
    reveal_strlit(", ");
    lemma_render_one(spill_base_load());
    assert(crate::writer::model::spill_mem_base() == 0x4000);
}

/// When the writer hands out no spill slot, the text after `k` instructions is the spill
/// base load followed by the chunks of those instructions.
#[verifier::spinoff_prover]
#[verifier::rlimit(50)]
proof fn lemma_text_upto(s0: WState, ir: Seq<InstrView>, k: nat)
    requires
        k <= ir.len(),
        s0 == crate::writer::model::initial_state(),
        crate::writer::model::run_from(s0, ir, 0) matches Some(sf) && sf.next_slot == 0,
    ensures
        wstate_at(s0, ir, k) matches Some(s) && {
            &&& s.out == render_all(seq![spill_base_load()] + chunks_upto(s0, ir, k))
            &&& s.next_slot == 0
            &&& slots_ok(s)
            &&& crate::writer::model::inv(s)
        },
    decreases k,
{
    lemma_wstate_run(s0, ir, k);
    let s = wstate_at(s0, ir, k).unwrap();
    lemma_run_next_slot(s, ir, k as int);
    if k == 0 {
        crate::writer::model::lemma_initial_inv();
        lemma_text_start();
        assert(seq![spill_base_load()] + chunks_upto(s0, ir, 0) =~= seq![spill_base_load()]);
    } else {
        lemma_text_upto(s0, ir, (k - 1) as nat);
        let p = wstate_at(s0, ir, (k - 1) as nat).unwrap();
        assert(step_spec(p, ir[k - 1]) == Some(s));
        lemma_step_text(p, ir[k - 1]);
        lemma_step_next_slot(p, ir[k - 1]);
        crate::writer::model::law_writer_step(p, ir[k - 1]);
        let pre = seq![spill_base_load()] + chunks_upto(s0, ir, (k - 1) as nat);
        lemma_render_all_concat(pre, chunk(p, ir[k - 1]));
        assert(seq![spill_base_load()] + chunks_upto(s0, ir, k) =~= pre + chunk(p, ir[k - 1]));
    }
}

// ---------------------------------------------------------------------------
// Simulation

/// The PIKU machine agrees with the IR machine under the writer's state `ws`: every virtual
/// register that lives in a physical register has its value there, and the stack, the flag
/// and the output are the same.
pub open spec fn agrees(ws: WState, m: Machine, c: Cpu) -> bool {
    &&& forall|v: usize| #[trigger] ws.map.contains_key(v)
        ==> m.regs.contains_key(v as nat) && c.reg[ws.map[v]] == m.regs[v as nat]
    &&& c.stack == m.stack
    &&& c.zero == m.equal
    &&& c.out == m.out
}

/// Whether the registers that `i` reads live in physical registers in `ws` (so the writer
/// reads them instead of taking fresh ones), every register it names is a `usize`, and an
/// arithmetic instruction does not write its right operand.
pub open spec fn operands_ready(ws: WState, i: InstrView) -> bool {
    match i {
        InstrView::LoadImm(d, _) => d <= usize::MAX,
        InstrView::Drop(v) => v <= usize::MAX,
        InstrView::Pop(v) => v <= usize::MAX,
        InstrView::Mov(d, s) => d <= usize::MAX && s <= usize::MAX && ws.map.contains_key(s as usize),
        InstrView::Add { left, right, dest } | InstrView::Sub { left, right, dest }
        | InstrView::Mul { left, right, dest } | InstrView::Div { left, right, dest }
        | InstrView::Mod { left, right, dest } => {
            &&& left <= usize::MAX && right <= usize::MAX && dest <= usize::MAX
            &&& ws.map.contains_key(left as usize) && ws.map.contains_key(right as usize)
            &&& dest != right
        },
        InstrView::Cmp(a, b) => a <= usize::MAX && b <= usize::MAX
            && ws.map.contains_key(a as usize) && ws.map.contains_key(b as usize),
        InstrView::Push(v) => v <= usize::MAX && ws.map.contains_key(v as usize),
        InstrView::Print(v) => v <= usize::MAX && ws.map.contains_key(v as usize),
        _ => true,
    }
}

/// What taking a register does when no spill slot is handed out.
proof fn lemma_get_reg_facts(s: WState, v: usize)
    requires
        crate::writer::model::inv(s),
        slots_ok(s),
        s.next_slot == 0,
    ensures
        get_reg_spec(s, v) matches Some((s1, r)) ==> s1.next_slot == 0 ==> {
            &&& r < 7
            &&& s1.map == s.map.insert(v, r)
            &&& s.map.contains_key(v) ==> r == s.map[v]
            &&& !s.map.contains_key(v) ==> forall|w: usize| #[trigger] s.map.contains_key(w) ==> s.map[w] != r
            &&& crate::writer::model::inv(s1)
            &&& slots_ok(s1)
            &&& s1.out == s.out
        },
{
    crate::writer::model::lemma_get_reg(s, v);
    lemma_get_reg_quiet(s, v);
    reveal(crate::writer::model::inv);
    assert(s.slots =~= Map::<usize, u16>::empty());
    if s.map.contains_key(v) {
        assert(s.map.insert(v, s.map[v]) =~= s.map);
    } else {
        crate::writer::model::lemma_lowest_free(s.free, 0);
    }
}

/// The instructions `ch` stand in `prog` from the machine's program counter on.
pub open spec fn at_chunk(prog: Seq<PikuInstr>, c: Cpu, ch: Seq<PikuInstr>) -> bool {
    &&& 0 <= c.pc
    &&& c.pc + ch.len() <= prog.len()
    &&& forall|j: int| 0 <= j < ch.len() ==> prog[c.pc + j] == ch[j]
}

/// The writer's state for a step: invariant, slots in order, no slot handed out.
pub open spec fn quiet(ws: WState) -> bool {
    crate::writer::model::inv(ws) && slots_ok(ws) && ws.next_slot == 0
}

proof fn lemma_agrees_sub(ws: WState, ws1: WState, m: Machine, m1: Machine, c: Cpu, c1: Cpu)
    requires
        agrees(ws, m, c),
        forall|v: usize| #[trigger] ws1.map.contains_key(v) ==> ws.map.contains_key(v) && ws1.map[v] == ws.map[v]
            && m1.regs.contains_key(v as nat) == m.regs.contains_key(v as nat) && m1.regs[v as nat] == m.regs[v as nat]
            && c1.reg[ws.map[v]] == c.reg[ws.map[v]],
        c1.stack == m1.stack,
        c1.zero == m1.equal,
        c1.out == m1.out,
    ensures
        agrees(ws1, m1, c1),
{
}

/// Writing `val` to the virtual register `v` held in `r`.
proof fn lemma_agrees_write(ws: WState, map1: Map<usize, usize>, v: usize, r: usize, val: u16, m: Machine, c: Cpu)
    requires
        agrees(ws, m, c),
        crate::writer::model::inv(ws),
        map1 == ws.map.insert(v, r),
        ws.map.contains_key(v) ==> r == ws.map[v],
        !ws.map.contains_key(v) ==> forall|w: usize| #[trigger] ws.map.contains_key(w) ==> ws.map[w] != r,
    ensures
        forall|w: usize| #[trigger] map1.contains_key(w) ==> m.regs.insert(v as nat, val).contains_key(w as nat)
            && c.reg.insert(r, val)[map1[w]] == m.regs.insert(v as nat, val)[w as nat],
{
    reveal(crate::writer::model::inv);
    assert forall|w: usize| #[trigger] map1.contains_key(w) implies m.regs.insert(v as nat, val).contains_key(w as nat)
        && c.reg.insert(r, val)[map1[w]] == m.regs.insert(v as nat, val)[w as nat] by {
        if w != v {
            assert(ws.map.contains_key(w));
            assert(ws.map[w] != r);
            assert(w as nat != v as nat);
        }
    }
}

proof fn lemma_sim_load(prog: Seq<PikuInstr>, ws: WState, d: usize, n: u16, m: Machine, c: Cpu)
    requires
        quiet(ws),
        agrees(ws, m, c),
        get_reg_spec(ws, d) matches Some((s1, r)) && s1.next_slot == 0,
        at_chunk(prog, c, chunk(ws, InstrView::LoadImm(d as nat, n))),
    ensures ({
        let (s1, r) = get_reg_spec(ws, d).unwrap();
        let ws1 = emit(s1, "LD "@ + reg_name(r) + ", "@ + decimal(n as nat));
        let m1 = Machine { pc: m.pc + 1, regs: m.regs.insert(d as nat, n), ..m };
        cpu_steps(prog, c, 1) matches Some(c1) && c1.pc == c.pc + 1 && agrees(ws1, m1, c1)
    }),
{
    lemma_get_reg_facts(ws, d);
    let (s1, r) = get_reg_spec(ws, d).unwrap();
    reveal_with_fuel(cpu_steps, 2);
    assert((d as nat) as usize == d);
    assert(chunk(ws, InstrView::LoadImm(d as nat, n))[0] == PikuInstr::LdImm(r, n));
    assert(prog[c.pc + 0] == PikuInstr::LdImm(r, n));
    lemma_agrees_write(ws, s1.map, d, r, n, m, c);
}

proof fn lemma_sim_mov(prog: Seq<PikuInstr>, ws: WState, d: usize, s: usize, m: Machine, c: Cpu)
    requires
        quiet(ws),
        agrees(ws, m, c),
        ws.map.contains_key(s),
        get_reg_spec(ws, d) matches Some((s1, x)) && get_reg_spec(s1, s) matches Some((s2, y)) && s2.next_slot == 0,
        at_chunk(prog, c, chunk(ws, InstrView::Mov(d as nat, s as nat))),
    ensures ({
        let (s1, x) = get_reg_spec(ws, d).unwrap();
        let (s2, y) = get_reg_spec(s1, s).unwrap();
        let ws1 = emit(s2, "LD"@ + " "@ + reg_name(x) + ", "@ + reg_name(y));
        let m1 = Machine { pc: m.pc + 1, regs: m.regs.insert(d as nat, m.regs[s as nat]), ..m };
        cpu_steps(prog, c, 1) matches Some(c1) && c1.pc == c.pc + 1 && agrees(ws1, m1, c1)
    }),
{
    lemma_get_reg_next_slot(ws, d);
    lemma_get_reg_facts(ws, d);
    let (s1, x) = get_reg_spec(ws, d).unwrap();
    lemma_get_reg_next_slot(s1, s);
    lemma_get_reg_facts(s1, s);
    let (s2, y) = get_reg_spec(s1, s).unwrap();
    assert(s2.map =~= s1.map);
    assert(c.reg[y] == m.regs[s as nat]) by {
        if s != d { assert(y == ws.map[s]); } else { assert(ws.map.contains_key(d) && x == ws.map[d]); }
    }
    reveal_with_fuel(cpu_steps, 2);
    assert((d as nat) as usize == d && (s as nat) as usize == s);
    assert(chunk(ws, InstrView::Mov(d as nat, s as nat))[0] == PikuInstr::LdReg(x, y));
    assert(prog[c.pc + 0] == PikuInstr::LdReg(x, y));
    lemma_agrees_write(ws, s1.map, d, x, m.regs[s as nat], m, c);
}

proof fn lemma_sim_binop(prog: Seq<PikuInstr>, ws: WState, op: ArithOp, left: usize, right: usize, dest: usize, m: Machine, c: Cpu)
    requires
        quiet(ws),
        agrees(ws, m, c),
        ws.map.contains_key(left),
        ws.map.contains_key(right),
        dest != right,
        get_reg_spec(ws, dest) matches Some((s1, d)) && get_reg_spec(s1, left) matches Some((s2, l))
            && get_reg_spec(s2, right) matches Some((s3, r)) && s3.next_slot == 0,
        at_chunk(prog, c, binop_chunk(ws, op, left, right, dest)),
    ensures ({
        let (s1, d) = get_reg_spec(ws, dest).unwrap();
        let (s2, l) = get_reg_spec(s1, left).unwrap();
        let (s3, r) = get_reg_spec(s2, right).unwrap();
        let ws1 = emit(emit(s3, "LD "@ + reg_name(d) + ", "@ + reg_name(l)), mnemonic(op) + " "@ + reg_name(d) + ", "@ + reg_name(r));
        let v = piku_ir_arith()(op, m.regs[left as nat], m.regs[right as nat]);
        let m1 = Machine { pc: m.pc + 1, regs: m.regs.insert(dest as nat, v), ..m };
        cpu_steps(prog, c, 2) matches Some(c1) ==> c1.pc == c.pc + 2 && agrees(ws1, m1, c1)
    }),
{
    lemma_get_reg_next_slot(ws, dest);
    lemma_get_reg_facts(ws, dest);
    let (s1, d) = get_reg_spec(ws, dest).unwrap();
    lemma_get_reg_next_slot(s1, left);
    lemma_get_reg_facts(s1, left);
    let (s2, l) = get_reg_spec(s1, left).unwrap();
    lemma_get_reg_next_slot(s2, right);
    lemma_get_reg_facts(s2, right);
    let (s3, r) = get_reg_spec(s2, right).unwrap();
    assert(s2.map =~= s1.map);
    assert(s3.map =~= s1.map);
    reveal(crate::writer::model::inv);
    assert(r != d);
    assert(c.reg[l] == m.regs[left as nat]) by {
        if left != dest { assert(l == ws.map[left]); }
    }
    assert(r == ws.map[right]);
    assert(c.reg[r] == m.regs[right as nat]);
    reveal_with_fuel(cpu_steps, 3);
    assert(prog[c.pc + 0] == PikuInstr::LdReg(d, l));
    assert(prog[c.pc + 1] == PikuInstr::Arith(op, d, r));
    let ca = cpu_set(c, d, c.reg[l]);
    assert(ca.reg[r] == c.reg[r]);
    let v = piku_ir_arith()(op, m.regs[left as nat], m.regs[right as nat]);
    if let Some(c1) = cpu_steps(prog, c, 2) {
        assert(piku_arith(op, c.reg[l], c.reg[r]) == Some(v));
        assert(c1.reg == c.reg.insert(d, c.reg[l]).insert(d, v));
        assert(c1.reg =~= c.reg.insert(d, v));
        lemma_agrees_write(ws, s1.map, dest, d, v, m, c);
    }
}

proof fn lemma_sim_compare(prog: Seq<PikuInstr>, ws: WState, a: usize, b: usize, m: Machine, c: Cpu)
    requires
        quiet(ws),
        agrees(ws, m, c),
        ws.map.contains_key(a),
        ws.map.contains_key(b),
        get_reg_spec(ws, a) matches Some((s1, x)) && get_reg_spec(s1, b) matches Some((s2, y)) && s2.next_slot == 0,
        at_chunk(prog, c, chunk(ws, InstrView::Cmp(a as nat, b as nat))),
    ensures ({
        let (s1, x) = get_reg_spec(ws, a).unwrap();
        let (s2, y) = get_reg_spec(s1, b).unwrap();
        let ws1 = emit(s2, "CMP"@ + " "@ + reg_name(x) + ", "@ + reg_name(y));
        let m1 = Machine { pc: m.pc + 1, equal: m.regs[a as nat] == m.regs[b as nat], ..m };
        cpu_steps(prog, c, 1) matches Some(c1) && c1.pc == c.pc + 1 && agrees(ws1, m1, c1)
    }),
{
    lemma_get_reg_next_slot(ws, a);
    lemma_get_reg_facts(ws, a);
    let (s1, x) = get_reg_spec(ws, a).unwrap();
    lemma_get_reg_next_slot(s1, b);
    lemma_get_reg_facts(s1, b);
    let (s2, y) = get_reg_spec(s1, b).unwrap();
    assert(s1.map =~= ws.map);
    assert(s2.map =~= ws.map);
    reveal_with_fuel(cpu_steps, 2);
    assert((a as nat) as usize == a && (b as nat) as usize == b);
    assert(chunk(ws, InstrView::Cmp(a as nat, b as nat))[0] == PikuInstr::Cmp(x, y));
    assert(prog[c.pc + 0] == PikuInstr::Cmp(x, y));
}

proof fn lemma_sim_print(prog: Seq<PikuInstr>, ws: WState, v: usize, m: Machine, c: Cpu)
    requires
        quiet(ws),
        agrees(ws, m, c),
        ws.map.contains_key(v),
        get_reg_spec(ws, v) matches Some((s1, r)) && s1.next_slot == 0,
        at_chunk(prog, c, chunk(ws, InstrView::Print(v as nat))),
    ensures ({
        let (s1, r) = get_reg_spec(ws, v).unwrap();
        let ws1 = free_reg_spec(emit(s1, "OUT"@ + " "@ + reg_name(r)), r);
        let m1 = Machine { pc: m.pc + 1, out: m.out.push(m.regs[v as nat]), ..m };
        cpu_steps(prog, c, 1) matches Some(c1) ==> c1.pc == c.pc + 1 && agrees(ws1, m1, c1)
    }),
{
    lemma_get_reg_facts(ws, v);
    let (s1, r) = get_reg_spec(ws, v).unwrap();
    assert(s1.map =~= ws.map);
    reveal_with_fuel(cpu_steps, 2);
    assert((v as nat) as usize == v);
    assert(chunk(ws, InstrView::Print(v as nat))[0] == PikuInstr::Out(r));
    assert(prog[c.pc + 0] == PikuInstr::Out(r));
    let ws1 = free_reg_spec(emit(s1, "OUT"@ + " "@ + reg_name(r)), r);
    let m1 = Machine { pc: m.pc + 1, out: m.out.push(m.regs[v as nat]), ..m };
    if let Some(c1) = cpu_steps(prog, c, 1) {
        assert(c1.reg == c.reg);
        lemma_agrees_sub(ws, ws1, m, m1, c, c1);
    }
}

proof fn lemma_sim_drop(ws: WState, v: usize, m: Machine, c: Cpu)
    requires
        quiet(ws),
        agrees(ws, m, c),
        get_reg_spec(ws, v) matches Some((s1, r)) && s1.next_slot == 0,
    ensures ({
        let (s1, r) = get_reg_spec(ws, v).unwrap();
        let ws1 = free_reg_spec(s1, r);
        let m1 = Machine { pc: m.pc + 1, regs: m.regs.remove(v as nat), ..m };
        agrees(ws1, m1, c)
    }),
{
    lemma_get_reg_facts(ws, v);
    let (s1, r) = get_reg_spec(ws, v).unwrap();
    let ws1 = free_reg_spec(s1, r);
    let m1 = Machine { pc: m.pc + 1, regs: m.regs.remove(v as nat), ..m };
    assert forall|w: usize| #[trigger] ws1.map.contains_key(w) implies ws.map.contains_key(w) && ws1.map[w] == ws.map[w]
        && m1.regs.contains_key(w as nat) == m.regs.contains_key(w as nat) && m1.regs[w as nat] == m.regs[w as nat]
        && c.reg[ws.map[w]] == c.reg[ws.map[w]] by {
        assert(s1.map.contains_key(w) && s1.map[w] != r);
        assert(w != v);
        assert(w as nat != v as nat);
    }
    lemma_agrees_sub(ws, ws1, m, m1, c, c);
}

proof fn lemma_sim_push(prog: Seq<PikuInstr>, ws: WState, v: usize, m: Machine, c: Cpu)
    requires
        quiet(ws),
        agrees(ws, m, c),
        ws.map.contains_key(v),
        get_reg_spec(ws, v) matches Some((s1, r)) && s1.next_slot == 0,
        at_chunk(prog, c, chunk(ws, InstrView::Push(v as nat))),
    ensures ({
        let (s1, r) = get_reg_spec(ws, v).unwrap();
        let ws1 = emit(s1, "PUSH"@ + " "@ + reg_name(r));
        let m1 = Machine { pc: m.pc + 1, stack: m.stack.push(m.regs[v as nat]), ..m };
        cpu_steps(prog, c, 1) matches Some(c1) ==> c1.pc == c.pc + 1 && agrees(ws1, m1, c1)
    }),
{
    lemma_get_reg_facts(ws, v);
    let (s1, r) = get_reg_spec(ws, v).unwrap();
    assert(s1.map =~= ws.map);
    reveal_with_fuel(cpu_steps, 2);
    assert((v as nat) as usize == v);
    assert(chunk(ws, InstrView::Push(v as nat))[0] == PikuInstr::Push(r));
    assert(prog[c.pc + 0] == PikuInstr::Push(r));
}

proof fn lemma_sim_pop(prog: Seq<PikuInstr>, ws: WState, v: usize, m: Machine, c: Cpu)
    requires
        quiet(ws),
        agrees(ws, m, c),
        m.stack.len() > 0,
        get_reg_spec(ws, v) matches Some((s1, r)) && s1.next_slot == 0,
        at_chunk(prog, c, chunk(ws, InstrView::Pop(v as nat))),
    ensures ({
        let (s1, r) = get_reg_spec(ws, v).unwrap();
        let ws1 = emit(s1, "POP"@ + " "@ + reg_name(r));
        let m1 = Machine { pc: m.pc + 1, regs: m.regs.insert(v as nat, m.stack.last()), stack: m.stack.drop_last(), ..m };
        cpu_steps(prog, c, 1) matches Some(c1) && c1.pc == c.pc + 1 && agrees(ws1, m1, c1)
    }),
{
    lemma_get_reg_facts(ws, v);
    let (s1, r) = get_reg_spec(ws, v).unwrap();
    reveal_with_fuel(cpu_steps, 2);
    assert((v as nat) as usize == v);
    assert(chunk(ws, InstrView::Pop(v as nat))[0] == PikuInstr::Pop(r));
    assert(prog[c.pc + 0] == PikuInstr::Pop(r));
    lemma_agrees_write(ws, s1.map, v, r, m.stack.last(), m, c);
}

proof fn lemma_sim_label(prog: Seq<PikuInstr>, ws: WState, l: Seq<char>, m: Machine, c: Cpu)
    requires
        agrees(ws, m, c),
        at_chunk(prog, c, chunk(ws, InstrView::Label(l))),
    ensures
        cpu_steps(prog, c, 1) matches Some(c1) && c1.pc == c.pc + 1
            && agrees(emit(ws, "\n"@ + l + ":"@), Machine { pc: m.pc + 1, ..m }, c1),
{
    reveal_with_fuel(cpu_steps, 2);
    assert(chunk(ws, InstrView::Label(l))[0] == PikuInstr::Label(l));
    assert(prog[c.pc + 0] == PikuInstr::Label(l));
}

// ---------------------------------------------------------------------------
// Where things stand in the emitted program

proof fn lemma_chunks_prefix(s0: WState, ir: Seq<InstrView>, k: nat, n: nat)
    requires
        k <= n,
    ensures
        chunks_upto(s0, ir, k).len() <= chunks_upto(s0, ir, n).len(),
        forall|j: int| 0 <= j < chunks_upto(s0, ir, k).len() ==> #[trigger] chunks_upto(s0, ir, n)[j] == chunks_upto(s0, ir, k)[j],
    decreases n,
{
    if k < n {
        lemma_chunks_prefix(s0, ir, k, (n - 1) as nat);
    }
}

/// The chunk of instruction `k` stands in the program at `offset(k)`.
proof fn lemma_chunk_in_program(s0: WState, ir: Seq<InstrView>, k: nat)
    requires
        k < ir.len(),
        wstate_at(s0, ir, k) is Some,
    ensures ({
        let p = program_of(s0, ir);
        let ch = chunk(wstate_at(s0, ir, k).unwrap(), ir[k as int]);
        &&& offset(s0, ir, k + 1) == offset(s0, ir, k) + ch.len()
        &&& offset(s0, ir, k + 1) <= p.len()
        &&& forall|j: int| 0 <= j < ch.len() ==> p[offset(s0, ir, k) + j] == ch[j]
    }),
{
    let p = program_of(s0, ir);
    let ch = chunk(wstate_at(s0, ir, k).unwrap(), ir[k as int]);
    lemma_chunks_prefix(s0, ir, k + 1, ir.len());
    let cu = chunks_upto(s0, ir, k + 1);
    assert(cu == chunks_upto(s0, ir, k) + ch);
    assert forall|j: int| 0 <= j < ch.len() implies p[offset(s0, ir, k) + j] == ch[j] by {
        let idx = chunks_upto(s0, ir, k).len() + j;
        assert(cu[idx] == ch[j]);
        assert(chunks_upto(s0, ir, ir.len())[idx] == cu[idx]);
        assert(p[1 + idx] == chunks_upto(s0, ir, ir.len())[idx]);
    }
}

proof fn lemma_label_index_skip(prog: Seq<PikuInstr>, name: Seq<char>, i: int, j: int)
    requires
        0 <= i <= j <= prog.len(),
        forall|k: int| i <= k < j ==> prog[k] != PikuInstr::Label(name),
    ensures
        label_index(prog, name, i) == label_index(prog, name, j),
    decreases j - i,
{
    if i < j {
        lemma_label_index_skip(prog, name, i + 1, j);
    }
}

/// Only the chunk of a label holds a label, and it holds that label.
#[verifier::spinoff_prover]
#[verifier::rlimit(50)]
proof fn lemma_chunk_labels(ws: WState, i: InstrView)
    ensures
        forall|j: int| 0 <= j < chunk(ws, i).len() && #[trigger] chunk(ws, i)[j] is Label
            ==> i is Label && chunk(ws, i)[j] == PikuInstr::Label(i->Label_0),
{
    match i {
        InstrView::Label(_) => {},
        InstrView::Add { left, right, dest } | InstrView::Sub { left, right, dest }
        | InstrView::Mul { left, right, dest } | InstrView::Div { left, right, dest }
        | InstrView::Mod { left, right, dest } => {},
        _ => {},
    }
}

proof fn lemma_chunk_label_positions(s0: WState, ir: Seq<InstrView>, name: Seq<char>, k: nat)
    requires
        k < ir.len(),
        wstate_at(s0, ir, k) is Some,
    ensures ({
        let p = program_of(s0, ir);
        &&& offset(s0, ir, k) <= offset(s0, ir, k + 1) <= p.len()
        &&& ir[k as int] == InstrView::Label(name) ==> offset(s0, ir, k) < p.len() && p[offset(s0, ir, k)] == PikuInstr::Label(name)
        &&& ir[k as int] != InstrView::Label(name) ==> forall|q: int| offset(s0, ir, k) <= q < offset(s0, ir, k + 1)
            ==> p[q] != PikuInstr::Label(name)
    }),
{
    let p = program_of(s0, ir);
    lemma_chunk_in_program(s0, ir, k);
    let ws = wstate_at(s0, ir, k).unwrap();
    let ch = chunk(ws, ir[k as int]);
    lemma_chunk_labels(ws, ir[k as int]);
    if ir[k as int] == InstrView::Label(name) {
        assert(ch[0] == PikuInstr::Label(name));
        assert(p[offset(s0, ir, k) + 0] == PikuInstr::Label(name));
    } else {
        assert forall|q: int| offset(s0, ir, k) <= q < offset(s0, ir, k + 1) implies p[q] != PikuInstr::Label(name) by {
            assert(p[offset(s0, ir, k) + (q - offset(s0, ir, k))] == ch[q - offset(s0, ir, k)]);
        }
    }
}

/// A jump in the program lands on the chunk of the label that the IR jumps to.
proof fn lemma_label_map(s0: WState, ir: Seq<InstrView>, name: Seq<char>, k: nat)
    requires
        k <= ir.len(),
        wstate_at(s0, ir, ir.len()) is Some,
    ensures
        label_index(program_of(s0, ir), name, offset(s0, ir, k))
            == offset(s0, ir, crate::ir::machine::label_from(ir, name, k as int) as nat),
    decreases ir.len() - k,
{
    let p = program_of(s0, ir);
    if k == ir.len() {
        assert(p.len() == offset(s0, ir, k));
    } else {
        lemma_wstate_prefix(s0, ir, k, ir.len());
        lemma_chunk_label_positions(s0, ir, name, k);
        if ir[k as int] != InstrView::Label(name) {
            lemma_label_index_skip(p, name, offset(s0, ir, k), offset(s0, ir, k + 1));
            lemma_label_map(s0, ir, name, k + 1);
        }
    }
}

proof fn lemma_wstate_prefix(s0: WState, ir: Seq<InstrView>, k: nat, n: nat)
    requires
        k <= n,
        wstate_at(s0, ir, n) is Some,
    ensures
        wstate_at(s0, ir, k) is Some,
    decreases n,
{
    if k < n {
        lemma_wstate_prefix(s0, ir, k, (n - 1) as nat);
    }
}

// ---------------------------------------------------------------------------
// One IR instruction

#[verifier::spinoff_prover]
proof fn lemma_sim_loadimm_instr(prog: Seq<PikuInstr>, ir: Seq<InstrView>, ws: WState, ws1: WState, m: Machine, c: Cpu)
    requires
        0 <= m.pc < ir.len(),
        ir[m.pc] is LoadImm,
        quiet(ws),
        step_spec(ws, ir[m.pc]) == Some(ws1),
        ws1.next_slot == 0,
        operands_ready(ws, ir[m.pc]),
        agrees(ws, m, c),
        at_chunk(prog, c, chunk(ws, ir[m.pc])),
        machine_step(ir, m, piku_ir_arith()) is Some,
    ensures
        cpu_steps(prog, c, chunk(ws, ir[m.pc]).len()) matches Some(c1) ==> {
            &&& c1.pc == c.pc + chunk(ws, ir[m.pc]).len()
            &&& agrees(ws1, machine_step(ir, m, piku_ir_arith()).unwrap(), c1)
        },
{
    reveal(step_spec);
    let i = ir[m.pc];
    if let InstrView::LoadImm(d, n) = i {
        lemma_get_reg_next_slot(ws, d as usize);
        lemma_sim_load(prog, ws, d as usize, n, m, c);
    }
}

#[verifier::spinoff_prover]
proof fn lemma_sim_mov_instr(prog: Seq<PikuInstr>, ir: Seq<InstrView>, ws: WState, ws1: WState, m: Machine, c: Cpu)
    requires
        0 <= m.pc < ir.len(),
        ir[m.pc] is Mov,
        quiet(ws),
        step_spec(ws, ir[m.pc]) == Some(ws1),
        ws1.next_slot == 0,
        operands_ready(ws, ir[m.pc]),
        agrees(ws, m, c),
        at_chunk(prog, c, chunk(ws, ir[m.pc])),
        machine_step(ir, m, piku_ir_arith()) is Some,
    ensures
        cpu_steps(prog, c, chunk(ws, ir[m.pc]).len()) matches Some(c1) ==> {
            &&& c1.pc == c.pc + chunk(ws, ir[m.pc]).len()
            &&& agrees(ws1, machine_step(ir, m, piku_ir_arith()).unwrap(), c1)
        },
{
    reveal(step_spec);
    let i = ir[m.pc];
    if let InstrView::Mov(d, x) = i {
        lemma_get_reg_next_slot(ws, d as usize);
        let (s1, _) = get_reg_spec(ws, d as usize).unwrap();
        lemma_get_reg_next_slot(s1, x as usize);
        lemma_sim_mov(prog, ws, d as usize, x as usize, m, c);
    }
}

#[verifier::spinoff_prover]
proof fn lemma_sim_compare_instr(prog: Seq<PikuInstr>, ir: Seq<InstrView>, ws: WState, ws1: WState, m: Machine, c: Cpu)
    requires
        0 <= m.pc < ir.len(),
        ir[m.pc] is Cmp,
        quiet(ws),
        step_spec(ws, ir[m.pc]) == Some(ws1),
        ws1.next_slot == 0,
        operands_ready(ws, ir[m.pc]),
        agrees(ws, m, c),
        at_chunk(prog, c, chunk(ws, ir[m.pc])),
        machine_step(ir, m, piku_ir_arith()) is Some,
    ensures
        cpu_steps(prog, c, chunk(ws, ir[m.pc]).len()) matches Some(c1) ==> {
            &&& c1.pc == c.pc + chunk(ws, ir[m.pc]).len()
            &&& agrees(ws1, machine_step(ir, m, piku_ir_arith()).unwrap(), c1)
        },
{
    reveal(step_spec);
    let i = ir[m.pc];
    if let InstrView::Cmp(a, b) = i {
        lemma_get_reg_next_slot(ws, a as usize);
        let (s1, _) = get_reg_spec(ws, a as usize).unwrap();
        lemma_get_reg_next_slot(s1, b as usize);
        lemma_sim_compare(prog, ws, a as usize, b as usize, m, c);
    }
}

#[verifier::spinoff_prover]
proof fn lemma_sim_print_instr(prog: Seq<PikuInstr>, ir: Seq<InstrView>, ws: WState, ws1: WState, m: Machine, c: Cpu)
    requires
        0 <= m.pc < ir.len(),
        ir[m.pc] is Print,
        quiet(ws),
        step_spec(ws, ir[m.pc]) == Some(ws1),
        ws1.next_slot == 0,
        operands_ready(ws, ir[m.pc]),
        agrees(ws, m, c),
        at_chunk(prog, c, chunk(ws, ir[m.pc])),
        machine_step(ir, m, piku_ir_arith()) is Some,
    ensures
        cpu_steps(prog, c, chunk(ws, ir[m.pc]).len()) matches Some(c1) ==> {
            &&& c1.pc == c.pc + chunk(ws, ir[m.pc]).len()
            &&& agrees(ws1, machine_step(ir, m, piku_ir_arith()).unwrap(), c1)
        },
{
    reveal(step_spec);
    let i = ir[m.pc];
    if let InstrView::Print(v) = i {
        lemma_get_reg_next_slot(ws, v as usize);
        lemma_sim_print(prog, ws, v as usize, m, c);
    }
}

#[verifier::spinoff_prover]
proof fn lemma_sim_drop_instr(prog: Seq<PikuInstr>, ir: Seq<InstrView>, ws: WState, ws1: WState, m: Machine, c: Cpu)
    requires
        0 <= m.pc < ir.len(),
        ir[m.pc] is Drop,
        quiet(ws),
        step_spec(ws, ir[m.pc]) == Some(ws1),
        ws1.next_slot == 0,
        operands_ready(ws, ir[m.pc]),
        agrees(ws, m, c),
        at_chunk(prog, c, chunk(ws, ir[m.pc])),
        machine_step(ir, m, piku_ir_arith()) is Some,
    ensures
        cpu_steps(prog, c, chunk(ws, ir[m.pc]).len()) matches Some(c1) ==> {
            &&& c1.pc == c.pc + chunk(ws, ir[m.pc]).len()
            &&& agrees(ws1, machine_step(ir, m, piku_ir_arith()).unwrap(), c1)
        },
{
    reveal(step_spec);
    let i = ir[m.pc];
    if let InstrView::Drop(v) = i {
        lemma_get_reg_next_slot(ws, v as usize);
        lemma_sim_drop(ws, v as usize, m, c);
        assert(cpu_steps(prog, c, 0) == Some(c));
    }
}

#[verifier::spinoff_prover]
proof fn lemma_sim_push_instr(prog: Seq<PikuInstr>, ir: Seq<InstrView>, ws: WState, ws1: WState, m: Machine, c: Cpu)
    requires
        0 <= m.pc < ir.len(),
        ir[m.pc] is Push,
        quiet(ws),
        step_spec(ws, ir[m.pc]) == Some(ws1),
        ws1.next_slot == 0,
        operands_ready(ws, ir[m.pc]),
        agrees(ws, m, c),
        at_chunk(prog, c, chunk(ws, ir[m.pc])),
        machine_step(ir, m, piku_ir_arith()) is Some,
    ensures
        cpu_steps(prog, c, chunk(ws, ir[m.pc]).len()) matches Some(c1) ==> {
            &&& c1.pc == c.pc + chunk(ws, ir[m.pc]).len()
            &&& agrees(ws1, machine_step(ir, m, piku_ir_arith()).unwrap(), c1)
        },
{
    reveal(step_spec);
    let i = ir[m.pc];
    if let InstrView::Push(v) = i {
        lemma_get_reg_next_slot(ws, v as usize);
        lemma_sim_push(prog, ws, v as usize, m, c);
    }
}

#[verifier::spinoff_prover]
proof fn lemma_sim_pop_instr(prog: Seq<PikuInstr>, ir: Seq<InstrView>, ws: WState, ws1: WState, m: Machine, c: Cpu)
    requires
        0 <= m.pc < ir.len(),
        ir[m.pc] is Pop,
        quiet(ws),
        step_spec(ws, ir[m.pc]) == Some(ws1),
        ws1.next_slot == 0,
        operands_ready(ws, ir[m.pc]),
        agrees(ws, m, c),
        at_chunk(prog, c, chunk(ws, ir[m.pc])),
        machine_step(ir, m, piku_ir_arith()) is Some,
    ensures
        cpu_steps(prog, c, chunk(ws, ir[m.pc]).len()) matches Some(c1) ==> {
            &&& c1.pc == c.pc + chunk(ws, ir[m.pc]).len()
            &&& agrees(ws1, machine_step(ir, m, piku_ir_arith()).unwrap(), c1)
        },
{
    reveal(step_spec);
    let i = ir[m.pc];
    if let InstrView::Pop(v) = i {
        lemma_get_reg_next_slot(ws, v as usize);
        lemma_sim_pop(prog, ws, v as usize, m, c);
    }
}

#[verifier::spinoff_prover]
proof fn lemma_sim_label_instr(prog: Seq<PikuInstr>, ir: Seq<InstrView>, ws: WState, ws1: WState, m: Machine, c: Cpu)
    requires
        0 <= m.pc < ir.len(),
        ir[m.pc] is Label,
        quiet(ws),
        step_spec(ws, ir[m.pc]) == Some(ws1),
        ws1.next_slot == 0,
        operands_ready(ws, ir[m.pc]),
        agrees(ws, m, c),
        at_chunk(prog, c, chunk(ws, ir[m.pc])),
        machine_step(ir, m, piku_ir_arith()) is Some,
    ensures
        cpu_steps(prog, c, chunk(ws, ir[m.pc]).len()) matches Some(c1) ==> {
            &&& c1.pc == c.pc + chunk(ws, ir[m.pc]).len()
            &&& agrees(ws1, machine_step(ir, m, piku_ir_arith()).unwrap(), c1)
        },
{
    reveal(step_spec);
    let i = ir[m.pc];
    if let InstrView::Label(l) = i {
        lemma_sim_label(prog, ws, l, m, c);
    }
}

#[verifier::spinoff_prover]
proof fn lemma_sim_add_instr(prog: Seq<PikuInstr>, ir: Seq<InstrView>, ws: WState, ws1: WState, m: Machine, c: Cpu)
    requires
        0 <= m.pc < ir.len(),
        ir[m.pc] is Add,
        quiet(ws),
        step_spec(ws, ir[m.pc]) == Some(ws1),
        ws1.next_slot == 0,
        operands_ready(ws, ir[m.pc]),
        agrees(ws, m, c),
        at_chunk(prog, c, chunk(ws, ir[m.pc])),
        machine_step(ir, m, piku_ir_arith()) is Some,
    ensures
        cpu_steps(prog, c, chunk(ws, ir[m.pc]).len()) matches Some(c1) ==> {
            &&& c1.pc == c.pc + chunk(ws, ir[m.pc]).len()
            &&& agrees(ws1, machine_step(ir, m, piku_ir_arith()).unwrap(), c1)
        },
{
    reveal(step_spec);
    let i = ir[m.pc];
    if let InstrView::Add { left, right, dest } = i {
        lemma_get_reg_next_slot(ws, dest as usize);
        let (s1, _) = get_reg_spec(ws, dest as usize).unwrap();
        lemma_get_reg_next_slot(s1, left as usize);
        let (s2, _) = get_reg_spec(s1, left as usize).unwrap();
        lemma_get_reg_next_slot(s2, right as usize);
        assert(chunk(ws, i) == binop_chunk(ws, ArithOp::Add, left as usize, right as usize, dest as usize));
        lemma_sim_binop(prog, ws, ArithOp::Add, left as usize, right as usize, dest as usize, m, c);
    }
}

#[verifier::spinoff_prover]
proof fn lemma_sim_sub_instr(prog: Seq<PikuInstr>, ir: Seq<InstrView>, ws: WState, ws1: WState, m: Machine, c: Cpu)
    requires
        0 <= m.pc < ir.len(),
        ir[m.pc] is Sub,
        quiet(ws),
        step_spec(ws, ir[m.pc]) == Some(ws1),
        ws1.next_slot == 0,
        operands_ready(ws, ir[m.pc]),
        agrees(ws, m, c),
        at_chunk(prog, c, chunk(ws, ir[m.pc])),
        machine_step(ir, m, piku_ir_arith()) is Some,
    ensures
        cpu_steps(prog, c, chunk(ws, ir[m.pc]).len()) matches Some(c1) ==> {
            &&& c1.pc == c.pc + chunk(ws, ir[m.pc]).len()
            &&& agrees(ws1, machine_step(ir, m, piku_ir_arith()).unwrap(), c1)
        },
{
    reveal(step_spec);
    let i = ir[m.pc];
    if let InstrView::Sub { left, right, dest } = i {
        lemma_get_reg_next_slot(ws, dest as usize);
        let (s1, _) = get_reg_spec(ws, dest as usize).unwrap();
        lemma_get_reg_next_slot(s1, left as usize);
        let (s2, _) = get_reg_spec(s1, left as usize).unwrap();
        lemma_get_reg_next_slot(s2, right as usize);
        assert(chunk(ws, i) == binop_chunk(ws, ArithOp::Sub, left as usize, right as usize, dest as usize));
        lemma_sim_binop(prog, ws, ArithOp::Sub, left as usize, right as usize, dest as usize, m, c);
    }
}

#[verifier::spinoff_prover]
proof fn lemma_sim_mul_instr(prog: Seq<PikuInstr>, ir: Seq<InstrView>, ws: WState, ws1: WState, m: Machine, c: Cpu)
    requires
        0 <= m.pc < ir.len(),
        ir[m.pc] is Mul,
        quiet(ws),
        step_spec(ws, ir[m.pc]) == Some(ws1),
        ws1.next_slot == 0,
        operands_ready(ws, ir[m.pc]),
        agrees(ws, m, c),
        at_chunk(prog, c, chunk(ws, ir[m.pc])),
        machine_step(ir, m, piku_ir_arith()) is Some,
    ensures
        cpu_steps(prog, c, chunk(ws, ir[m.pc]).len()) matches Some(c1) ==> {
            &&& c1.pc == c.pc + chunk(ws, ir[m.pc]).len()
            &&& agrees(ws1, machine_step(ir, m, piku_ir_arith()).unwrap(), c1)
        },
{
    reveal(step_spec);
    let i = ir[m.pc];
    if let InstrView::Mul { left, right, dest } = i {
        lemma_get_reg_next_slot(ws, dest as usize);
        let (s1, _) = get_reg_spec(ws, dest as usize).unwrap();
        lemma_get_reg_next_slot(s1, left as usize);
        let (s2, _) = get_reg_spec(s1, left as usize).unwrap();
        lemma_get_reg_next_slot(s2, right as usize);
        assert(chunk(ws, i) == binop_chunk(ws, ArithOp::Mul, left as usize, right as usize, dest as usize));
        lemma_sim_binop(prog, ws, ArithOp::Mul, left as usize, right as usize, dest as usize, m, c);
    }
}

#[verifier::spinoff_prover]
proof fn lemma_sim_div_instr(prog: Seq<PikuInstr>, ir: Seq<InstrView>, ws: WState, ws1: WState, m: Machine, c: Cpu)
    requires
        0 <= m.pc < ir.len(),
        ir[m.pc] is Div,
        quiet(ws),
        step_spec(ws, ir[m.pc]) == Some(ws1),
        ws1.next_slot == 0,
        operands_ready(ws, ir[m.pc]),
        agrees(ws, m, c),
        at_chunk(prog, c, chunk(ws, ir[m.pc])),
        machine_step(ir, m, piku_ir_arith()) is Some,
    ensures
        cpu_steps(prog, c, chunk(ws, ir[m.pc]).len()) matches Some(c1) ==> {
            &&& c1.pc == c.pc + chunk(ws, ir[m.pc]).len()
            &&& agrees(ws1, machine_step(ir, m, piku_ir_arith()).unwrap(), c1)
        },
{
    reveal(step_spec);
    let i = ir[m.pc];
    if let InstrView::Div { left, right, dest } = i {
        lemma_get_reg_next_slot(ws, dest as usize);
        let (s1, _) = get_reg_spec(ws, dest as usize).unwrap();
        lemma_get_reg_next_slot(s1, left as usize);
        let (s2, _) = get_reg_spec(s1, left as usize).unwrap();
        lemma_get_reg_next_slot(s2, right as usize);
        assert(chunk(ws, i) == binop_chunk(ws, ArithOp::Div, left as usize, right as usize, dest as usize));
        lemma_sim_binop(prog, ws, ArithOp::Div, left as usize, right as usize, dest as usize, m, c);
    }
}

#[verifier::spinoff_prover]
proof fn lemma_sim_mod_instr(prog: Seq<PikuInstr>, ir: Seq<InstrView>, ws: WState, ws1: WState, m: Machine, c: Cpu)
    requires
        0 <= m.pc < ir.len(),
        ir[m.pc] is Mod,
        quiet(ws),
        step_spec(ws, ir[m.pc]) == Some(ws1),
        ws1.next_slot == 0,
        operands_ready(ws, ir[m.pc]),
        agrees(ws, m, c),
        at_chunk(prog, c, chunk(ws, ir[m.pc])),
        machine_step(ir, m, piku_ir_arith()) is Some,
    ensures
        cpu_steps(prog, c, chunk(ws, ir[m.pc]).len()) matches Some(c1) ==> {
            &&& c1.pc == c.pc + chunk(ws, ir[m.pc]).len()
            &&& agrees(ws1, machine_step(ir, m, piku_ir_arith()).unwrap(), c1)
        },
{
    reveal(step_spec);
    let i = ir[m.pc];
    if let InstrView::Mod { left, right, dest } = i {
        lemma_get_reg_next_slot(ws, dest as usize);
        let (s1, _) = get_reg_spec(ws, dest as usize).unwrap();
        lemma_get_reg_next_slot(s1, left as usize);
        let (s2, _) = get_reg_spec(s1, left as usize).unwrap();
        lemma_get_reg_next_slot(s2, right as usize);
        assert(chunk(ws, i) == binop_chunk(ws, ArithOp::Mod, left as usize, right as usize, dest as usize));
        lemma_sim_binop(prog, ws, ArithOp::Mod, left as usize, right as usize, dest as usize, m, c);
    }
}

// ---------------------------------------------------------------------------
// The run

/// Every virtual register living in a physical register in `a` lives in the same one in `b`.
pub open spec fn map_within(a: Map<usize, usize>, b: Map<usize, usize>) -> bool {
    forall|v: usize| #[trigger] a.contains_key(v) ==> b.contains_key(v) && b[v] == a[v]
}

/// The writer's state after the first `k` instructions of `ir`, from the initial state.
pub open spec fn wstate(ir: Seq<InstrView>, k: int) -> WState {
    wstate_at(crate::writer::model::initial_state(), ir, k as nat).unwrap()
}

/// The writer hands out no spill slot for `ir`.
pub open spec fn runs_without_spills(ir: Seq<InstrView>) -> bool {
    crate::writer::model::run_from(crate::writer::model::initial_state(), ir, 0) matches Some(sf) && sf.next_slot == 0
}

/// Every instruction of `ir` finds its operands ready (see [`operands_ready`]).
pub open spec fn operands_all_ready(ir: Seq<InstrView>) -> bool {
    forall|k: int| 0 <= k < ir.len() ==> operands_ready(wstate(ir, k), #[trigger] ir[k])
}

/// At every jump of `ir`, each virtual register that the code at the target expects in a
/// physical register is in that register.
pub open spec fn jumps_agree(ir: Seq<InstrView>) -> bool {
    forall|k: int| 0 <= k < ir.len() ==> match #[trigger] ir[k] {
        InstrView::Jmp(l) => map_within(wstate(ir, target(ir, l)).map, wstate(ir, k).map),
        InstrView::Jeq(l) => map_within(wstate(ir, target(ir, l)).map, wstate(ir, k).map),
        InstrView::Jne(l) => map_within(wstate(ir, target(ir, l)).map, wstate(ir, k).map),
        _ => true,
    }
}

/// The writer's hypotheses for `ir`.
pub open spec fn writer_runs_like_ir(ir: Seq<InstrView>) -> bool {
    runs_without_spills(ir) && operands_all_ready(ir) && jumps_agree(ir)
}

proof fn lemma_state_facts(ir: Seq<InstrView>, k: nat)
    requires
        runs_without_spills(ir),
        k <= ir.len(),
    ensures
        wstate_at(crate::writer::model::initial_state(), ir, k) is Some,
        quiet(wstate(ir, k as int)),
        k < ir.len() ==> step_spec(wstate(ir, k as int), ir[k as int]) == Some(wstate(ir, k + 1int)),
{
    let s0 = crate::writer::model::initial_state();
    lemma_text_upto(s0, ir, k);
    if k < ir.len() {
        lemma_text_upto(s0, ir, k + 1);
    }
}

/// One IR instruction, any kind: PIKU either stops with an error or reaches the chunk of the
/// IR machine's next instruction, agreeing with it.
#[verifier::spinoff_prover]
#[verifier::rlimit(40)]
proof fn lemma_sim_step(ir: Seq<InstrView>, m: Machine, c: Cpu) -> (n: nat)
    requires
        writer_runs_like_ir(ir),
        0 <= m.pc < ir.len(),
        c.pc == offset(crate::writer::model::initial_state(), ir, m.pc as nat),
        agrees(wstate(ir, m.pc), m, c),
        machine_step(ir, m, piku_ir_arith()) is Some,
    ensures
        cpu_steps(program_of(crate::writer::model::initial_state(), ir), c, n) matches Some(c1) ==> {
            let m1 = machine_step(ir, m, piku_ir_arith()).unwrap();
            &&& 0 <= m1.pc <= ir.len()
            &&& c1.pc == offset(crate::writer::model::initial_state(), ir, m1.pc as nat)
            &&& agrees(wstate(ir, m1.pc), m1, c1)
        },
{
    let s0 = crate::writer::model::initial_state();
    let p = program_of(s0, ir);
    let k = m.pc;
    lemma_state_facts(ir, k as nat);
    lemma_state_facts(ir, (k + 1) as nat);
    lemma_chunk_in_program(s0, ir, k as nat);
    let ws = wstate(ir, k);
    let ws1 = wstate(ir, k + 1);
    let i = ir[k];
    assert(operands_ready(ws, i));
    let ch = chunk(ws, i);
    assert(at_chunk(p, c, ch));
    let m1 = machine_step(ir, m, piku_ir_arith()).unwrap();
    match i {
        InstrView::Jmp(l) | InstrView::Jeq(l) | InstrView::Jne(l) => {
            lemma_sim_jump(ir, m, c, l);
            1
        },
        InstrView::LoadImm(..) => { lemma_sim_loadimm_instr(p, ir, ws, ws1, m, c); ch.len() },
        InstrView::Mov(..) => { lemma_sim_mov_instr(p, ir, ws, ws1, m, c); ch.len() },
        InstrView::Add { .. } => { lemma_sim_add_instr(p, ir, ws, ws1, m, c); ch.len() },
        InstrView::Sub { .. } => { lemma_sim_sub_instr(p, ir, ws, ws1, m, c); ch.len() },
        InstrView::Mul { .. } => { lemma_sim_mul_instr(p, ir, ws, ws1, m, c); ch.len() },
        InstrView::Div { .. } => { lemma_sim_div_instr(p, ir, ws, ws1, m, c); ch.len() },
        InstrView::Mod { .. } => { lemma_sim_mod_instr(p, ir, ws, ws1, m, c); ch.len() },
        InstrView::Cmp(..) => { lemma_sim_compare_instr(p, ir, ws, ws1, m, c); ch.len() },
        InstrView::Print(..) => { lemma_sim_print_instr(p, ir, ws, ws1, m, c); ch.len() },
        InstrView::Drop(..) => { lemma_sim_drop_instr(p, ir, ws, ws1, m, c); ch.len() },
        InstrView::Push(..) => { lemma_sim_push_instr(p, ir, ws, ws1, m, c); ch.len() },
        InstrView::Pop(..) => { lemma_sim_pop_instr(p, ir, ws, ws1, m, c); ch.len() },
        InstrView::Label(..) => { lemma_sim_label_instr(p, ir, ws, ws1, m, c); ch.len() },
    }
}

proof fn lemma_jump_keeps_map(ws: WState, i: InstrView)
    requires
        i is Jmp || i is Jeq || i is Jne,
    ensures
        step_spec(ws, i) matches Some(ws1) && ws1.map == ws.map,
{
    reveal(step_spec);
}

/// Where PIKU's jump to `l` lands: the chunk of the IR's target of `l`.
proof fn lemma_jump_target(ir: Seq<InstrView>, l: Seq<char>)
    requires
        runs_without_spills(ir),
    ensures
        0 <= target(ir, l) <= ir.len(),
        label_index(program_of(crate::writer::model::initial_state(), ir), l, 0)
            == offset(crate::writer::model::initial_state(), ir, target(ir, l) as nat),
{
    let s0 = crate::writer::model::initial_state();
    let p = program_of(s0, ir);
    lemma_state_facts(ir, ir.len());
    assert(p[0] == spill_base_load());
    lemma_chunks_prefix(s0, ir, 0, ir.len());
    lemma_label_index_skip(p, l, 0, 1);
    lemma_label_map(s0, ir, l, 0);
    crate::ir::machine::lemma_label_from_range(ir, l, 0);
}

/// A jump: PIKU lands where the IR machine does.
#[verifier::spinoff_prover]
#[verifier::rlimit(40)]
proof fn lemma_sim_jump(ir: Seq<InstrView>, m: Machine, c: Cpu, l: Seq<char>)
    requires
        writer_runs_like_ir(ir),
        0 <= m.pc < ir.len(),
        ir[m.pc] == InstrView::Jmp(l) || ir[m.pc] == InstrView::Jeq(l) || ir[m.pc] == InstrView::Jne(l),
        c.pc == offset(crate::writer::model::initial_state(), ir, m.pc as nat),
        agrees(wstate(ir, m.pc), m, c),
    ensures
        cpu_steps(program_of(crate::writer::model::initial_state(), ir), c, 1) matches Some(c1) && {
            let m1 = machine_step(ir, m, piku_ir_arith()).unwrap();
            &&& 0 <= m1.pc <= ir.len()
            &&& c1.pc == offset(crate::writer::model::initial_state(), ir, m1.pc as nat)
            &&& agrees(wstate(ir, m1.pc), m1, c1)
        },
{
    let s0 = crate::writer::model::initial_state();
    let p = program_of(s0, ir);
    let k = m.pc;
    lemma_state_facts(ir, k as nat);
    lemma_state_facts(ir, (k + 1) as nat);
    lemma_chunk_in_program(s0, ir, k as nat);
    let ws = wstate(ir, k);
    let i = ir[k];
    lemma_jump_keeps_map(ws, i);
    let ch = chunk(ws, i);
    assert(p[c.pc + 0] == ch[0]);
    lemma_jump_target(ir, l);
    let t = target(ir, l);
    lemma_state_facts(ir, t as nat);
    reveal_with_fuel(cpu_steps, 2);
    let m1 = machine_step(ir, m, piku_ir_arith()).unwrap();
    let c1 = cpu_steps(p, c, 1).unwrap();
    if m1.pc == t {
        assert(map_within(wstate(ir, t).map, ws.map));
        lemma_agrees_sub(ws, wstate(ir, t), m, m1, c, c1);
    } else {
        lemma_agrees_sub(ws, wstate(ir, k + 1), m, m1, c, c1);
    }
}

proof fn lemma_sim_run(ir: Seq<InstrView>, m0: Machine, c0: Cpu, n: nat) -> (n2: nat)
    requires
        writer_runs_like_ir(ir),
        m0.pc == 0,
        c0.pc == offset(crate::writer::model::initial_state(), ir, 0),
        agrees(wstate(ir, 0), m0, c0),
    ensures
        steps(ir, m0, n, piku_ir_arith()) matches Some(m) ==>
            cpu_steps(program_of(crate::writer::model::initial_state(), ir), c0, n2) matches Some(c) ==> {
                &&& 0 <= m.pc <= ir.len()
                &&& c.pc == offset(crate::writer::model::initial_state(), ir, m.pc as nat)
                &&& agrees(wstate(ir, m.pc), m, c)
            },
    decreases n,
{
    let p = program_of(crate::writer::model::initial_state(), ir);
    if n == 0 {
        0
    } else {
        let n1 = lemma_sim_run(ir, m0, c0, (n - 1) as nat);
        lemma_steps_add(ir, m0, (n - 1) as nat, 1, piku_ir_arith());
        match steps(ir, m0, (n - 1) as nat, piku_ir_arith()) {
            None => 0,
            Some(mm) => {
                if machine_step(ir, mm, piku_ir_arith()) is None {
                    0
                } else {
                    match cpu_steps(p, c0, n1) {
                        None => n1,
                        Some(c) => {
                            let n3 = lemma_sim_step(ir, mm, c);
                            lemma_cpu_steps_add(p, c0, n1, n3);
                            assert(steps(ir, mm, 1, piku_ir_arith()) == Some(machine_step(ir, mm, piku_ir_arith()).unwrap())) by {
                                reveal_with_fuel(steps, 2);
                            }
                            n1 + n3
                        },
                    }
                }
            },
        }
    }
}

/// Law: when the writer needs no spill slot for `ir`, every instruction finds the registers it
/// reads in physical registers, and every jump finds the registers that its target expects
/// where the target expects them, then PIKU running the emitted program, from the IR
/// machine's stack, flag and output, either stops on one of its run-time errors (a zero
/// divisor, a code that is no character, a full stack) or reaches the program's end having
/// printed what the IR printed, with the same stack. The IR machine computes with PIKU's
/// arithmetic.
pub proof fn law_writer_preserves_output(ir: Seq<InstrView>, m: Machine, c: Cpu, n: nat)
    requires
        writer_runs_like_ir(ir),
        m.pc == 0,
        c.pc == 0,
        c.stack == m.stack,
        c.zero == m.equal,
        c.out == m.out,
        steps(ir, m, n, piku_ir_arith()) matches Some(m2) && m2.pc == ir.len(),
    ensures
        exists|n2: nat| #[trigger] cpu_steps(program_of(crate::writer::model::initial_state(), ir), c, n2) matches Some(c2) ==> {
            &&& c2.pc == program_of(crate::writer::model::initial_state(), ir).len()
            &&& c2.out == steps(ir, m, n, piku_ir_arith()).unwrap().out
            &&& c2.stack == steps(ir, m, n, piku_ir_arith()).unwrap().stack
        },
{
    let s0 = crate::writer::model::initial_state();
    let p = program_of(s0, ir);
    lemma_state_facts(ir, 0);
    lemma_state_facts(ir, ir.len());
    assert(p[0] == spill_base_load());
    let c1 = cpu_set(c, 7, 0x4000);
    assert(cpu_steps(p, c, 1) == Some(c1)) by {
        reveal_with_fuel(cpu_steps, 2);
    }
    assert(offset(s0, ir, 0) == 1);
    assert(wstate(ir, 0) == s0);
    assert(agrees(wstate(ir, 0), m, c1));
    let n2 = lemma_sim_run(ir, m, c1, n);
    lemma_cpu_steps_add(p, c, 1, n2);
    assert(offset(s0, ir, ir.len()) == p.len());
    assert(cpu_steps(p, c, 1 + n2) matches Some(c2) ==> {
        &&& c2.pc == p.len()
        &&& c2.out == steps(ir, m, n, piku_ir_arith()).unwrap().out
        &&& c2.stack == steps(ir, m, n, piku_ir_arith()).unwrap().stack
    });
}

proof fn lemma_piku_arith_usual()
    ensures
        usual_arith(piku_ir_arith()),
{
    assert forall|a: u16, b: u16| a + b <= u16::MAX implies #[trigger] piku_ir_arith()(ArithOp::Add, a, b) == a + b by {
        assert((a + b) % 65536 == a + b);
    }
    assert forall|a: u16, b: u16| a >= b implies #[trigger] piku_ir_arith()(ArithOp::Sub, a, b) == a - b by {
        assert((a - b + 65536) % 65536 == a - b);
    }
}

/// Law: for a program whose IR the writer handles as [`writer_runs_like_ir`] says, PIKU
/// running the emitted assembly, from an empty output, either stops on one of its run-time
/// errors or reaches the end having printed, statement after statement, what each `print`
/// promises: a `char` expression's value as it is and an `int` expression's value in decimal
/// digits, computed with PIKU's arithmetic.
pub proof fn law_assembly_prints(stmts: Seq<Spanned<Statement>>, next: nat, label: nat, c: Cpu)
    requires
        all_ops_ok(stmts, 0),
        writer_runs_like_ir(build_from(stmts, 0, next, label).0),
        c.pc == 0,
    ensures
        exists|n2: nat| #[trigger] cpu_steps(program_of(crate::writer::model::initial_state(), build_from(stmts, 0, next, label).0), c, n2)
            matches Some(c2) ==> {
                &&& c2.pc == program_of(crate::writer::model::initial_state(), build_from(stmts, 0, next, label).0).len()
                &&& c2.out == c.out + program_output(stmts, 0, piku_ir_arith())
            },
{
    let ir = build_from(stmts, 0, next, label).0;
    let m = Machine { pc: 0, regs: Map::empty(), stack: c.stack, equal: c.zero, out: c.out };
    lemma_piku_arith_usual();
    crate::ir::run::law_program_prints(stmts, next, label, m, piku_ir_arith());
    let n = choose|n: nat| #[trigger] steps(ir, m, n, piku_ir_arith()) matches Some(m2) && {
        &&& m2.pc == ir.len()
        &&& m2.out == m.out + program_output(stmts, 0, piku_ir_arith())
        &&& m2.stack == m.stack
    };
    law_writer_preserves_output(ir, m, c, n);
}

/// When the writer needs no spill slot, the text it emits is the rendering of the program.
pub proof fn lemma_assembly_text(ir: Seq<InstrView>)
    requires
        runs_without_spills(ir),
    ensures
        crate::writer::model::run_from(crate::writer::model::initial_state(), ir, 0).unwrap().out
            == render_all(program_of(crate::writer::model::initial_state(), ir)),
{
    let s0 = crate::writer::model::initial_state();
    lemma_text_upto(s0, ir, ir.len());
    lemma_wstate_run(s0, ir, ir.len());
}

// ---------------------------------------------------------------------------
// Spill code

/// The address of spill slot `slot`.
pub open spec fn slot_address(slot: u16) -> int {
    0x4000 + slot
}

spec fn store_code(slot: u16, r: usize) -> Seq<PikuInstr> {
    seq![PikuInstr::AddImm(7, slot), PikuInstr::Store(7, r), PikuInstr::SubImm(7, slot)]
}

spec fn load_code(slot: u16, r: usize) -> Seq<PikuInstr> {
    seq![PikuInstr::AddImm(7, slot), PikuInstr::LoadInd(r, 7), PikuInstr::SubImm(7, slot)]
}

proof fn lemma_render_three(a: PikuInstr, b: PikuInstr, c: PikuInstr)
    ensures
        render_all(seq![a, b, c]) == render(a) + render(b) + render(c),
{
    assert(seq![a, b, c].drop_last() =~= seq![a, b]);
    lemma_render_two(a, b);
}

/// Law: the lines that spill register `r` to slot `slot` are PIKU code that, run with the spill
/// base `0x4000` in `r7`, writes `r`'s value as the word at the slot's address, changes no
/// other byte of memory, and leaves every register, the stack, the flag and the output as
/// they were.
pub proof fn law_spill_store_writes_slot(slot: u16, r: usize)
    requires
        r < 7,
        slot <= 0xBBFF,
    ensures
        exists|code: Seq<PikuInstr>| #[trigger] render_all(code) == spill_store_text(slot, r)
            && forall|c: Cpu| c.pc == 0 && c.reg[7] == 0x4000 ==> ((#[trigger] cpu_steps(code, c, code.len())) matches Some(c2) && {
                &&& c2.pc == code.len()
                &&& forall|x: usize| c2.reg[x] == c.reg[x]
                &&& word(c2.mem, slot_address(slot)) == c.reg[r]
                &&& forall|a: int| a != slot_address(slot) && a != slot_address(slot) + 1 ==> c2.mem[a] == c.mem[a]
                &&& c2.stack == c.stack && c2.zero == c.zero && c2.out == c.out
            }),
{
    let code = store_code(slot, r);
    lemma_render_three(code[0], code[1], code[2]);
    assert(render_all(code) =~= spill_store_text(slot, r));
    assert forall|c: Cpu| c.pc == 0 && c.reg[7] == 0x4000 implies ((#[trigger] cpu_steps(code, c, code.len())) matches Some(c2) && {
        &&& c2.pc == code.len()
        &&& forall|x: usize| c2.reg[x] == c.reg[x]
        &&& word(c2.mem, slot_address(slot)) == c.reg[r]
        &&& forall|a: int| a != slot_address(slot) && a != slot_address(slot) + 1 ==> c2.mem[a] == c.mem[a]
        &&& c2.stack == c.stack && c2.zero == c.zero && c2.out == c.out
    }) by {
        reveal_with_fuel(cpu_steps, 4);
        let a = (0x4000 + slot) as u16;
        let c1 = cpu_set(c, 7, a);
        assert(cpu_step(code, c) == Some(c1));
        let v = c.reg[r];
        let c2 = Cpu { pc: 2, mem: write_word(c.mem, slot_address(slot), v), ..c1 };
        assert(c1.reg[r] == v);
        assert(cpu_step(code, c1) == Some(c2));
        let c3 = cpu_set(c2, 7, 0x4000);
        assert(cpu_step(code, c2) == Some(c3));
        assert(word(c3.mem, slot_address(slot)) == v) by {
            assert((v / 256) as u8 as nat * 256 + (v % 256) as u8 as nat == v);
        }
    }
}

/// Law: the lines that reload register `r` from slot `slot` are PIKU code that, run with the
/// spill base `0x4000` in `r7`, puts the word at the slot's address into `r`, and leaves every
/// other register, the memory, the stack, the flag and the output as they were.
pub proof fn law_spill_load_reads_slot(slot: u16, r: usize)
    requires
        r < 7,
        slot <= 0xBBFF,
    ensures
        exists|code: Seq<PikuInstr>| #[trigger] render_all(code) == spill_load_text(slot, r)
            && forall|c: Cpu| c.pc == 0 && c.reg[7] == 0x4000 ==> ((#[trigger] cpu_steps(code, c, code.len())) matches Some(c2) && {
                &&& c2.pc == code.len()
                &&& c2.reg[r] == word(c.mem, slot_address(slot))
                &&& forall|x: usize| x != r ==> c2.reg[x] == c.reg[x]
                &&& c2.mem == c.mem
                &&& c2.stack == c.stack && c2.zero == c.zero && c2.out == c.out
            }),
{
    let code = load_code(slot, r);
    lemma_render_three(code[0], code[1], code[2]);
    assert(render_all(code) =~= spill_load_text(slot, r));
    assert forall|c: Cpu| c.pc == 0 && c.reg[7] == 0x4000 implies ((#[trigger] cpu_steps(code, c, code.len())) matches Some(c2) && {
        &&& c2.pc == code.len()
        &&& c2.reg[r] == word(c.mem, slot_address(slot))
        &&& forall|x: usize| x != r ==> c2.reg[x] == c.reg[x]
        &&& c2.mem == c.mem
        &&& c2.stack == c.stack && c2.zero == c.zero && c2.out == c.out
    }) by {
        reveal_with_fuel(cpu_steps, 4);
        let a = (0x4000 + slot) as u16;
        let c1 = cpu_set(c, 7, a);
        assert(cpu_step(code, c) == Some(c1));
        let c2 = cpu_set(c1, r, word(c.mem, slot_address(slot)));
        assert(cpu_step(code, c1) == Some(c2));
        let c3 = cpu_set(c2, 7, 0x4000);
        assert(cpu_step(code, c2) == Some(c3));
    }
}

/// Law: when the writer evicts a register to take it, the lines it emits store the evicted
/// register to the slot that its state then records for the evicted virtual register; a
/// virtual register keeps the slot it already had.
pub proof fn law_eviction_stores_to_recorded_slot(s: WState)
    requires
        crate::writer::model::inv(s),
        slots_ok(s),
        lowest_free_from(s.free, 0) >= num_regs(),
    ensures
        alloc_spec(s) matches Some((s1, r)) ==> {
            let vv = owner(s.map, r);
            &&& s.map.contains_key(vv) && s.map[vv] == r
            &&& !s1.map.contains_key(vv)
            &&& s1.slots.contains_key(vv)
            &&& s.slots.contains_key(vv) ==> s1.slots[vv] == s.slots[vv]
            &&& s1.out == s.out + spill_store_text(s1.slots[vv], r)
        },
{
    crate::writer::model::lemma_victim(s);
}

/// Law: when the writer takes a register for a virtual register that lives in none but has a
/// spill slot, the last lines it emits reload that virtual register from its recorded slot
/// into the register it took.
pub proof fn law_reload_reads_recorded_slot(s: WState, v: usize)
    requires
        crate::writer::model::inv(s),
        slots_ok(s),
        !s.map.contains_key(v),
        s.slots.contains_key(v),
    ensures
        get_reg_spec(s, v) matches Some((s1, r)) ==> exists|mid: Seq<char>|
            s1.out == mid + spill_load_text(s.slots[v], r) && s1.map.contains_key(v) && s1.map[v] == r,
{
    if let Some((s1, r)) = get_reg_spec(s, v) {
        let mid = alloc_spec(s).unwrap().0.out;
        assert(s1.out == mid + spill_load_text(s.slots[v], r));
    }
}

/// Slots already handed out keep their numbers through taking a register.
proof fn lemma_get_reg_keeps_slots(s: WState, w: usize)
    ensures
        get_reg_spec(s, w) matches Some((s1, r)) ==> forall|v: usize| #[trigger] s.slots.contains_key(v)
            ==> s1.slots.contains_key(v) && s1.slots[v] == s.slots[v],
{
}

/// Law: a spilled virtual register keeps its slot: after any instruction, if it still has a
/// slot, it is the one it had.
#[verifier::spinoff_prover]
pub proof fn law_spilled_register_keeps_slot(s: WState, i: InstrView, v: usize)
    requires
        s.slots.contains_key(v),
    ensures
        step_spec(s, i) matches Some(s1) ==> s1.slots.contains_key(v) ==> s1.slots[v] == s.slots[v],
{
    reveal(step_spec);
    match i {
        InstrView::LoadImm(w, _) | InstrView::Print(w) | InstrView::Drop(w) | InstrView::Push(w) | InstrView::Pop(w) => {
            lemma_get_reg_keeps_slots(s, w as usize);
        },
        InstrView::Add { left, right, dest } | InstrView::Sub { left, right, dest }
        | InstrView::Mul { left, right, dest } | InstrView::Div { left, right, dest }
        | InstrView::Mod { left, right, dest } => {
            lemma_get_reg_keeps_slots(s, dest as usize);
            if let Some((s1, d)) = get_reg_spec(s, dest as usize) {
                lemma_get_reg_keeps_slots(s1, left as usize);
                if let Some((s2, l)) = get_reg_spec(s1, left as usize) {
                    lemma_get_reg_keeps_slots(s2, right as usize);
                }
            }
        },
        InstrView::Cmp(a, b) | InstrView::Mov(a, b) => {
            lemma_get_reg_keeps_slots(s, a as usize);
            if let Some((s1, d)) = get_reg_spec(s, a as usize) {
                lemma_get_reg_keeps_slots(s1, b as usize);
            }
        },
        _ => {},
    }
}

// ---------------------------------------------------------------------------
// What the operators compute

/// Law: with PIKU's arithmetic, `a + b`, `a - b` and `a * b` are the sum, difference and
/// product modulo 2^16, and `a / b` is the quotient rounded down (0 for a zero divisor, where
/// PIKU stops the run instead).
pub proof fn law_operators_compute(left: Spanned<crate::parser::Expression>, op: crate::lexer::Token, right: Spanned<crate::parser::Expression>)
    requires
        op is Add || op is Sub || op is Mul || op is Div,
    ensures ({
        let a = crate::ir::semantics::eval_expr(left.element, piku_ir_arith()) as int;
        let b = crate::ir::semantics::eval_expr(right.element, piku_ir_arith()) as int;
        let v = crate::ir::semantics::eval_expr(
            crate::parser::Expression::Binary { left: Box::new(left), op, right: Box::new(right) },
            piku_ir_arith(),
        ) as int;
        &&& op is Add ==> v == (a + b) % 65536
        &&& op is Sub ==> v == (a - b) % 65536
        &&& op is Mul ==> v == (a * b) % 65536
        &&& op is Div ==> v == (if b == 0 { 0 } else { a / b })
    }),
{
    let a = crate::ir::semantics::eval_expr(left.element, piku_ir_arith()) as int;
    let b = crate::ir::semantics::eval_expr(right.element, piku_ir_arith()) as int;
    assert((a - b + 65536) % 65536 == (a - b) % 65536);
}

} // verus!
