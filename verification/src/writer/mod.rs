//! The writer: turns IR into PIKU assembly, allocating physical registers.
//!
//! See [`model`] for the allocation policy; the writer follows it instruction by
//! instruction and emits one line of assembly per machine instruction.
use std::collections::{BTreeSet, HashMap};

use vstd::prelude::*;
use vstd::std_specs::hash::*;
use vstd::string::*;

use crate::ir::{Instr, InstrView, VReg, instrs_view};
use crate::text::{decimal, push_decimal};

pub mod model;
pub mod piku;

use self::model::{
    alloc_spec, free_reg_spec, get_reg_spec, initial_state, inv, is_mapped, lemma_alloc, lemma_free_reg,
    lemma_get_reg, lemma_initial_inv, lemma_lowest_free, lemma_step_out, lemma_step_slots, lemma_victim, law_writer_run, lemma_without, line, lowest_free_from,
    owner, reg_name, slots_ok, spill_load_text, spill_store_text, step_spec, run_from, unmap_reg, without, WState,
};

verus! {

broadcast use {vstd::std_specs::hash::group_hash_axioms, vstd::std_specs::btree::group_btree_axioms, vstd::laws_cmp::group_laws_cmp};

/// A physical register.
pub type Reg = usize;

const SPILL_BASE_REG: Reg = 7;
const SPILL_MEM_BASE: u16 = 0x4000;

/// Turns IR into assembly.
pub struct Writer {
    instructions: Vec<Instr>,
    pos: usize,
    free_regs: BTreeSet<Reg>,
    vreg_map: HashMap<VReg, Reg>,
    spill_slots: HashMap<VReg, u16>,
    next_slot: u16,
    access_order: Vec<Reg>,
    output: String,
}

impl Writer {
    /// The allocator state and the output so far.
    pub closed spec fn state(&self) -> WState {
        WState {
            free: self.free_regs@,
            map: self.vreg_map@,
            slots: self.spill_slots@,
            next_slot: self.next_slot,
            order: self.access_order@,
            out: self.output@,
        }
    }

    /// The instructions to turn into assembly.
    pub closed spec fn instrs(&self) -> Seq<InstrView> {
        instrs_view(self.instructions@)
    }

    /// The index of the next instruction.
    pub closed spec fn position(&self) -> int {
        self.pos as int
    }

    /// The writer's state is consistent.
    pub open spec fn wf(&self) -> bool {
        inv(self.state()) && slots_ok(self.state())
    }

    /// Finds the virtual register that lives in `reg`.
    fn find_owner(&self, reg: Reg) -> (r: Option<VReg>)
        ensures
            match r {
                Some(v) => self.vreg_map@.contains_key(v) && self.vreg_map@[v] == reg,
                None => !is_mapped(self.vreg_map@, reg),
            },
    {
        for pair in it: self.vreg_map.iter()
            invariant
                forall|j: int| 0 <= j < it.index() ==> *(#[trigger] it.seq()[j]).1 != reg,
        {
            if *pair.1 == reg {
                return Some(*pair.0);
            }
        }
        None
    }

    /// Appends a line of text to the output.
    fn write(&mut self, text: String)
        ensures
            final(self).state() == (WState { out: old(self).state().out + line(text@), ..old(self).state() }),
            final(self).instructions == old(self).instructions,
            final(self).pos == old(self).pos,
    {
        let ghost s0 = self.state();
        self.output.append(text.as_str());
        self.output.append("\n");
        assert(self.output@ =~= s0.out + line(text@));
        assert(self.state() =~= (WState { out: s0.out + line(text@), ..s0 }));
    }

    fn spill_store(&mut self, slot: u16, reg: Reg)
        ensures
            final(self).state() == (WState { out: old(self).state().out + spill_store_text(slot, reg), ..old(self).state() }),
            final(self).instructions == old(self).instructions,
            final(self).pos == old(self).pos,
    {
        let ghost s0 = self.state();
        let mut a = "ADD ".to_owned();
        push_reg(&mut a, SPILL_BASE_REG);
        a.append(", ");
        push_decimal(&mut a, slot as u64);
        self.write(a);
        let mut b = "ST [".to_owned();
        push_reg(&mut b, SPILL_BASE_REG);
        b.append("], ");
        push_reg(&mut b, reg);
        self.write(b);
        let mut c = "SUB ".to_owned();
        push_reg(&mut c, SPILL_BASE_REG);
        c.append(", ");
        push_decimal(&mut c, slot as u64);
        self.write(c);
        assert(self.state().out =~= s0.out + spill_store_text(slot, reg));
    }

    fn spill_load(&mut self, slot: u16, reg: Reg)
        ensures
            final(self).state() == (WState { out: old(self).state().out + spill_load_text(slot, reg), ..old(self).state() }),
            final(self).instructions == old(self).instructions,
            final(self).pos == old(self).pos,
    {
        let ghost s0 = self.state();
        let mut a = "ADD ".to_owned();
        push_reg(&mut a, SPILL_BASE_REG);
        a.append(", ");
        push_decimal(&mut a, slot as u64);
        self.write(a);
        let mut b = "LD ".to_owned();
        push_reg(&mut b, reg);
        b.append(", [");
        push_reg(&mut b, SPILL_BASE_REG);
        b.append("]");
        self.write(b);
        let mut c = "SUB ".to_owned();
        push_reg(&mut c, SPILL_BASE_REG);
        c.append(", ");
        push_decimal(&mut c, slot as u64);
        self.write(c);
        assert(self.state().out =~= s0.out + spill_load_text(slot, reg));
    }

    /// The lowest free register, if any.
    fn lowest_free(&self) -> (r: Option<Reg>)
        ensures
            lowest_free_from(self.free_regs@, 0) < 7 ==> r == Some(lowest_free_from(self.free_regs@, 0)),
            lowest_free_from(self.free_regs@, 0) >= 7 ==> r is None,
    {
        proof { lemma_lowest_free(self.free_regs@, 0); }
        let mut k: Reg = 0;
        while k < 7
            invariant
                k <= 7,
                forall|j: usize| j < k ==> !self.free_regs@.contains(j),
                lowest_free_from(self.free_regs@, k) == lowest_free_from(self.free_regs@, 0),
            decreases 7 - k,
        {
            if self.free_regs.contains(&k) {
                return Some(k);
            }
            k = k + 1;
        }
        None
    }

    /// The recency order without `reg`.
    fn order_without(&self, reg: Reg) -> (r: Vec<Reg>)
        ensures
            r@ == without(self.access_order@, reg),
    {
        let mut out: Vec<Reg> = Vec::new();
        let mut i: usize = 0;
        while i < self.access_order.len()
            invariant
                i <= self.access_order@.len(),
                out@ == without(self.access_order@.take(i as int), reg),
            decreases self.access_order@.len() - i,
        {
            assert(self.access_order@.take(i + 1).drop_last() =~= self.access_order@.take(i as int));
            let x = self.access_order[i];
            if x != reg {
                out.push(x);
            }
            i = i + 1;
        }
        assert(self.access_order@.take(i as int) =~= self.access_order@);
        out
    }

    /// Makes `reg` the most recently used register.
    fn touch(&mut self, reg: Reg)
        ensures
            final(self).state() == (WState { order: without(old(self).access_order@, reg).push(reg), ..old(self).state() }),
            final(self).instructions == old(self).instructions,
            final(self).pos == old(self).pos,
    {
        let mut order = self.order_without(reg);
        order.push(reg);
        self.access_order = order;
    }

    /// Takes a physical register, evicting the least recently used one if none is free.
    fn alloc_physical_reg(&mut self) -> (r: Option<Reg>)
        requires
            inv(old(self).state()),
        ensures
            match alloc_spec(old(self).state()) {
                Some((s1, reg)) => r == Some(reg) && final(self).state() == s1,
                None => r is None,
            },
            final(self).instructions == old(self).instructions,
            final(self).pos == old(self).pos,
    {
        let ghost s0 = self.state();
        reveal(inv);
        if let Some(r) = self.lowest_free() {
            self.free_regs.remove(&r);
            assert(self.state() =~= alloc_spec(s0).unwrap().0);
            return Some(r);
        }
        proof { lemma_victim(s0); }
        let victim_reg = self.access_order[0];
        let victim_vreg = match self.find_owner(victim_reg) {
            Some(v) => v,
            None => { return None; },
        };
        assert(victim_vreg == owner(s0.map, victim_reg));
        let slot = match self.spill_slots.get(&victim_vreg) {
            Some(s) => *s,
            None => {
                if self.next_slot == u16::MAX {
                    return None;
                }
                let s = self.next_slot;
                self.next_slot = self.next_slot + 1;
                self.spill_slots.insert(victim_vreg, s);
                s
            },
        };
        self.spill_store(slot, victim_reg);
        self.vreg_map.remove(&victim_vreg);
        self.access_order.remove(0);
        assert(self.access_order@ =~= s0.order.drop_first());
        Some(victim_reg)
    }

    /// The physical register of `vreg`, bringing it into one if needed.
    fn get_reg(&mut self, vreg: &VReg) -> (r: Option<Reg>)
        requires
            inv(old(self).state()),
        ensures
            match get_reg_spec(old(self).state(), *vreg) {
                Some((s1, reg)) => r == Some(reg) && final(self).state() == s1,
                None => r is None,
            },
            r is Some ==> inv(final(self).state()) && r.unwrap() < 7,
            final(self).instructions == old(self).instructions,
            final(self).pos == old(self).pos,
    {
        let ghost s0 = self.state();
        proof { lemma_get_reg(s0, *vreg); }
        if let Some(reg) = self.vreg_map.get(vreg) {
            let reg = *reg;
            self.touch(reg);
            return Some(reg);
        }
        let slot = match self.spill_slots.get(vreg) {
            Some(s) => Some(*s),
            None => None,
        };
        let reg = match self.alloc_physical_reg() {
            Some(r) => r,
            None => { return None; },
        };
        if let Some(slot) = slot {
            self.spill_load(slot, reg);
        }
        self.vreg_map.insert(*vreg, reg);
        self.touch(reg);
        Some(reg)
    }

    /// Frees `reg`, forgetting its virtual register and that one's spill slot.
    fn free_reg(&mut self, reg: Reg)
        requires
            inv(old(self).state()),
        ensures
            final(self).state() == free_reg_spec(old(self).state(), reg),
            final(self).instructions == old(self).instructions,
            final(self).pos == old(self).pos,
    {
        let ghost s0 = self.state();
        reveal(inv);
        self.free_regs.insert(reg);
        let found = self.find_owner(reg);
        if let Some(vreg) = found {
            assert(vreg == owner(s0.map, reg));
            self.spill_slots.remove(&vreg);
            self.vreg_map.remove(&vreg);
            assert(self.vreg_map@ =~= unmap_reg(s0.map, reg));
        } else {
            assert(self.vreg_map@ =~= unmap_reg(s0.map, reg));
        }
        let order = self.order_without(reg);
        self.access_order = order;
        assert(self.state() =~= free_reg_spec(s0, reg));
    }

    /// Emits `mnemonic dest, right` after copying `left` into `dest`.
    fn write_binop(&mut self, mnemonic: &str, left: &VReg, right: &VReg, dest: &VReg) -> (ok: bool)
        requires
            inv(old(self).state()),
        ensures
            match model::binop_spec(old(self).state(), mnemonic@, *left, *right, *dest) {
                Some(s1) => ok && final(self).state() == s1,
                None => !ok,
            },
            ok ==> inv(final(self).state()),
            final(self).instructions == old(self).instructions,
            final(self).pos == old(self).pos,
    {
        let dest = match self.get_reg(dest) { Some(r) => r, None => { return false; } };
        let left = match self.get_reg(left) { Some(r) => r, None => { return false; } };
        let right = match self.get_reg(right) { Some(r) => r, None => { return false; } };

        let mut a = "LD ".to_owned();
        push_reg(&mut a, dest);
        a.append(", ");
        push_reg(&mut a, left);
        proof { model::lemma_emit(self.state(), a@); }
        self.write(a);
        let mut b = mnemonic.to_owned();
        b.append(" ");
        push_reg(&mut b, dest);
        b.append(", ");
        push_reg(&mut b, right);
        proof { model::lemma_emit(self.state(), b@); }
        self.write(b);
        true
    }

    /// Emits `mnemonic reg` for the register of `vreg`.
    fn write_unary(&mut self, mnemonic: &str, vreg: &VReg) -> (r: Option<Reg>)
        requires
            inv(old(self).state()),
        ensures
            match get_reg_spec(old(self).state(), *vreg) {
                Some((s1, reg)) => r == Some(reg)
                    && final(self).state() == model::emit(s1, mnemonic@ + " "@ + reg_name(reg)),
                None => r is None,
            },
            r is Some ==> inv(final(self).state()) && r.unwrap() < 7,
            final(self).instructions == old(self).instructions,
            final(self).pos == old(self).pos,
    {
        let reg = match self.get_reg(vreg) { Some(r) => r, None => { return None; } };
        let mut a = mnemonic.to_owned();
        a.append(" ");
        push_reg(&mut a, reg);
        proof { model::lemma_emit(self.state(), a@); }
        self.write(a);
        Some(reg)
    }

    /// Emits `mnemonic name`.
    fn write_jump(&mut self, mnemonic: &str, name: &String)
        ensures
            final(self).state() == model::emit(old(self).state(), mnemonic@ + " "@ + name@),
            final(self).instructions == old(self).instructions,
            final(self).pos == old(self).pos,
    {
        let mut a = mnemonic.to_owned();
        a.append(" ");
        a.append(name.as_str());
        self.write(a);
    }

    /// Emits `LD reg, n` for the register of `dest`.
    fn write_load(&mut self, dest: &VReg, n: u16) -> (ok: bool)
        requires
            inv(old(self).state()),
        ensures
            match step_spec(old(self).state(), InstrView::LoadImm(*dest as nat, n)) {
                Some(s1) => ok && final(self).state() == s1,
                None => !ok,
            },
            final(self).instructions == old(self).instructions,
            final(self).pos == old(self).pos,
    {
        reveal(step_spec);
        let dest = match self.get_reg(dest) { Some(r) => r, None => { return false; } };
        let mut a = "LD ".to_owned();
        push_reg(&mut a, dest);
        a.append(", ");
        push_decimal(&mut a, n as u64);
        self.write(a);
        true
    }

    /// Emits `OP left, right` (`CMP`) or `LD left, right` (a move) for two virtual registers.
    fn write_pair(&mut self, mnemonic: &str, left: &VReg, right: &VReg) -> (ok: bool)
        requires
            inv(old(self).state()),
        ensures
            match get_reg_spec(old(self).state(), *left) {
                None => !ok,
                Some((s1, l)) => match get_reg_spec(s1, *right) {
                    None => !ok,
                    Some((s2, r)) => ok && final(self).state()
                        == model::emit(s2, mnemonic@ + " "@ + reg_name(l) + ", "@ + reg_name(r)),
                },
            },
            final(self).instructions == old(self).instructions,
            final(self).pos == old(self).pos,
    {
        let left = match self.get_reg(left) { Some(r) => r, None => { return false; } };
        let right = match self.get_reg(right) { Some(r) => r, None => { return false; } };
        let mut a = mnemonic.to_owned();
        a.append(" ");
        push_reg(&mut a, left);
        a.append(", ");
        push_reg(&mut a, right);
        self.write(a);
        true
    }

    /// Prints the register of `vreg` and frees it.
    fn write_print(&mut self, vreg: &VReg) -> (ok: bool)
        requires
            inv(old(self).state()),
        ensures
            match step_spec(old(self).state(), InstrView::Print(*vreg as nat)) {
                Some(s1) => ok && final(self).state() == s1,
                None => !ok,
            },
            final(self).instructions == old(self).instructions,
            final(self).pos == old(self).pos,
    {
        reveal(step_spec);
        let reg = match self.write_unary("OUT", vreg) { Some(r) => r, None => { return false; } };
        self.free_reg(reg);
        true
    }

    /// Frees the register of `vreg`.
    fn write_drop(&mut self, vreg: &VReg) -> (ok: bool)
        requires
            inv(old(self).state()),
        ensures
            match step_spec(old(self).state(), InstrView::Drop(*vreg as nat)) {
                Some(s1) => ok && final(self).state() == s1,
                None => !ok,
            },
            final(self).instructions == old(self).instructions,
            final(self).pos == old(self).pos,
    {
        reveal(step_spec);
        let reg = match self.get_reg(vreg) { Some(r) => r, None => { return false; } };
        self.free_reg(reg);
        true
    }

    /// Emits a label line.
    fn write_label(&mut self, name: &String)
        ensures
            final(self).state() == model::emit(old(self).state(), "\n"@ + name@ + ":"@),
            final(self).instructions == old(self).instructions,
            final(self).pos == old(self).pos,
    {
        let mut a = "\n".to_owned();
        a.append(name.as_str());
        a.append(":");
        self.write(a);
    }

    /// Emits the assembly of one instruction; `false` when the spill slots run out.
    fn process_instruction(&mut self, instruction: &Instr) -> (ok: bool)
        requires
            inv(old(self).state()),
            slots_ok(old(self).state()),
        ensures
            match step_spec(old(self).state(), instruction@) {
                Some(s1) => ok && final(self).state() == s1,
                None => !ok,
            },
            ok ==> inv(final(self).state()),
            ok ==> slots_ok(final(self).state()),
            ok ==> old(self).state().out.is_prefix_of(final(self).state().out),
            final(self).instructions == old(self).instructions,
            final(self).pos == old(self).pos,
    {
        let ghost s0 = self.state();
        proof { model::lemma_step(s0, instruction@); lemma_step_slots(s0, instruction@); lemma_step_out(s0, instruction@); }
        match instruction {
            Instr::LoadImm(dest, n) => self.write_load(dest, *n),
            Instr::Print(reg) => self.write_print(reg),
            Instr::Drop(reg) => self.write_drop(reg),
            Instr::Add { left, right, dest } => {
                assert(step_spec(s0, instruction@) == model::binop_spec(s0, "ADD"@, *left, *right, *dest)) by { reveal(step_spec); }
                self.write_binop("ADD", left, right, dest)
            },
            Instr::Sub { left, right, dest } => {
                assert(step_spec(s0, instruction@) == model::binop_spec(s0, "SUB"@, *left, *right, *dest)) by { reveal(step_spec); }
                self.write_binop("SUB", left, right, dest)
            },
            Instr::Mul { left, right, dest } => {
                assert(step_spec(s0, instruction@) == model::binop_spec(s0, "MUL"@, *left, *right, *dest)) by { reveal(step_spec); }
                self.write_binop("MUL", left, right, dest)
            },
            Instr::Div { left, right, dest } => {
                assert(step_spec(s0, instruction@) == model::binop_spec(s0, "DIV"@, *left, *right, *dest)) by { reveal(step_spec); }
                self.write_binop("DIV", left, right, dest)
            },
            Instr::Mod { left, right, dest } => {
                assert(step_spec(s0, instruction@) == model::binop_spec(s0, "MOD"@, *left, *right, *dest)) by { reveal(step_spec); }
                self.write_binop("MOD", left, right, dest)
            },
            Instr::Cmp(left, right) => {
                let ok = self.write_pair("CMP", left, right);
                assert(step_spec(s0, instruction@) matches Some(s1) ==> ok && self.state() == s1) by { reveal(step_spec); }
                assert(step_spec(s0, instruction@) is None ==> !ok) by { reveal(step_spec); }
                ok
            },
            Instr::Mov(dest, other) => {
                let ok = self.write_pair("LD", dest, other);
                assert(step_spec(s0, instruction@) matches Some(s1) ==> ok && self.state() == s1) by { reveal(step_spec); }
                assert(step_spec(s0, instruction@) is None ==> !ok) by { reveal(step_spec); }
                ok
            },
            Instr::Push(reg) => {
                let ok = self.write_unary("PUSH", reg).is_some();
                assert(step_spec(s0, instruction@) matches Some(s1) ==> ok && self.state() == s1) by { reveal(step_spec); }
                assert(step_spec(s0, instruction@) is None ==> !ok) by { reveal(step_spec); }
                ok
            },
            Instr::Pop(reg) => {
                let ok = self.write_unary("POP", reg).is_some();
                assert(step_spec(s0, instruction@) matches Some(s1) ==> ok && self.state() == s1) by { reveal(step_spec); }
                assert(step_spec(s0, instruction@) is None ==> !ok) by { reveal(step_spec); }
                ok
            },
            Instr::Label(name) => {
                self.write_label(name);
                assert(step_spec(s0, instruction@) == Some(self.state())) by { reveal(step_spec); }
                true
            },
            Instr::Jmp(name) => {
                self.write_jump("JMP", name);
                assert(step_spec(s0, instruction@) == Some(self.state())) by { reveal(step_spec); }
                true
            },
            Instr::Jeq(name) => {
                self.write_jump("JEQ", name);
                assert(step_spec(s0, instruction@) == Some(self.state())) by { reveal(step_spec); }
                true
            },
            Instr::Jne(name) => {
                self.write_jump("JNE", name);
                assert(step_spec(s0, instruction@) == Some(self.state())) by { reveal(step_spec); }
                true
            },
        }
    }

    /// A writer for `instructions`, with all registers free and the spill base register set.
    pub fn new(instructions: Vec<Instr>) -> (w: Self)
        ensures
            w.wf(),
            w.state() == initial_state(),
            w.instrs() == instrs_view(instructions@),
            w.position() == 0,
    {
        let mut free_regs: BTreeSet<Reg> = BTreeSet::new();
        let mut r: Reg = 0;
        while r < 7
            invariant
                r <= 7,
                free_regs@ == Set::new(|x: usize| x < r),
            decreases 7 - r,
        {
            free_regs.insert(r);
            r = r + 1;
            assert(free_regs@ =~= Set::new(|x: usize| x < r));
        }
        let mut w = Self {
            instructions,
            pos: 0,
            free_regs,
            vreg_map: HashMap::new(),
            spill_slots: HashMap::new(),
            next_slot: 0,
            access_order: Vec::new(),
            output: String::new(),
        };
        let mut a = "LD ".to_owned();
        push_reg(&mut a, SPILL_BASE_REG);
        a.append(", ");
        push_decimal(&mut a, SPILL_MEM_BASE as u64);
        w.write(a);
        assert(w.state() =~= initial_state());
        proof { lemma_initial_inv(); }
        w
    }

    /// Emits the assembly of the remaining instructions and returns all the output; `None` when
    /// the spill slots run out.
    pub fn try_process(&mut self) -> (r: Option<String>)
        requires
            old(self).wf(),
        ensures
            final(self).instrs() == old(self).instrs(),
            match run_from(old(self).state(), old(self).instrs(), old(self).position()) {
                Some(s1) => {
                    &&& r is Some && r.unwrap()@ == s1.out
                    &&& old(self).state().out.is_prefix_of(s1.out)
                    &&& final(self).state() == s1
                    &&& final(self).wf()
                    &&& final(self).position() == (if old(self).position() < old(self).instrs().len() {
                        old(self).instrs().len() as int
                    } else {
                        old(self).position()
                    })
                    &&& run_from(final(self).state(), final(self).instrs(), final(self).position()) == Some(s1)
                },
                None => r is None,
            },
    {
        let mut instructions: Vec<Instr> = Vec::new();
        core::mem::swap(&mut instructions, &mut self.instructions);
        let ghost instrs = instrs_view(instructions@);
        let ghost target = run_from(self.state(), instrs, self.pos as int);
        proof { law_writer_run(self.state(), instrs, self.pos as int); }
        while self.pos < instructions.len()
            invariant
                instrs == instrs_view(instructions@),
                instructions@ == old(self).instructions@,
                target == run_from(old(self).state(), old(self).instrs(), old(self).position()),
                inv(self.state()),
                slots_ok(self.state()),
                target == run_from(self.state(), instrs, self.pos as int),
                old(self).pos < instructions@.len() ==> self.pos <= instructions@.len(),
                old(self).pos >= instructions@.len() ==> self.pos == old(self).pos,
                old(self).pos <= self.pos,
            decreases instructions@.len() - self.pos,
        {
            let ghost i = self.pos as int;
            let ghost s_i = self.state();
            assert(instrs[i] == instructions@[i]@);
            let ok = self.process_instruction(&instructions[self.pos]);
            if !ok {
                assert(run_from(s_i, instrs, i) is None) by {
                    assert(step_spec(s_i, instrs[i]) is None);
                }
                self.instructions = instructions;
                return None;
            }
            self.advance();
        }
        self.instructions = instructions;
        Some(self.output.clone())
    }

    /// Emits the assembly of the remaining instructions and returns all the output.
    pub fn process(&mut self) -> (r: String)
        requires
            old(self).wf(),
            run_from(old(self).state(), old(self).instrs(), old(self).position()) is Some,
        ensures
            r@ == run_from(old(self).state(), old(self).instrs(), old(self).position()).unwrap().out,
            final(self).wf(),
            final(self).instrs() == old(self).instrs(),
            final(self).state() == run_from(old(self).state(), old(self).instrs(), old(self).position()).unwrap(),
            final(self).position() == (if old(self).position() < old(self).instrs().len() {
                old(self).instrs().len() as int
            } else {
                old(self).position()
            }),
            run_from(final(self).state(), final(self).instrs(), final(self).position())
                == Some(final(self).state()),
    {
        match self.try_process() {
            Some(out) => out,
            None => String::new(),
        }
    }

    /// Gives back the instructions.
    pub fn into_instructions(self) -> (v: Vec<Instr>)
        ensures
            instrs_view(v@) == self.instrs(),
    {
        self.instructions
    }

    fn advance(&mut self)
        requires
            old(self).pos < usize::MAX,
        ensures
            final(self).pos == old(self).pos + 1,
            final(self).state() == old(self).state(),
            final(self).instructions == old(self).instructions,
    {
        self.pos = self.pos + 1;
    }
}

/// Appends the name of a physical register.
fn push_reg(out: &mut String, r: Reg)
    ensures
        final(out)@ == old(out)@ + reg_name(r),
{
    out.append("r");
    push_decimal(out, r as u64);
    assert(final(out)@ =~= old(out)@ + reg_name(r));
}

} // verus!
