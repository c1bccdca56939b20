//! The intermediate representation: instructions over unboundedly many virtual registers.
use vstd::prelude::*;

pub mod builder;
pub mod semantics;
pub mod machine;
pub mod run;

verus! {

/// A virtual register.
pub type VReg = usize;

/// An IR instruction.
#[derive(Debug, PartialEq, Clone)]
pub enum Instr {
    Drop(VReg),
    LoadImm(VReg, u16),
    Mov(VReg, VReg),
    Add { left: VReg, right: VReg, dest: VReg },
    Sub { left: VReg, right: VReg, dest: VReg },
    Mul { left: VReg, right: VReg, dest: VReg },
    Div { left: VReg, right: VReg, dest: VReg },
    Mod { left: VReg, right: VReg, dest: VReg },
    Cmp(VReg, VReg),
    Label(String),
    Jmp(String),
    Jeq(String),
    Jne(String),
    Push(VReg),
    Pop(VReg),
    Print(VReg),
}

/// An instruction as the specifications see it (labels as character sequences).
pub enum InstrView {
    Drop(nat),
    LoadImm(nat, u16),
    Mov(nat, nat),
    Add { left: nat, right: nat, dest: nat },
    Sub { left: nat, right: nat, dest: nat },
    Mul { left: nat, right: nat, dest: nat },
    Div { left: nat, right: nat, dest: nat },
    Mod { left: nat, right: nat, dest: nat },
    Cmp(nat, nat),
    Label(Seq<char>),
    Jmp(Seq<char>),
    Jeq(Seq<char>),
    Jne(Seq<char>),
    Push(nat),
    Pop(nat),
    Print(nat),
}

impl View for Instr {
    type V = InstrView;

    open spec fn view(&self) -> InstrView {
        match self {
            Instr::Drop(r) => InstrView::Drop(*r as nat),
            Instr::LoadImm(r, n) => InstrView::LoadImm(*r as nat, *n),
            Instr::Mov(a, b) => InstrView::Mov(*a as nat, *b as nat),
            Instr::Add { left, right, dest } => InstrView::Add { left: *left as nat, right: *right as nat, dest: *dest as nat },
            Instr::Sub { left, right, dest } => InstrView::Sub { left: *left as nat, right: *right as nat, dest: *dest as nat },
            Instr::Mul { left, right, dest } => InstrView::Mul { left: *left as nat, right: *right as nat, dest: *dest as nat },
            Instr::Div { left, right, dest } => InstrView::Div { left: *left as nat, right: *right as nat, dest: *dest as nat },
            Instr::Mod { left, right, dest } => InstrView::Mod { left: *left as nat, right: *right as nat, dest: *dest as nat },
            Instr::Cmp(a, b) => InstrView::Cmp(*a as nat, *b as nat),
            Instr::Label(s) => InstrView::Label(s@),
            Instr::Jmp(s) => InstrView::Jmp(s@),
            Instr::Jeq(s) => InstrView::Jeq(s@),
            Instr::Jne(s) => InstrView::Jne(s@),
            Instr::Push(r) => InstrView::Push(*r as nat),
            Instr::Pop(r) => InstrView::Pop(*r as nat),
            Instr::Print(r) => InstrView::Print(*r as nat),
        }
    }
}

/// The views of a sequence of instructions.
pub open spec fn instrs_view(v: Seq<Instr>) -> Seq<InstrView> {
    v.map_values(|i: Instr| i@)
}

} // verus!
