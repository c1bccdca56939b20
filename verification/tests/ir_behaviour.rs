use std::collections::HashMap;

use neg_c::ir::Instr;
use neg_c::{compile, Outcome};

/// Runs IR the way the target machine would, with 16-bit wrapping arithmetic, and returns
/// what it printed and the final stack.
fn execute(ir: &[Instr]) -> (Vec<u16>, Vec<u16>) {
    let mut regs: HashMap<usize, u16> = HashMap::new();
    let mut stack: Vec<u16> = Vec::new();
    let mut out: Vec<u16> = Vec::new();
    let mut equal = false;
    let mut pc = 0;
    let find = |name: &String| ir.iter().position(|i| *i == Instr::Label(name.clone())).unwrap();
    let mut fuel = 1_000_000;
    while pc < ir.len() {
        fuel -= 1;
        assert!(fuel > 0, "the IR does not terminate");
        let mut next = pc + 1;
        match &ir[pc] {
            Instr::Drop(r) => { regs.remove(r); },
            Instr::LoadImm(d, n) => { regs.insert(*d, *n); },
            Instr::Mov(d, s) => { let v = regs[s]; regs.insert(*d, v); },
            Instr::Add { left, right, dest } => { let v = regs[left].wrapping_add(regs[right]); regs.insert(*dest, v); },
            Instr::Sub { left, right, dest } => { let v = regs[left].wrapping_sub(regs[right]); regs.insert(*dest, v); },
            Instr::Mul { left, right, dest } => { let v = regs[left].wrapping_mul(regs[right]); regs.insert(*dest, v); },
            Instr::Div { left, right, dest } => { let v = regs[left] / regs[right]; regs.insert(*dest, v); },
            Instr::Mod { left, right, dest } => { let v = regs[left] % regs[right]; regs.insert(*dest, v); },
            Instr::Cmp(a, b) => { equal = regs[a] == regs[b]; },
            Instr::Label(_) => {},
            Instr::Jmp(l) => { next = find(l); },
            Instr::Jeq(l) => { if equal { next = find(l); } },
            Instr::Jne(l) => { if !equal { next = find(l); } },
            Instr::Push(r) => { stack.push(regs[r]); },
            Instr::Pop(r) => { let v = stack.pop().unwrap(); regs.insert(*r, v); },
            Instr::Print(r) => { out.push(regs[r]); },
        }
        pc = next;
    }
    (out, stack)
}

fn printed(src: &str) -> String {
    let ir = match compile(src) {
        Outcome::Compiled(c) => c.ir,
        _ => panic!("expected the source to compile"),
    };
    let (out, stack) = execute(&ir);
    assert!(stack.is_empty(), "the stack is left as it was found");
    out.into_iter().map(|c| char::from_u32(c as u32).unwrap()).collect()
}

#[test]
fn ir_prints_int_in_decimal() {
    assert_eq!(printed("print 12"), "12");
    assert_eq!(printed("print 7"), "7");
    assert_eq!(printed("print 100"), "100");
}

#[test]
fn ir_prints_zero_as_one_digit() {
    assert_eq!(printed("print 0"), "0");
}

#[test]
fn ir_prints_largest_int() {
    assert_eq!(printed("print 65535"), "65535");
    assert_eq!(printed("print 0xFFFF"), "65535");
}

#[test]
fn ir_prints_char_as_it_is() {
    assert_eq!(printed("print 'e'"), "e");
    assert_eq!(printed("print 'a' + 1"), "b");
}

#[test]
fn ir_types_an_expression_by_its_leftmost_operand() {
    assert_eq!(printed("print 1 + 'a'"), "98");
    assert_eq!(printed("print ('A' + 2) * 1"), "C");
}

#[test]
fn ir_computes_with_precedence() {
    assert_eq!(printed("print 1 + 2 * 3"), "7");
    assert_eq!(printed("print (1 + 2) * 3"), "9");
    assert_eq!(printed("print 10 - 4 - 3"), "3");
    assert_eq!(printed("print 100 / 10 / 5"), "2");
    assert_eq!(printed("print 7 / 2"), "3");
}

#[test]
fn ir_prints_statements_in_order() {
    assert_eq!(printed("print 1 print 'x' 42 print 23"), "1x23");
}

#[test]
fn ir_expression_statement_prints_nothing() {
    assert_eq!(printed("1 + 2 3"), "");
}

#[test]
fn ir_labels_are_numbered_per_print() {
    let ir = match compile("print 1 print 2") {
        Outcome::Compiled(c) => c.ir,
        _ => panic!("expected the source to compile"),
    };
    let labels: Vec<String> = ir.iter().filter_map(|i| match i {
        Instr::Label(l) => Some(l.clone()),
        _ => None,
    }).collect();
    assert_eq!(labels, vec![
        "dec_push_1", "dec_push_done_2", "dec_zero_skip_3", "dec_pop_4", "dec_pop_done_5",
        "dec_push_6", "dec_push_done_7", "dec_zero_skip_8", "dec_pop_9", "dec_pop_done_10",
    ]);
}
