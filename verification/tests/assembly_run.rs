use std::collections::HashMap;

use neg_c::{compile, Outcome};

/// Runs the PIKU assembly that the writer emits: eight 16-bit registers, byte memory holding
/// big-endian words, a downward stack of words, and the zero flag set by `CMP`.
fn run_assembly(text: &str) -> String {
    let lines: Vec<&str> = text.lines().map(|l| l.trim()).filter(|l| !l.is_empty()).collect();
    let mut labels: HashMap<&str, usize> = HashMap::new();
    for (i, l) in lines.iter().enumerate() {
        if let Some(name) = l.strip_suffix(':') {
            labels.insert(name, i);
        }
    }
    let mut reg = [0u16; 8];
    let mut mem = vec![0u8; 0x10000];
    let mut sp: usize = 0xFFFF;
    let mut zero = false;
    let mut out = String::new();
    let r = |s: &str| -> usize { s.trim().trim_start_matches('r').parse().unwrap() };
    let mut pc = 0;
    let mut fuel = 1_000_000;
    while pc < lines.len() {
        fuel -= 1;
        assert!(fuel > 0, "the assembly does not terminate");
        let l = lines[pc];
        pc += 1;
        if l.ends_with(':') {
            continue;
        }
        let (op, args) = l.split_once(' ').unwrap();
        let a: Vec<&str> = args.split(", ").collect();
        match op {
            "LD" => {
                let d = r(a[0]);
                reg[d] = if let Some(inner) = a[1].strip_prefix('[') {
                    let addr = reg[r(inner.trim_end_matches(']'))] as usize;
                    u16::from_be_bytes([mem[addr], mem[addr + 1]])
                } else if a[1].starts_with('r') {
                    reg[r(a[1])]
                } else {
                    a[1].parse().unwrap()
                };
            },
            "ST" => {
                let addr = reg[r(a[0].trim_start_matches('[').trim_end_matches(']'))] as usize;
                let b = reg[r(a[1])].to_be_bytes();
                mem[addr] = b[0];
                mem[addr + 1] = b[1];
            },
            "ADD" | "SUB" | "MUL" | "DIV" | "MOD" => {
                let d = r(a[0]);
                let n = if a[1].starts_with('r') { reg[r(a[1])] } else { a[1].parse().unwrap() };
                reg[d] = match op {
                    "ADD" => reg[d].wrapping_add(n),
                    "SUB" => reg[d].wrapping_sub(n),
                    "MUL" => reg[d].wrapping_mul(n),
                    "DIV" => reg[d] / n,
                    _ => reg[d] % n,
                };
            },
            "CMP" => { zero = reg[r(a[0])] == reg[r(a[1])]; },
            "JMP" => { pc = labels[a[0]]; },
            "JEQ" => { if zero { pc = labels[a[0]]; } },
            "JNE" => { if !zero { pc = labels[a[0]]; } },
            "PUSH" => {
                sp -= 2;
                let b = reg[r(a[0])].to_be_bytes();
                mem[sp] = b[0];
                mem[sp + 1] = b[1];
            },
            "POP" => {
                assert!(sp <= 0xFFFF - 2, "pop from an empty stack");
                reg[r(a[0])] = u16::from_be_bytes([mem[sp], mem[sp + 1]]);
                sp += 2;
            },
            "OUT" => { out.push(char::from_u32(reg[r(a[0])] as u32).unwrap()); },
            _ => panic!("unknown instruction {l}"),
        }
    }
    out
}

fn output_of(src: &str) -> String {
    match compile(src) {
        Outcome::Compiled(c) => run_assembly(&c.assembly),
        _ => panic!("expected the source to compile"),
    }
}

#[test]
fn assembly_prints_int_in_decimal() {
    assert_eq!(output_of("print 12"), "12");
    assert_eq!(output_of("print 0"), "0");
    assert_eq!(output_of("print 65535"), "65535");
}

#[test]
fn assembly_prints_char() {
    assert_eq!(output_of("print 'e'"), "e");
}

#[test]
fn assembly_prints_computed_values() {
    assert_eq!(output_of("print 1 + 2 * 3"), "7");
    assert_eq!(output_of("print (20 - 2) / 3"), "6");
}

#[test]
fn assembly_prints_statements_in_order() {
    assert_eq!(output_of("print 12 print 345 print '!'"), "12345!");
    assert_eq!(output_of("1 print 12"), "12");
}
