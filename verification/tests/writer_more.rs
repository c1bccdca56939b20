use neg_c::ir::builder::IRBuilder;
use neg_c::ir::Instr;
use neg_c::writer::Writer;

fn write(instrs: Vec<Instr>) -> String {
    Writer::new(instrs).process()
}

#[test]
fn writes_labels_and_jumps() {
    let out = write(vec![
        Instr::Label("top".to_string()),
        Instr::Jmp("top".to_string()),
        Instr::Jeq("end".to_string()),
        Instr::Jne("top".to_string()),
        Instr::Label("end".to_string()),
    ]);
    assert_eq!(out, "LD r7, 16384\n\ntop:\nJMP top\nJEQ end\nJNE top\n\nend:\n");
}

#[test]
fn writes_compare_push_pop_and_mov() {
    let out = write(vec![
        Instr::LoadImm(0, 1),
        Instr::LoadImm(1, 2),
        Instr::Cmp(0, 1),
        Instr::Push(0),
        Instr::Pop(2),
        Instr::Mov(3, 2),
    ]);
    assert_eq!(out, "LD r7, 16384\nLD r0, 1\nLD r1, 2\nCMP r0, r1\nPUSH r0\nPOP r2\nLD r3, r2\n");
}

#[test]
fn writes_modulo() {
    let out = write(vec![
        Instr::LoadImm(0, 7),
        Instr::LoadImm(1, 3),
        Instr::Mod { left: 0, right: 1, dest: 2 },
    ]);
    assert_eq!(out, "LD r7, 16384\nLD r0, 7\nLD r1, 3\nLD r2, r0\nMOD r2, r1\n");
}

#[test]
fn drop_frees_the_register_for_reuse() {
    let out = write(vec![
        Instr::LoadImm(0, 1),
        Instr::LoadImm(1, 2),
        Instr::Drop(0),
        Instr::LoadImm(2, 3),
    ]);
    assert_eq!(out, "LD r7, 16384\nLD r0, 1\nLD r1, 2\nLD r0, 3\n");
}

#[test]
fn print_frees_its_register() {
    let out = write(vec![
        Instr::LoadImm(5, 9),
        Instr::Print(5),
        Instr::LoadImm(6, 8),
    ]);
    assert_eq!(out, "LD r7, 16384\nLD r0, 9\nOUT r0\nLD r0, 8\n");
}

#[test]
fn dropping_an_unknown_register_takes_and_frees_one() {
    assert_eq!(write(vec![Instr::Drop(3), Instr::LoadImm(4, 1)]), "LD r7, 16384\nLD r0, 1\n");
}

#[test]
fn spill_slots_are_numbered_in_order() {
    let mut instrs: Vec<Instr> = (0..8).map(|v| Instr::LoadImm(v, v as u16)).collect();
    // the destination takes the least recently used register first, then the spilled
    // source is brought back into the next one
    instrs.push(Instr::Mov(8, 0));
    let out = write(instrs);
    assert_eq!(
        out,
        "LD r7, 16384\n\
        LD r0, 0\nLD r1, 1\nLD r2, 2\nLD r3, 3\nLD r4, 4\nLD r5, 5\nLD r6, 6\n\
        ADD r7, 0\nST [r7], r0\nSUB r7, 0\n\
        LD r0, 7\n\
        ADD r7, 1\nST [r7], r1\nSUB r7, 1\n\
        ADD r7, 2\nST [r7], r2\nSUB r7, 2\n\
        ADD r7, 0\nLD r2, [r7]\nSUB r7, 0\n\
        LD r1, r2\n"
    );
}

#[test]
fn writer_gives_its_instructions_back() {
    let instrs = vec![Instr::LoadImm(0, 1), Instr::Print(0)];
    let mut w = Writer::new(instrs.clone());
    assert_eq!(w.try_process(), Some("LD r7, 16384\nLD r0, 1\nOUT r0\n".to_string()));
    assert_eq!(w.into_instructions(), instrs);
}

#[test]
fn builder_fits_small_programs_and_gives_its_input_back() {
    let b = IRBuilder::new(vec![]);
    assert!(b.fits());
    assert!(b.into_input().is_empty());
    let mut b = IRBuilder::new(vec![]);
    assert!(b.build().is_empty());
}

#[test]
fn values_live_in_r0_to_r6_and_r7_only_addresses_spills() {
    // a deep expression keeps many values alive at once and forces spilling
    let src = "print 1 + (2 + (3 + (4 + (5 + (6 + (7 + (8 + (9 + 10))))))))";
    let out = match neg_c::compile(src) {
        neg_c::Outcome::Compiled(c) => c.assembly,
        _ => panic!("expected the source to compile"),
    };
    assert!(out.contains("ST [r7], "));
    let lines: Vec<&str> = out.lines().filter(|l| !l.is_empty() && !l.ends_with(':')).collect();
    assert_eq!(lines[0], "LD r7, 16384");
    for (k, l) in lines.iter().enumerate().skip(1) {
        if l.contains("r7") {
            let spill = l.starts_with("ST [r7], ") || (l.starts_with("LD r") && l.ends_with(", [r7]"));
            let step = l.starts_with("ADD r7, ") || l.starts_with("SUB r7, ");
            assert!(spill || step, "r7 used outside spill code: {l}");
            if spill {
                assert!(lines[k - 1].starts_with("ADD r7, ") && lines[k + 1].starts_with("SUB r7, "));
                assert_eq!(&lines[k - 1][3..], &lines[k + 1][3..]);
            }
        }
        for r in 8..16 {
            assert!(!l.contains(&format!("r{r}")), "no register beyond r7: {l}");
        }
    }
}

#[test]
fn processing_again_returns_the_same_text() {
    let mut w = Writer::new(vec![Instr::LoadImm(0, 5), Instr::Print(0)]);
    let first = w.process();
    assert_eq!(first, "LD r7, 16384\nLD r0, 5\nOUT r0\n");
    assert_eq!(w.process(), first);
    assert_eq!(w.try_process(), Some(first));
}

#[test]
fn building_again_gives_no_more_instructions() {
    let toks = neg_c::lexer::tokenize("print 'a'").unwrap();
    let stmts = neg_c::parser::Parser::new(toks).parse().unwrap();
    let mut b = IRBuilder::new(stmts);
    assert_eq!(b.build().len(), 2);
    assert!(b.build().is_empty());
}
