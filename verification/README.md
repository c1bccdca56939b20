# neg_c

A compiler for -C (Negative C), a small C-like language, to PIKU assembly, written in
Verus: every stage states what it computes in its contract and is proved against it.

```
source text -> lexer -> parser -> IR builder -> writer -> PIKU assembly
```

- `src/lexer.rs`: tokens with byte spans, or one error per lexeme that is not a token.
- `src/parser.rs`, `src/grammar.rs`: a precedence-climbing parser with error recovery, and
  the laws of its grammar (precedence, left associativity, tokens kept).
- `src/ir/`: the IR over unboundedly many virtual registers, its builder, a machine that
  runs it, and the laws that an expression's IR computes its value and that a program's IR
  prints what its `print` statements promise (decimal digits for an `int`, the character
  for a `char`).
- `src/writer/`: register allocation onto `r0`..`r6` with least-recently-used spilling to
  memory addressed by `r7`, modelled in `model.rs` with the laws it keeps; `piku.rs` models
  the emitted program as PIKU instructions run by a model of PIKU's CPU, and proves that when
  the writer needs no spill slot (and the IR reads only registers the writer holds, and jumps
  find registers where their targets expect them) the assembly prints what the IR prints.
- `src/lib.rs`: the whole pipeline, `compile`, which says how far a source text gets.
- `app/main.rs`: the command line (`build`, `run`), file I/O, error reports and running
  the assembly on the PIKU emulator.
