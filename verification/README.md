# rand_verifier

An eBPF program verifier in miniature and the tools around it, verified with
Verus.

- `src/insn.rs`, `slot.rs`, `opcode.rs`, `disasm.rs`: the instruction codec.
- `src/cfg.rs`, `graph.rs`, `flow.rs`, `liveness.rs`: control flow and liveness.
- `src/mini.rs`, `mini/`, `state.rs`, `helper.rs`: the exploration of a program over an
  abstract domain, with pruning and budgets.
- `src/tnum.rs`, `interval.rs`, `smt/`: the abstract operators, their encodings
  for a solver, and their soundness.
- `src/fuzz/`: the generator, the mutator, the oracle, the triage, and the
  reducer of findings.
- `src/klog.rs`, `krun.rs`, `diff.rs`: what the kernel says of a program.

`app/` is the command line: files, system calls and the guest.
