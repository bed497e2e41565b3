# vm_perf

Interpreter strategies for one small expression language (`i64` values,
addition, locals, `while`), with their compilers and machines verified in
Verus.

- `src/expr.rs`: the expression language and its meaning (`eval`).
- `src/bytecode_register.rs`: a register machine with one instruction list
  per program; `src/bytecode_register_laws.rs` proves, for every
  well-formed expression (every local bound by a `Let`, no loop whose value
  is used), that a compiled program stops exactly when the evaluation of the
  expression ends, and then with its value, and that every register and
  jump it names lies inside its register file and instruction list.
- `src/register_ir.rs`: the register-allocated instruction form shared by the
  two following back ends, and `lower`; `src/register_ir_laws.rs` proves the
  same of lowering, for the same expressions.
- `src/bytecode_register_become.rs`: a compact byte code, its threaded
  machine (one handler per opcode) and its disassembly;
  `src/bytecode_register_become_laws.rs` proves that encoding keeps the
  meaning of the instructions, that the byte code stops exactly when the
  evaluation ends, that the two register machines agree, that compiled byte
  code splits into whole instructions ending in a `ret` with every jump
  landing on one of them, that the native program's labels name the same
  instructions, and that the disassembly lists the instructions.
- `src/aarch64.rs`, `src/template_jit.rs`: a copy-and-patch compiler that
  links templates of AArch64 machine code, finding and patching their value
  holes (`movz`/`movk` chains) and branch holes (`B` instructions);
  `src/template_jit_laws.rs` proves that located holes never overlap, that
  every branch hole goes to its successor, and that, when the value holes
  are the compiler's `movz`/`movk` chains on one register (which
  `check_chains` tests), every value hole in linked code materialises its
  operand; it also proves the shape of the native labels, and that a
  patched branch is the first one found. What the native code computes when it runs is not proved.
- `src/symbols.rs`: symbol bounds read from an object file with the `object`
  crate.
- `src/text.rs`, `src/le_bytes.rs`: decimal text and little-endian bytes.
- `app/`: the `Vm` trait that drives the machines, and the native side of the
  template JIT (the template functions, reading them from the running
  executable, executable memory).
