# disasm

A verified library for the static analysis of Intcode programs: decoding,
control flow graphs, data flow, conversion to SSA form, type inference,
recovery of structured control flow and functions, and a high-level
representation with its traversals, transformations and printing. Each
function states what it computes in `requires`/`ensures` contracts, and
Verus proves the code against them.

## Layout

- `src/low_ir.rs` — operands and instructions, decoding a program into
  instructions and data runs.
- `src/control_flow_graph.rs` — blocks and the graph of each function.
- `src/data_flow_analysis.rs` — reaching definitions and liveness.
- `src/program_analysis.rs` — all functions of a program, their data flow
  and what their calls tell about them.
- `src/ssa_form.rs` — conversion of a function to SSA form.
- `src/type_inference.rs` — type constraints over SSA operands and their
  unification.
- `src/mid_ir.rs`, `src/mid_flow.rs`, `src/function_parser.rs` — the
  middle representation, structured control flow, and functions read from
  code.
- `src/discovery.rs` — the functions of a program found from its entry by
  calls and function pointers, and their middle representation as text.
- `src/assembler.rs` — the assembly language: its grammar, the resolution
  of labels and pointers, and compilation to Intcode words.
- `src/hlr/` — the high-level representation: its model, visitors,
  transformations and printing.
- `src/symbol_file.rs`, `src/symbol_renaming.rs` — symbol files that name
  functions, variables, globals and types, and suppress phi functions.
- `src/assoc.rs`, `src/order.rs`, `src/scan.rs`, `src/text.rs`,
  `src/code_printer.rs` — small maps, ordering, character scanning and text
  output.
- `tests/` — tests of the library on concrete programs and files.
- `app/` — the command line: `compile <source.asm>` prints the Intcode
  words of an assembly program.
