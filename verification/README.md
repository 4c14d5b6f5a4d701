# luarus

Luarus is a small, explicitly typed language: every declaration names its
type, literals are quoted and read as the type they are checked against, and
no value is ever converted implicitly. This crate holds its implementation
as a verified library:

- `syntax`: the lexer and the parser, each stated exactly against a
  grammar written as spec functions.
- `compile`: literal reading, the type checker, code generation, and the
  laws that tie them together (`laws`, `typing`, `agree`).
- `bytecode`: values, instructions, chunks, their binary encoding and its
  read-back, half-precision conversion, and the listing.
- `vm`: the machine, one step at a time; floating-point work and output are
  handed to whoever drives it.
- `interp`: the reference interpreter, which walks the checked tree.
- `num`: exact arithmetic on big integers and rationals.
- `heap`: generational handles and a mark-sweep collector.
- `diag`, `rule`: diagnostics, the rules they cite, and their rendering.
- `generator`, `rng`: a seeded program generator and a line shrinker.

The central law is in `compile/agree.rs` and `compile/typing.rs`: every
program the front end accepts, lowered to bytecode and run by the machine,
writes what the interpreter prints, and stops on the same rule at the same
line.

`app/` holds the command-line program: reading files, formatting floats,
doing the floating-point work the machine and the interpreter hand out, and
writing output.
