# clprobe

A probe of Cranelift's register allocation, verified with Verus.

Five bytecode functions of a JavaScript engine are turned into Cranelift functions, with
one emitter for each operation. The fast path of an operation is emitted inline. Its slow
path is a call of a runtime function in a cold block. There are two variants: in one the
runtime functions preserve all registers, in the other they follow the System V
convention. The program compiles the functions in both variants, for x86-64, and reports
operations, instructions and bytes.

The library also holds the spill stage of the register allocator: the second attempt to
find registers for spilled bundles, and the allocation of spill slots, where a spill set
may ask for a home that the embedder has fixed.

## What is proved

- The code of every operation and of every body is what `src/template.rs`, `src/body.rs`
  and `src/function.rs` say, for all bodies that are in order, and all of it is well
  formed.
- Every call stands in a cold block, except the dispatch of JavaScript calls; every call
  fits the convention of its callee; the pinned variables are never written after the
  prologue.
- Where control goes in the code of each operation that branches or calls, and what the
  code computes, reads and writes on the way: `src/meaning.rs`, `src/runs.rs`,
  `src/accesses.rs`, `src/scopes.rs`, `src/calls.rs`. On the slow side: which call is made,
  with which arguments, behind which call site, that it is the only one, and what decides
  afterwards: `src/detours.rs`.
- Spill sets that share a slot do not overlap, no word of the frame is shared by two
  slots, and a register is never taken twice at one point: `src/spill_laws.rs`,
  `src/reg_laws.rs`.
- After a whole run of the spill stage, the slots hold the spill sets that need one, each
  once, and every slot is that of one fixed home or of one register class:
  `src/spill_runs.rs`.

## What is not proved

The contracts of Cranelift's own functions, in `src/builder.rs` and `src/module.rs`, and
that of `String::push` in `src/report.rs`.

## Layout

- `src/`: the library
- `tests/`: its tests
- `app/`: the program, which writes its results to `$CLPROBE_OUT`
