//! Code generation for a few bytecode functions with Cranelift, and the spill stage of its
//! register allocator.
//!
//! The first half turns a [`bytecode::Body`] into a Cranelift function. Each operation has
//! a fast path and, where it needs one, a slow path in a cold block that calls a runtime
//! function.
//!
//! - [`bytecode`], [`bodies`]: the operations, and five bodies made of them
//! - [`slow`]: the runtime functions, with their calling conventions
//! - [`clif`]: a model of a function under construction
//! - [`builder`], [`module`]: Cranelift's function builder and object module, with contracts
//!   over that model that are not proved
//! - [`template`]: the code of each operation, over the model
//! - [`emit`], [`handlers`], [`body`], [`function`]: the emitters
//! - [`meaning`]: what the emitted tests and computations decide and compute
//! - [`growth`], [`runs`], [`accesses`], [`scopes`], [`calls`], [`detours`]: where control goes
//!   in the code of each operation, what it reads and writes on the way, and what it calls
//! - [`operations`], [`writes`], [`entries`]: the same for the operations with the registers that
//!   they name, which registers they leave alone, and what a function begins with
//! - [`semantics`]: what the operations mean
//! - [`hook_inputs`], [`hook_updates`], [`schedules`], [`counting`], [`coding`]: what the five
//!   bodies do when they run
//! - [`compile`], [`report`], [`report_laws`]: from a body to machine code, and figures on it
//!
//! The second half gives places to what was spilled: registers that are free after all, and
//! slots in the stack frame.
//!
//! - [`ranges`], [`regs`], [`spill_data`]: live ranges, registers, bundles and spill sets
//! - [`spill_regs`], [`reg_laws`]: the second attempt at registers
//! - [`spill`], [`spill_laws`], [`spill_runs`], [`spill_choices`], [`spill_trace`]: the
//!   allocation of slots
pub mod accesses;
pub mod bodies;
pub mod body;
pub mod builder;
pub mod bytecode;
pub mod calls;
pub mod clif;
pub mod coding;
pub mod compile;
pub mod counting;
pub mod detours;
pub mod emit;
pub mod entries;
pub mod function;
pub mod growth;
pub mod handlers;
pub mod hook_inputs;
pub mod hook_updates;
pub mod meaning;
pub mod module;
pub mod operations;
pub mod ranges;
pub mod reg_laws;
pub mod regs;
pub mod report;
pub mod report_laws;
pub mod runs;
pub mod schedules;
pub mod scopes;
pub mod semantics;
pub mod slow;
pub mod spill;
pub mod spill_choices;
pub mod spill_data;
pub mod spill_laws;
pub mod spill_regs;
pub mod spill_runs;
pub mod spill_trace;
pub mod template;
pub mod writes;
