//! A small Brainfuck toolchain: position-annotated parsers, a growable
//! memory tape, an interpreter, an auto-JIT dispatcher with loop
//! profiling, a lowering pass to abstract machine code, a debuggable
//! interpreter with breakpoints and stepping, and source formatting and
//! inlay-hint helpers. Every execution engine is proved against one shared
//! machine semantics, which makes them interchangeable on any program.

pub mod analyzer;
pub mod simple_parser;
pub mod machine;
pub mod interpreter;
pub mod jit;
pub mod autojit;
pub mod debug_interpreter;
pub mod formatter;
pub mod inlay_hint;
pub mod document;
