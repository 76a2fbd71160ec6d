//! A compiler-and-interpreter core for a small dynamically typed scripting
//! language.  Source text is lexed, parsed with operator-precedence (Pratt)
//! parsing, compiled directly to a compact bytecode, and executed by a
//! stack-based virtual machine.
//!
//! The pipeline is: source text -> lexer -> token stream -> compiler (a
//! stateful single pass that emits instructions as it parses) -> bytecode
//! chunk -> virtual machine.  A `Hymn` session owns the global-variable table
//! and the string-intern pool, which persist across runs so that a REPL can
//! keep state between input lines.

pub mod chunk;
pub mod compiler;
pub mod diag;
pub mod disasm;
pub mod lexer;
pub mod value;
pub mod vm;
