//! The azurite programming language toolchain, specified and verified:
//! the lexer, the lowering of the syntax tree into register form, the
//! optimizer and dead-store removal, bytecode generation, the archive that
//! holds a compiled program, and the virtual machine with its heap and
//! garbage collector, together with the symbol table, error rendering and
//! the other pieces they share.
pub mod archive;
pub mod ast;
pub mod ast_to_ir;
pub mod bytecode;
pub mod codegen;
pub mod common;
pub mod constants;
pub mod errors;
pub mod heap;
pub mod inline_bytecode;
pub mod instruction;
pub mod ir;
pub mod lexer;
pub mod optimize;
pub mod prune;
pub mod register_alloc;
pub mod runtime;
pub mod similarity;
pub mod source;
pub mod symbol_table;
pub mod text;
pub mod types;
pub mod values;
pub mod vm;
