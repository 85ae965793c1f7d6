//! Core of a minimal S-expression virtual machine toolchain: an arena-based
//! tree model, the canonical binary codec, a non-recursive tree builder, a
//! textual codec for disassembly and assembly, and the argument marshaller
//! that lifts wire-tagged host values into trees.

pub mod arena;
pub mod casts;
pub mod serialize;
pub mod sexp;
pub mod keywords;
pub mod ir;
pub mod ir_writer;
pub mod ir_reader;
pub mod binutils;
pub mod sha256tree;
pub mod types_converter;
pub mod clvm_api;
pub mod gensym;
pub mod cmds;
