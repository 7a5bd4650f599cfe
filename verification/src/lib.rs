//! An assembler for a stack machine whose code is a tree of hashed blocks.
//!
//! An [Assembler] turns the source of a program into a [Program]: a code block, the kernel for
//! which it was compiled, and the code of the procedures which it calls. Modules come from a
//! [ModuleProvider]; the procedures of a module are compiled once and kept.
//!
//! The contracts speak of models: [code_block::Mast] is what a block is, [semantics::Catalogue]
//! says what compiling means, [parsers::parser::SpecReader] says what a source denotes. What
//! follows for the assembler as a whole is in [laws].
pub mod assembler;
pub mod ast;
pub mod code_block;
pub mod combine;
mod context;
pub mod error;
pub mod felt;
pub mod hasher;
pub mod laws;
pub mod operation;
pub mod parsers;
pub mod procedure;
pub mod program;
pub mod provider;
pub mod semantics;
mod span_builder;
pub mod text;

pub use assembler::Assembler;
pub use ast::{Instruction, ModuleAst, Node, ProcedureAst, ProgramAst};
pub use code_block::CodeBlock;
pub use error::AssemblerError;
pub use felt::Felt;
pub use hasher::Digest;
pub use operation::Operation;
pub use procedure::{CallSet, Procedure, ProcedureCache, ProcedureId};
pub use program::{CodeBlockTable, Kernel, Program};
pub use provider::{ModuleProvider, NamedModuleAst};
