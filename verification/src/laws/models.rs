//! The models of values hold what the values hold.
use vstd::prelude::*;

use crate::ast::{
    Instruction, ModuleAst, Node, ProcedureAst, ProgramAst, SpecInstruction, SpecNode,
};
use crate::code_block::{CodeBlock, Mast};
use crate::error::{AssemblerError, SpecError};
use crate::parsers::token::{SpecTarget, SpecToken, Target, Token};

verus! {

/// True if the nodes of a body have the given models, one by one.
pub open spec fn are_models(nodes: Seq<Node>, models: Seq<SpecNode>) -> bool {
    &&& models.len() == nodes.len()
    &&& forall|i: int| 0 <= i < nodes.len() ==> #[trigger] models[i] == nodes[i]@
}

/// The model of an instruction is the same instruction with the same argument.
pub proof fn lemma_instruction_model(instruction: Instruction)
    ensures
        match instruction {
            Instruction::Add => instruction@ == SpecInstruction::Add,
            Instruction::Push(felt) => instruction@ == SpecInstruction::Push(felt),
            Instruction::ExecLocal(index) => instruction@ == SpecInstruction::ExecLocal(index),
            Instruction::ExecImported(id) => instruction@ == SpecInstruction::ExecImported(id@),
            Instruction::CallLocal(index) => instruction@ == SpecInstruction::CallLocal(index),
            Instruction::CallImported(id) => instruction@ == SpecInstruction::CallImported(id@),
            Instruction::SysCall(name) => instruction@ == SpecInstruction::SysCall(name@),
        },
{
}

/// The model of a node is the same node, with its instruction or its bodies and its number of
/// repetitions.
pub proof fn lemma_node_model(node: Node)
    ensures
        match node {
            Node::Instruction(instruction) => node@ == SpecNode::Instruction(instruction@),
            Node::IfElse(on_true, on_false) => {
                &&& node@ matches SpecNode::IfElse(first, second)
                &&& are_models(on_true@, first)
                &&& are_models(on_false@, second)
            },
            Node::Repeat(count, body) => {
                &&& node@ matches SpecNode::Repeat(number, nodes)
                &&& number == count
                &&& are_models(body@, nodes)
            },
            Node::While(body) => node@ matches SpecNode::While(nodes) && are_models(body@, nodes),
        },
{
    crate::ast::lemma_node_model(node);
}

/// The model of a procedure in source form has its name, its number of locals and its body, and
/// says whether it is exported.
pub proof fn lemma_procedure_model(proc: ProcedureAst)
    ensures
        proc@.name == proc.name@,
        proc@.is_export == proc.is_export,
        proc@.num_locals == proc.num_locals,
        are_models(proc.body@, proc@.body),
{
}

/// The model of a module has its procedures, and that of a program has its procedures and its
/// main body.
pub proof fn lemma_source_models(module: ModuleAst, program: ProgramAst)
    ensures
        module@.len() == module.local_procs@.len(),
        forall|i: int|
            0 <= i < module.local_procs@.len() ==> #[trigger] module@[i] == module.local_procs@[i]@,
        program@.procs.len() == program.local_procs@.len(),
        forall|i: int|
            0 <= i < program.local_procs@.len() ==> #[trigger] program@.procs[i]
                == program.local_procs@[i]@,
        are_models(program.body@, program@.body),
{
}

/// The model of a block is a block of the same kind, with the same operations, the same digest,
/// or the models of the same blocks in the same places.
pub proof fn lemma_block_model(block: CodeBlock)
    ensures
        match block {
            CodeBlock::Span(ops) => block@ == Mast::Span(ops@),
            CodeBlock::Join(first, second) => {
                block@ matches Mast::Join(a, b) && *a == first@ && *b == second@
            },
            CodeBlock::Split(on_true, on_false) => {
                block@ matches Mast::Split(a, b) && *a == on_true@ && *b == on_false@
            },
            CodeBlock::Loop(body) => block@ matches Mast::Loop(a) && *a == body@,
            CodeBlock::Call(target) => block@ == Mast::Call(target),
            CodeBlock::SysCall(target) => block@ == Mast::SysCall(target),
        },
{
}

/// The model of the name of a procedure is the same name, and the model of a word of the assembly
/// language is the same word with the same arguments.
pub proof fn lemma_token_model(target: Target, token: Token)
    ensures
        match target {
            Target::Local(name) => target@ == SpecTarget::Local(name@),
            Target::Imported(module, name) => target@ == SpecTarget::Imported(module@, name@),
        },
        match token {
            Token::Use(path, alias) => token@ == SpecToken::Use(path@, alias@),
            Token::Proc(name, is_export, num_locals) => {
                token@ == SpecToken::Proc(name@, is_export, num_locals)
            },
            Token::Begin => token@ == SpecToken::Begin,
            Token::End => token@ == SpecToken::End,
            Token::Else => token@ == SpecToken::Else,
            Token::IfTrue => token@ == SpecToken::IfTrue,
            Token::WhileTrue => token@ == SpecToken::WhileTrue,
            Token::Repeat(count) => token@ == SpecToken::Repeat(count),
            Token::Add => token@ == SpecToken::Add,
            Token::Push(value) => token@ == SpecToken::Push(value),
            Token::Exec(procedure) => token@ == SpecToken::Exec(procedure@),
            Token::Call(procedure) => token@ == SpecToken::Call(procedure@),
            Token::SysCall(name) => token@ == SpecToken::SysCall(name@),
        },
{
}

/// The model of an error is the same error with the same argument.
pub proof fn lemma_error_model(error: AssemblerError)
    ensures
        match error {
            AssemblerError::InvalidSource => error@ == SpecError::InvalidSource,
            AssemblerError::ProcExportInProgram(name) => {
                error@ == SpecError::ProcExportInProgram(name@)
            },
            AssemblerError::DuplicateProcName(name) => {
                error@ == SpecError::DuplicateProcName(name@)
            },
            AssemblerError::UndefinedLocalProc(index) => {
                error@ == SpecError::UndefinedLocalProc(index)
            },
            AssemblerError::UndefinedImportedProc(id) => {
                error@ == SpecError::UndefinedImportedProc(id@)
            },
            AssemblerError::UndefinedKernelProc(name) => {
                error@ == SpecError::UndefinedKernelProc(name@)
            },
            AssemblerError::CircularModuleDependency(path) => {
                error@ == SpecError::CircularModuleDependency(path@)
            },
            AssemblerError::CallInKernel(id) => error@ == SpecError::CallInKernel(id@),
        },
{
}

} // verus!
