//! Abstract syntax of programs and modules.
use vstd::prelude::*;

use crate::felt::Felt;
use crate::procedure::{ProcedureId, ProcId};

verus! {

/// Model of an instruction.
pub enum SpecInstruction {
    Add,
    Push(Felt),
    ExecLocal(u16),
    ExecImported(ProcId),
    CallLocal(u16),
    CallImported(ProcId),
    SysCall(Seq<char>),
}

/// Model of a node of a code body.
pub enum SpecNode {
    Instruction(SpecInstruction),
    IfElse(Seq<SpecNode>, Seq<SpecNode>),
    Repeat(u32, Seq<SpecNode>),
    While(Seq<SpecNode>),
}

/// Model of a procedure in source form.
#[verifier::ext_equal]
pub struct SpecProcAst {
    pub name: Seq<char>,
    pub is_export: bool,
    pub num_locals: u32,
    pub body: Seq<SpecNode>,
}

/// Model of a module together with the path under which it is known.
#[verifier::ext_equal]
pub struct SpecModule {
    pub path: Seq<char>,
    pub procs: Seq<SpecProcAst>,
}

/// Model of a program in source form.
#[verifier::ext_equal]
pub struct SpecProgramAst {
    pub procs: Seq<SpecProcAst>,
    pub body: Seq<SpecNode>,
}

/// An instruction.
#[derive(Debug)]
pub enum Instruction {
    /// Adds the two elements at the top of the stack.
    Add,
    /// Pushes an element onto the stack.
    Push(Felt),
    /// Executes a procedure of the same module in place; the number is its position there.
    ExecLocal(u16),
    /// Executes a procedure of another module in place.
    ExecImported(ProcedureId),
    /// Calls a procedure of the same module; the number is its position there.
    CallLocal(u16),
    /// Calls a procedure of another module.
    CallImported(ProcedureId),
    /// Calls the kernel procedure with the given name.
    SysCall(String),
}

/// A node of a code body.
#[derive(Debug)]
pub enum Node {
    /// A single instruction.
    Instruction(Instruction),
    /// Two alternatives; the second is empty where the source has none.
    IfElse(Vec<Node>, Vec<Node>),
    /// A body and the number of its repetitions.
    Repeat(u32, Vec<Node>),
    /// The body of a loop.
    While(Vec<Node>),
}

/// A procedure in source form.
#[derive(Debug)]
pub struct ProcedureAst {
    pub name: String,
    pub is_export: bool,
    pub num_locals: u32,
    pub body: Vec<Node>,
}

/// A module in source form.
#[derive(Debug)]
pub struct ModuleAst {
    pub local_procs: Vec<ProcedureAst>,
}

/// A program in source form.
#[derive(Debug)]
pub struct ProgramAst {
    pub local_procs: Vec<ProcedureAst>,
    pub body: Vec<Node>,
}

impl View for Instruction {
    type V = SpecInstruction;

    open spec fn view(&self) -> SpecInstruction {
        match *self {
            Instruction::Add => SpecInstruction::Add,
            Instruction::Push(felt) => SpecInstruction::Push(felt),
            Instruction::ExecLocal(index) => SpecInstruction::ExecLocal(index),
            Instruction::ExecImported(id) => SpecInstruction::ExecImported(id@),
            Instruction::CallLocal(index) => SpecInstruction::CallLocal(index),
            Instruction::CallImported(id) => SpecInstruction::CallImported(id@),
            Instruction::SysCall(name) => SpecInstruction::SysCall(name@),
        }
    }
}

impl Node {
    /// The model of this node.
    pub open spec fn model(self) -> SpecNode
        decreases self,
    {
        match self {
            Node::Instruction(instruction) => SpecNode::Instruction(instruction@),
            Node::IfElse(on_true, on_false) => SpecNode::IfElse(
                Seq::new(
                    on_true@.len(),
                    |i: int|
                        if 0 <= i < on_true@.len() {
                            on_true@[i].model()
                        } else {
                            arbitrary()
                        },
                ),
                Seq::new(
                    on_false@.len(),
                    |i: int|
                        if 0 <= i < on_false@.len() {
                            on_false@[i].model()
                        } else {
                            arbitrary()
                        },
                ),
            ),
            Node::Repeat(count, body) => SpecNode::Repeat(
                count,
                Seq::new(
                    body@.len(),
                    |i: int|
                        if 0 <= i < body@.len() {
                            body@[i].model()
                        } else {
                            arbitrary()
                        },
                ),
            ),
            Node::While(body) => SpecNode::While(
                Seq::new(
                    body@.len(),
                    |i: int|
                        if 0 <= i < body@.len() {
                            body@[i].model()
                        } else {
                            arbitrary()
                        },
                ),
            ),
        }
    }

    /// The model of a code body.
    pub open spec fn models(nodes: Seq<Node>) -> Seq<SpecNode> {
        Seq::new(nodes.len(), |i: int| nodes[i].model())
    }
}

impl View for Node {
    type V = SpecNode;

    open spec fn view(&self) -> SpecNode {
        self.model()
    }
}

impl View for ProcedureAst {
    type V = SpecProcAst;

    open spec fn view(&self) -> SpecProcAst {
        SpecProcAst {
            name: self.name@,
            is_export: self.is_export,
            num_locals: self.num_locals,
            body: Node::models(self.body@),
        }
    }
}

impl ProcedureAst {
    /// The models of procedures in source form.
    pub open spec fn models(procs: Seq<ProcedureAst>) -> Seq<SpecProcAst> {
        Seq::new(procs.len(), |i: int| procs[i]@)
    }
}

impl View for ModuleAst {
    type V = Seq<SpecProcAst>;

    open spec fn view(&self) -> Seq<SpecProcAst> {
        ProcedureAst::models(self.local_procs@)
    }
}

impl View for ProgramAst {
    type V = SpecProgramAst;

    open spec fn view(&self) -> SpecProgramAst {
        SpecProgramAst {
            procs: ProcedureAst::models(self.local_procs@),
            body: Node::models(self.body@),
        }
    }
}

/// The model of a node with bodies is built from the models of its bodies.
pub broadcast proof fn lemma_node_model(node: Node)
    ensures
        #![trigger node.model()]
        node matches Node::IfElse(on_true, on_false) ==> node.model() == SpecNode::IfElse(
            Node::models(on_true@),
            Node::models(on_false@),
        ),
        node matches Node::Repeat(count, body) ==> node.model() == SpecNode::Repeat(
            count,
            Node::models(body@),
        ),
        node matches Node::While(body) ==> node.model() == SpecNode::While(Node::models(body@)),
{
    match node {
        Node::Instruction(_) => {},
        Node::IfElse(on_true, on_false) => {
            let spec_true = node.model()->IfElse_0;
            let spec_false = node.model()->IfElse_1;
            assert(spec_true =~= Node::models(on_true@));
            assert(spec_false =~= Node::models(on_false@));
        },
        Node::Repeat(count, body) => {
            let spec_body = node.model()->Repeat_1;
            assert(spec_body =~= Node::models(body@));
        },
        Node::While(body) => {
            let spec_body = node.model()->While_0;
            assert(spec_body =~= Node::models(body@));
        },
    }
}

} // verus!
