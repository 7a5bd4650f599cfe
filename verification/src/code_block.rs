//! Code blocks: the tree form of compiled code.
use vstd::prelude::*;

use crate::hasher::{hash, Digest};
use crate::operation::Operation;

verus! {

/// Mathematical model of a code block.
pub enum Mast {
    /// Operations executed one after another.
    Span(Seq<Operation>),
    /// Two blocks executed one after the other.
    Join(Box<Mast>, Box<Mast>),
    /// One of two blocks executed, depending on the top of the stack.
    Split(Box<Mast>, Box<Mast>),
    /// A block executed as long as the top of the stack asks for it.
    Loop(Box<Mast>),
    /// Invocation of the procedure whose code has the given digest.
    Call(Digest),
    /// Invocation of the kernel procedure whose code has the given digest.
    SysCall(Digest),
}

/// The field elements which stand for an operation.
pub open spec fn operation_elements(op: Operation) -> Seq<u64> {
    match op {
        Operation::Noop => seq![0u64],
        Operation::Add => seq![1u64],
        Operation::FmpUpdate => seq![2u64],
        Operation::Push(felt) => seq![3u64, felt.value],
    }
}

/// The field elements which stand for a sequence of operations.
pub open spec fn operations_elements(ops: Seq<Operation>) -> Seq<u64>
    decreases ops.len(),
{
    if ops.len() == 0 {
        Seq::empty()
    } else {
        operations_elements(ops.drop_last()) + operation_elements(ops.last())
    }
}

impl Mast {
    /// The block which does nothing.
    pub open spec fn noop() -> Mast {
        Mast::Span(seq![Operation::Noop])
    }

    /// The field elements from which the digest of a block is computed.
    pub open spec fn preimage(self) -> Seq<u64>
        decreases self, 0nat,
    {
        match self {
            Mast::Span(ops) => seq![0u64] + operations_elements(ops),
            Mast::Join(first, second) => seq![1u64] + first.digest().elements()
                + second.digest().elements(),
            Mast::Split(on_true, on_false) => seq![2u64] + on_true.digest().elements()
                + on_false.digest().elements(),
            Mast::Loop(body) => seq![3u64] + body.digest().elements(),
            Mast::Call(target) => seq![4u64] + target.elements(),
            Mast::SysCall(target) => seq![5u64] + target.elements(),
        }
    }

    /// The digest of a block.
    pub open spec fn digest(self) -> Digest
        decreases self, 1nat,
    {
        Digest::of(self.preimage())
    }

    /// True if every procedure which the block invokes has its digest in `table`, and every one
    /// which it invokes in the kernel has its digest in `kernel` too.
    pub open spec fn resolves(self, table: Set<Digest>, kernel: Seq<Digest>) -> bool
        decreases self,
    {
        match self {
            Mast::Span(_) => true,
            Mast::Join(first, second) => first.resolves(table, kernel) && second.resolves(
                table,
                kernel,
            ),
            Mast::Split(on_true, on_false) => on_true.resolves(table, kernel)
                && on_false.resolves(table, kernel),
            Mast::Loop(body) => body.resolves(table, kernel),
            Mast::Call(target) => table.contains(target),
            Mast::SysCall(target) => table.contains(target) && kernel.contains(target),
        }
    }

    /// The blocks with neighbouring spans put together.
    pub open spec fn merged(blocks: Seq<Mast>) -> Seq<Mast>
        decreases blocks.len(),
    {
        if blocks.len() == 0 {
            Seq::empty()
        } else {
            let before = Self::merged(blocks.drop_last());
            match (blocks.last(), before.last()) {
                (Mast::Span(ops), Mast::Span(ops_before)) if before.len() > 0 => {
                    before.drop_last().push(Mast::Span(ops_before + ops))
                },
                _ => before.push(blocks.last()),
            }
        }
    }

    /// The blocks with every two neighbours joined; a last one without a neighbour stays alone.
    pub open spec fn paired(blocks: Seq<Mast>) -> Seq<Mast> {
        Seq::new(
            (blocks.len() + 1) as nat / 2,
            |i: int|
                if 2 * i + 1 < blocks.len() {
                    Mast::Join(Box::new(blocks[2 * i]), Box::new(blocks[2 * i + 1]))
                } else {
                    blocks[2 * i]
                },
        )
    }

    /// The blocks joined into a balanced tree.
    pub open spec fn tree(blocks: Seq<Mast>) -> Mast
        decreases blocks.len(),
    {
        if blocks.len() == 0 {
            Self::noop()
        } else if blocks.len() == 1 {
            blocks[0]
        } else {
            Self::tree(Self::paired(blocks))
        }
    }

    /// The block which executes the given blocks one after another.
    pub open spec fn combined(blocks: Seq<Mast>) -> Mast {
        Self::tree(Self::merged(blocks))
    }

    /// True if all field elements which stand in the block are canonical.
    pub open spec fn is_canonical(self) -> bool
        decreases self,
    {
        match self {
            Mast::Span(ops) => forall|i: int|
                0 <= i < ops.len() ==> (#[trigger] ops[i] matches Operation::Push(felt)
                    ==> felt.wf()),
            Mast::Join(first, second) => first.is_canonical() && second.is_canonical(),
            Mast::Split(on_true, on_false) => on_true.is_canonical() && on_false.is_canonical(),
            Mast::Loop(body) => body.is_canonical(),
            Mast::Call(target) => target.is_canonical(),
            Mast::SysCall(target) => target.is_canonical(),
        }
    }

    /// True if `part` is this block or one of the blocks in it.
    pub open spec fn has_part(self, part: Mast) -> bool
        decreases self,
    {
        ||| part == self
        ||| match self {
            Mast::Join(first, second) => first.has_part(part) || second.has_part(part),
            Mast::Split(on_true, on_false) => on_true.has_part(part) || on_false.has_part(part),
            Mast::Loop(body) => body.has_part(part),
            _ => false,
        }
    }

    /// What is executed one after another when this block is executed, with spans taken apart
    /// into their operations.
    pub open spec fn atoms(self) -> Seq<Mast>
        decreases self,
    {
        match self {
            Mast::Span(ops) => Seq::new(ops.len(), |i: int| Mast::Span(seq![ops[i]])),
            Mast::Join(first, second) => first.atoms() + second.atoms(),
            _ => seq![self],
        }
    }

    /// What is executed one after another when the given blocks are executed in order.
    pub open spec fn all_atoms(blocks: Seq<Mast>) -> Seq<Mast>
        decreases blocks.len(),
    {
        if blocks.len() == 0 {
            Seq::empty()
        } else {
            Self::all_atoms(blocks.drop_last()) + blocks.last().atoms()
        }
    }
}

/// A code block.
#[derive(Debug, PartialEq, Eq)]
pub enum CodeBlock {
    /// Operations executed one after another.
    Span(Vec<Operation>),
    /// Two blocks executed one after the other.
    Join(Box<CodeBlock>, Box<CodeBlock>),
    /// The first block if the top of the stack is one, the second block if it is zero.
    Split(Box<CodeBlock>, Box<CodeBlock>),
    /// A block executed as long as the top of the stack is one.
    Loop(Box<CodeBlock>),
    /// Invocation of the procedure whose code has the given digest.
    Call(Digest),
    /// Invocation of the kernel procedure whose code has the given digest.
    SysCall(Digest),
}

impl CodeBlock {
    /// The model of this block.
    pub open spec fn model(self) -> Mast
        decreases self,
    {
        match self {
            CodeBlock::Span(ops) => Mast::Span(ops@),
            CodeBlock::Join(first, second) => Mast::Join(
                Box::new((*first).model()),
                Box::new((*second).model()),
            ),
            CodeBlock::Split(on_true, on_false) => Mast::Split(
                Box::new((*on_true).model()),
                Box::new((*on_false).model()),
            ),
            CodeBlock::Loop(body) => Mast::Loop(Box::new((*body).model())),
            CodeBlock::Call(target) => Mast::Call(target),
            CodeBlock::SysCall(target) => Mast::SysCall(target),
        }
    }
}

impl CodeBlock {
    /// The models of a sequence of blocks.
    pub open spec fn models(blocks: Seq<CodeBlock>) -> Seq<Mast> {
        Seq::new(blocks.len(), |i: int| blocks[i]@)
    }
}

impl View for CodeBlock {
    type V = Mast;

    open spec fn view(&self) -> Mast {
        self.model()
    }
}

/// Appends the field elements of the digest to `elements`.
fn push_digest(elements: &mut Vec<u64>, digest: Digest)
    ensures
        final(elements)@ == old(elements)@ + digest.elements(),
{
    elements.push(digest.e0);
    elements.push(digest.e1);
    elements.push(digest.e2);
    elements.push(digest.e3);
    assert(elements@ =~= old(elements)@ + digest.elements());
}

/// Returns the field elements of a block with the given operations.
fn span_elements(ops: &Vec<Operation>) -> (r: Vec<u64>)
    ensures
        r@ == seq![0u64] + operations_elements(ops@),
{
    let mut elements: Vec<u64> = Vec::new();
    elements.push(0);
    let mut i: usize = 0;
    assert(elements@ =~= seq![0u64] + operations_elements(ops@.take(0)));
    while i < ops.len()
        invariant
            i <= ops.len(),
            elements@ == seq![0u64] + operations_elements(ops@.take(i as int)),
        decreases ops.len() - i,
    {
        match ops[i] {
            Operation::Noop => elements.push(0),
            Operation::Add => elements.push(1),
            Operation::FmpUpdate => elements.push(2),
            Operation::Push(felt) => {
                elements.push(3);
                elements.push(felt.value);
            },
        }
        proof {
            let prefix = ops@.take(i + 1);
            assert(prefix.drop_last() =~= ops@.take(i as int));
            assert(elements@ =~= seq![0u64] + operations_elements(prefix));
        }
        i = i + 1;
    }
    assert(ops@.take(i as int) =~= ops@);
    elements
}

impl CodeBlock {
    /// Returns a block which executes the operations in order.
    pub fn new_span(operations: Vec<Operation>) -> (r: CodeBlock)
        ensures
            r@ == Mast::Span(operations@),
    {
        CodeBlock::Span(operations)
    }

    /// Returns a block which executes the two blocks in order.
    pub fn new_join(blocks: [CodeBlock; 2]) -> (r: CodeBlock)
        ensures
            r@ == Mast::Join(Box::new(blocks@[0]@), Box::new(blocks@[1]@)),
    {
        CodeBlock::Join(Box::new(blocks[0].clone()), Box::new(blocks[1].clone()))
    }

    /// Returns a block which executes one of the two blocks.
    pub fn new_split(on_true: CodeBlock, on_false: CodeBlock) -> (r: CodeBlock)
        ensures
            r@ == Mast::Split(Box::new(on_true@), Box::new(on_false@)),
    {
        CodeBlock::Split(Box::new(on_true), Box::new(on_false))
    }

    /// Returns a block which repeats the given block.
    pub fn new_loop(body: CodeBlock) -> (r: CodeBlock)
        ensures
            r@ == Mast::Loop(Box::new(body@)),
    {
        CodeBlock::Loop(Box::new(body))
    }

    /// Returns a block which invokes the procedure with the given digest.
    pub fn new_call(target: Digest) -> (r: CodeBlock)
        ensures
            r@ == Mast::Call(target),
    {
        CodeBlock::Call(target)
    }

    /// Returns a block which invokes the kernel procedure with the given digest.
    pub fn new_syscall(target: Digest) -> (r: CodeBlock)
        ensures
            r@ == Mast::SysCall(target),
    {
        CodeBlock::SysCall(target)
    }

    /// Returns the digest of this block.
    pub fn hash(&self) -> (r: Digest)
        ensures
            r == self@.digest(),
        decreases self,
    {
        let mut elements: Vec<u64> = Vec::new();
        match self {
            CodeBlock::Span(ops) => {
                elements = span_elements(ops);
            },
            CodeBlock::Join(first, second) => {
                elements.push(1);
                push_digest(&mut elements, first.hash());
                push_digest(&mut elements, second.hash());
            },
            CodeBlock::Split(on_true, on_false) => {
                elements.push(2);
                push_digest(&mut elements, on_true.hash());
                push_digest(&mut elements, on_false.hash());
            },
            CodeBlock::Loop(body) => {
                elements.push(3);
                push_digest(&mut elements, body.hash());
            },
            CodeBlock::Call(target) => {
                elements.push(4);
                push_digest(&mut elements, *target);
            },
            CodeBlock::SysCall(target) => {
                elements.push(5);
                push_digest(&mut elements, *target);
            },
        }
        assert(elements@ =~= self@.preimage());
        hash(&elements)
    }
}

impl Clone for CodeBlock {
    /// Returns a copy of this block.
    fn clone(&self) -> (r: CodeBlock)
        ensures
            r@ == self@,
        decreases self,
    {
        match self {
            CodeBlock::Span(ops) => {
                let copy = ops.clone();
                assert(copy@ =~= ops@);
                CodeBlock::Span(copy)
            },
            CodeBlock::Join(first, second) => {
                let first = CodeBlock::clone(first);
                let second = CodeBlock::clone(second);
                CodeBlock::Join(Box::new(first), Box::new(second))
            },
            CodeBlock::Split(on_true, on_false) => {
                let on_true = CodeBlock::clone(on_true);
                let on_false = CodeBlock::clone(on_false);
                CodeBlock::Split(Box::new(on_true), Box::new(on_false))
            },
            CodeBlock::Loop(body) => {
                let body = CodeBlock::clone(body);
                CodeBlock::Loop(Box::new(body))
            },
            CodeBlock::Call(target) => CodeBlock::Call(*target),
            CodeBlock::SysCall(target) => CodeBlock::SysCall(*target),
        }
    }
}

} // verus!
