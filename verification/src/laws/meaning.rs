//! What each instruction and each other node of a body compiles to.
use vstd::prelude::*;

use crate::ast::{SpecInstruction, SpecNode};
use crate::code_block::Mast;
use crate::error::SpecError;
use crate::felt::Felt;
use crate::laws::rows;
use crate::operation::Operation;
use crate::procedure::{CallSet, ProcId, SpecProc};
use crate::semantics::{Catalogue, Effect, Fault, Invocation, Scope};

verus! {

/// True if a node compiles to exactly one block: a body of this node alone is the block, and
/// among other nodes the block stands where the node stands.
pub open spec fn compiles(
    lib: Catalogue,
    scope: Scope,
    cache: Map<ProcId, SpecProc>,
    callset: Seq<ProcId>,
    node: SpecNode,
    after: Map<ProcId, SpecProc>,
    block: Mast,
    end: Seq<ProcId>,
) -> bool {
    &&& rows::row(lib, scope, cache, callset, seq![node]) == (
        after,
        Ok::<(Seq<Mast>, Seq<ProcId>), Fault>((seq![block], end)),
    )
    &&& rows::plain_body(lib, scope, cache, callset, seq![node]) == (
        after,
        Ok::<(Mast, Seq<ProcId>), Fault>((block, end)),
    )
}

/// True if a node cannot be compiled, and neither can a body which holds it.
pub open spec fn fails(
    lib: Catalogue,
    scope: Scope,
    cache: Map<ProcId, SpecProc>,
    callset: Seq<ProcId>,
    node: SpecNode,
    after: Map<ProcId, SpecProc>,
    fault: Fault,
) -> bool {
    &&& rows::row(lib, scope, cache, callset, seq![node]) == (
        after,
        Err::<(Seq<Mast>, Seq<ProcId>), Fault>(fault),
    )
    &&& rows::plain_body(lib, scope, cache, callset, seq![node]) == (
        after,
        Err::<(Mast, Seq<ProcId>), Fault>(fault),
    )
}

/// For every procedure, whatever its locals and its code: executing it in place adds its code
/// and the procedures which it calls. Calling it adds a call of the digest of its code, and a
/// system call of it adds a system call of the digest of its code; both add the procedures which
/// it calls, and the procedure itself. In a kernel it cannot be called in either way.
pub proof fn lemma_invocation(proc: SpecProc, callset: Seq<ProcId>)
    ensures
        ({
            let called = CallSet::merging(callset, proc.callset);
            let with_itself = CallSet::merging(called, seq![proc.id]);
            let digest = proc.root.digest();
            let refused = Err::<(Effect, Seq<ProcId>), Fault>(
                Fault::Error(SpecError::CallInKernel(proc.id)),
            );
            &&& forall|in_kernel: bool| #[trigger]
                proc.invoked(Invocation::Exec, in_kernel, callset) == Ok::<_, Fault>(
                    (Effect::Block(proc.root), called),
                )
            &&& proc.invoked(Invocation::Call, false, callset) == Ok::<_, Fault>(
                (Effect::Block(Mast::Call(digest)), with_itself),
            )
            &&& proc.invoked(Invocation::SysCall, false, callset) == Ok::<_, Fault>(
                (Effect::Block(Mast::SysCall(digest)), with_itself),
            )
            &&& proc.invoked(Invocation::Call, true, callset) == refused
            &&& proc.invoked(Invocation::SysCall, true, callset) == refused
        }),
{
    let called = CallSet::merging(callset, proc.callset);
    lemma_merging_one(called, proc.id);
}

/// One procedure is united with a callset as it is added to it.
proof fn lemma_merging_one(callset: Seq<ProcId>, id: ProcId)
    ensures
        CallSet::merging(callset, seq![id]) == CallSet::adding(callset, id),
{
    reveal_with_fuel(CallSet::merging, 2);
    assert(seq![id].drop_last() =~= Seq::empty());
}

/// What an instruction adds to a body is what it compiles to.
proof fn lemma_instruction(
    lib: Catalogue,
    scope: Scope,
    cache: Map<ProcId, SpecProc>,
    callset: Seq<ProcId>,
    instruction: SpecInstruction,
)
    ensures
        match lib.instruction(scope, cache, callset, instruction) {
            (after, Err(fault)) => fails(
                lib,
                scope,
                cache,
                callset,
                SpecNode::Instruction(instruction),
                after,
                fault,
            ),
            (after, Ok((effect, end))) => compiles(
                lib,
                scope,
                cache,
                callset,
                SpecNode::Instruction(instruction),
                after,
                match effect {
                    Effect::Op(op) => Mast::Span(seq![op]),
                    Effect::Block(block) => block,
                },
                end,
            ),
        },
{
    let node = SpecNode::Instruction(instruction);
    rows::lemma_row_of_node(lib, scope, cache, callset, node);
    rows::lemma_body_of_one(lib, scope, cache, callset, seq![node]);
}

/// A push of an element compiles to the operation which pushes that element, and nothing else;
/// an addition compiles to the operation which adds, and nothing else.
pub proof fn lemma_operations(
    lib: Catalogue,
    scope: Scope,
    cache: Map<ProcId, SpecProc>,
    callset: Seq<ProcId>,
    felt: Felt,
)
    ensures
        compiles(
            lib,
            scope,
            cache,
            callset,
            SpecNode::Instruction(SpecInstruction::Push(felt)),
            cache,
            Mast::Span(seq![Operation::Push(felt)]),
            callset,
        ),
        compiles(
            lib,
            scope,
            cache,
            callset,
            SpecNode::Instruction(SpecInstruction::Add),
            cache,
            Mast::Span(seq![Operation::Add]),
            callset,
        ),
{
    lemma_instruction(lib, scope, cache, callset, SpecInstruction::Push(felt));
    lemma_instruction(lib, scope, cache, callset, SpecInstruction::Add);
}

/// An instruction which executes a procedure of its own module in place compiles to the code of
/// that procedure, and one which calls it to a call of the digest of its code. There has to be a
/// procedure at the position, and a kernel cannot call it.
pub proof fn lemma_local_procedure(
    lib: Catalogue,
    scope: Scope,
    cache: Map<ProcId, SpecProc>,
    callset: Seq<ProcId>,
    index: u16,
)
    ensures
        ({
            let exec = SpecNode::Instruction(SpecInstruction::ExecLocal(index));
            let call = SpecNode::Instruction(SpecInstruction::CallLocal(index));
            if index < scope.procs.len() {
                let proc = scope.procs[index as int];
                let called = CallSet::merging(callset, proc.callset);
                let with_itself = CallSet::merging(called, seq![proc.id]);
                let block = Mast::Call(proc.root.digest());
                let refused = Fault::Error(SpecError::CallInKernel(proc.id));
                &&& compiles(lib, scope, cache, callset, exec, cache, proc.root, called)
                &&& if scope.in_kernel {
                    fails(lib, scope, cache, callset, call, cache, refused)
                } else {
                    compiles(lib, scope, cache, callset, call, cache, block, with_itself)
                }
            } else {
                let refused = Fault::Error(SpecError::UndefinedLocalProc(index));
                &&& fails(lib, scope, cache, callset, exec, cache, refused)
                &&& fails(lib, scope, cache, callset, call, cache, refused)
            }
        }),
{
    lemma_instruction(lib, scope, cache, callset, SpecInstruction::ExecLocal(index));
    lemma_instruction(lib, scope, cache, callset, SpecInstruction::CallLocal(index));
    if index < scope.procs.len() {
        lemma_invocation(scope.procs[index as int], callset);
    }
}

/// A system call compiles to a system call of the digest of the kernel procedure with that name,
/// whatever its locals and its code; in the cache, kernel procedures are at the path `#sys`.
/// There has to be one with that name, and a kernel cannot make system calls.
pub proof fn lemma_system_call(
    lib: Catalogue,
    scope: Scope,
    cache: Map<ProcId, SpecProc>,
    callset: Seq<ProcId>,
    name: Seq<char>,
)
    ensures
        ({
            let node = SpecNode::Instruction(SpecInstruction::SysCall(name));
            let id = ProcId { module: "#sys"@, name };
            if cache.contains_key(id) {
                let proc = cache[id];
                let called = CallSet::merging(callset, proc.callset);
                let with_itself = CallSet::merging(called, seq![proc.id]);
                let block = Mast::SysCall(proc.root.digest());
                let refused = Fault::Error(SpecError::CallInKernel(proc.id));
                if scope.in_kernel {
                    fails(lib, scope, cache, callset, node, cache, refused)
                } else {
                    compiles(lib, scope, cache, callset, node, cache, block, with_itself)
                }
            } else {
                let refused = Fault::Error(SpecError::UndefinedKernelProc(name));
                fails(lib, scope, cache, callset, node, cache, refused)
            }
        }),
{
    let id = ProcId { module: "#sys"@, name };
    lemma_instruction(lib, scope, cache, callset, SpecInstruction::SysCall(name));
    if cache.contains_key(id) {
        lemma_invocation(cache[id], callset);
    }
}

/// An instruction which executes a procedure of another module in place compiles to the code of
/// that procedure, and one which calls it to a call of the digest of its code. Where the
/// procedure cannot be had, both fail for that reason, and a kernel cannot call it.
pub proof fn lemma_imported_procedure(
    lib: Catalogue,
    scope: Scope,
    cache: Map<ProcId, SpecProc>,
    callset: Seq<ProcId>,
    id: ProcId,
)
    ensures
        ({
            let exec = SpecNode::Instruction(SpecInstruction::ExecImported(id));
            let call = SpecNode::Instruction(SpecInstruction::CallImported(id));
            match lib.imported(scope, cache, id) {
                (after, Ok(proc)) => {
                    let called = CallSet::merging(callset, proc.callset);
                    let with_itself = CallSet::merging(called, seq![proc.id]);
                    let block = Mast::Call(proc.root.digest());
                    let refused = Fault::Error(SpecError::CallInKernel(proc.id));
                    &&& compiles(lib, scope, cache, callset, exec, after, proc.root, called)
                    &&& if scope.in_kernel {
                        fails(lib, scope, cache, callset, call, after, refused)
                    } else {
                        compiles(lib, scope, cache, callset, call, after, block, with_itself)
                    }
                },
                (after, Err(fault)) => {
                    &&& fails(lib, scope, cache, callset, exec, after, fault)
                    &&& fails(lib, scope, cache, callset, call, after, fault)
                },
            }
        }),
{
    lemma_instruction(lib, scope, cache, callset, SpecInstruction::ExecImported(id));
    lemma_instruction(lib, scope, cache, callset, SpecInstruction::CallImported(id));
    match lib.imported(scope, cache, id) {
        (_, Ok(proc)) => {
            lemma_invocation(proc, callset);
        },
        _ => {},
    }
}

/// An alternative compiles to a split of its two bodies, the first for a condition which holds;
/// a second body which is missing does nothing. The second body is compiled after the first, and
/// an error in either is an error in the whole.
pub proof fn lemma_alternatives(
    lib: Catalogue,
    scope: Scope,
    cache: Map<ProcId, SpecProc>,
    callset: Seq<ProcId>,
    on_true: Seq<SpecNode>,
    on_false: Seq<SpecNode>,
)
    ensures
        ({
            let node = SpecNode::IfElse(on_true, on_false);
            match rows::plain_body(lib, scope, cache, callset, on_true) {
                (middle, Err(fault)) => fails(lib, scope, cache, callset, node, middle, fault),
                (middle, Ok((first, between))) => if on_false.len() == 0 {
                    let idle = Mast::Span(seq![Operation::Noop]);
                    let split = Mast::Split(Box::new(first), Box::new(idle));
                    compiles(lib, scope, cache, callset, node, middle, split, between)
                } else {
                    match rows::plain_body(lib, scope, middle, between, on_false) {
                        (after, Err(fault)) => {
                            fails(lib, scope, cache, callset, node, after, fault)
                        },
                        (after, Ok((second, end))) => {
                            let split = Mast::Split(Box::new(first), Box::new(second));
                            compiles(lib, scope, cache, callset, node, after, split, end)
                        },
                    }
                },
            }
        }),
{
    let node = SpecNode::IfElse(on_true, on_false);
    rows::lemma_row_of_node(lib, scope, cache, callset, node);
    rows::lemma_body_of_one(lib, scope, cache, callset, seq![node]);
}

/// A loop compiles to a loop of its body, and an error in the body is an error in the whole.
pub proof fn lemma_loops(
    lib: Catalogue,
    scope: Scope,
    cache: Map<ProcId, SpecProc>,
    callset: Seq<ProcId>,
    body: Seq<SpecNode>,
)
    ensures
        ({
            let node = SpecNode::While(body);
            match rows::plain_body(lib, scope, cache, callset, body) {
                (after, Err(fault)) => fails(lib, scope, cache, callset, node, after, fault),
                (after, Ok((block, end))) => {
                    let looped = Mast::Loop(Box::new(block));
                    compiles(lib, scope, cache, callset, node, after, looped, end)
                },
            }
        }),
{
    let node = SpecNode::While(body);
    rows::lemma_row_of_node(lib, scope, cache, callset, node);
    rows::lemma_body_of_one(lib, scope, cache, callset, seq![node]);
}

/// A repetition compiles to as many copies of the block of its body as it asks for, with
/// neighbouring spans put together. The body is compiled once, even if no copy is asked for, and
/// an error in it is an error in the whole.
pub proof fn lemma_repetitions(
    lib: Catalogue,
    scope: Scope,
    cache: Map<ProcId, SpecProc>,
    callset: Seq<ProcId>,
    count: u32,
    body: Seq<SpecNode>,
)
    ensures
        ({
            let node = SpecNode::Repeat(count, body);
            match rows::plain_body(lib, scope, cache, callset, body) {
                (after, Err(fault)) => fails(lib, scope, cache, callset, node, after, fault),
                (after, Ok((block, end))) => exists|copies: Seq<Mast>|
                    {
                        &&& copies.len() == count
                        &&& forall|i: int| 0 <= i < count ==> #[trigger] copies[i] == block
                        &&& rows::row(lib, scope, cache, callset, seq![node]) == (
                            after,
                            Ok::<_, Fault>((#[trigger] Mast::merged(copies), end)),
                        )
                    },
            }
        }),
{
    let node = SpecNode::Repeat(count, body);
    rows::lemma_row_of_node(lib, scope, cache, callset, node);
    rows::lemma_body_of_one(lib, scope, cache, callset, seq![node]);
    match rows::plain_body(lib, scope, cache, callset, body) {
        (_, Ok((block, _))) => {
            let copies = Seq::new(count as nat, |i: int| block);
            assert(copies.len() == count);
            assert(Mast::merged(copies) == Mast::merged(copies));
        },
        _ => {},
    }
}

} // verus!
