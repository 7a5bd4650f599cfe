//! Compiled code executes what its source says, in that order.
use vstd::prelude::*;

use crate::ast::{SpecNode, SpecProcAst};
use crate::code_block::Mast;
use crate::felt::{Felt, MODULUS};
use crate::operation::Operation;
use crate::procedure::{ProcId, SpecProc};
use crate::semantics::{Catalogue, Effect, Fault, Progress, Scope};

verus! {

/// The operations of two spans, one after the other, are those of the span of both.
pub(crate) proof fn lemma_span_atoms(first: Seq<Operation>, second: Seq<Operation>)
    ensures
        Mast::Span(first + second).atoms() == Mast::Span(first).atoms() + Mast::Span(
            second,
        ).atoms(),
{
    assert(Mast::Span(first + second).atoms() =~= Mast::Span(first).atoms() + Mast::Span(
        second,
    ).atoms());
}

/// What blocks execute when one more is put behind them.
proof fn lemma_all_atoms_push(blocks: Seq<Mast>, block: Mast)
    ensures
        Mast::all_atoms(blocks.push(block)) == Mast::all_atoms(blocks) + block.atoms(),
{
    assert(blocks.push(block).drop_last() =~= blocks);
}

/// Putting neighbouring spans together changes neither what is executed nor its order.
pub proof fn lemma_merged_keeps_atoms(blocks: Seq<Mast>)
    ensures
        Mast::all_atoms(Mast::merged(blocks)) == Mast::all_atoms(blocks),
    decreases blocks.len(),
{
    if blocks.len() > 0 {
        let before = Mast::merged(blocks.drop_last());
        lemma_merged_keeps_atoms(blocks.drop_last());
        lemma_all_atoms_push(before, blocks.last());
        if before.len() > 0 {
            match (blocks.last(), before.last()) {
                (Mast::Span(ops), Mast::Span(ops_before)) => {
                    let rest = before.drop_last();
                    lemma_span_atoms(ops_before, ops);
                    lemma_all_atoms_push(rest, Mast::Span(ops_before + ops));
                    assert(Mast::all_atoms(rest) + (Mast::Span(ops_before).atoms() + Mast::Span(
                        ops,
                    ).atoms()) =~= Mast::all_atoms(rest) + Mast::Span(ops_before).atoms()
                        + Mast::Span(ops).atoms());
                },
                _ => {},
            }
        }
    }
}

/// After neighbouring spans have been put together, no two neighbours are spans.
pub proof fn lemma_merged_leaves_no_neighbouring_spans(blocks: Seq<Mast>)
    ensures
        forall|i: int|
            0 < i < Mast::merged(blocks).len() ==> !(#[trigger] Mast::merged(blocks)[i] is Span
                && Mast::merged(blocks)[i - 1] is Span),
    decreases blocks.len(),
{
    if blocks.len() > 0 {
        lemma_merged_leaves_no_neighbouring_spans(blocks.drop_last());
        let before = Mast::merged(blocks.drop_last());
        let after = Mast::merged(blocks);
        assert forall|i: int| 0 < i < after.len() implies !(#[trigger] after[i] is Span && after[i
            - 1] is Span) by {
            if i < before.len() {
                assert(!(before[i] is Span && before[i - 1] is Span));
            }
        }
    }
}

/// Joining neighbours changes neither what is executed nor its order.
proof fn lemma_paired_keeps_atoms(blocks: Seq<Mast>)
    ensures
        Mast::all_atoms(Mast::paired(blocks)) == Mast::all_atoms(blocks),
    decreases blocks.len(),
{
    let n = blocks.len() as int;
    let pairs = Mast::paired(blocks);
    if n == 0 {
        assert(pairs =~= Seq::empty());
    } else if n % 2 == 1 {
        let rest = blocks.drop_last();
        lemma_paired_keeps_atoms(rest);
        assert(pairs.drop_last() =~= Mast::paired(rest));
        assert(pairs.last() == blocks.last());
    } else {
        let rest = blocks.drop_last().drop_last();
        lemma_paired_keeps_atoms(rest);
        assert(pairs.drop_last() =~= Mast::paired(rest));
        let first = blocks[n - 2];
        let second = blocks[n - 1];
        assert(pairs.last() == Mast::Join(Box::new(first), Box::new(second)));
        assert(Mast::all_atoms(blocks.drop_last()) == Mast::all_atoms(rest) + first.atoms());
        assert(Mast::all_atoms(rest) + (first.atoms() + second.atoms()) =~= Mast::all_atoms(rest)
            + first.atoms() + second.atoms());
    }
}

/// A tree executes what its blocks execute, in the same order.
pub(crate) proof fn lemma_tree_keeps_atoms(blocks: Seq<Mast>)
    requires
        blocks.len() > 0,
    ensures
        Mast::tree(blocks).atoms() == Mast::all_atoms(blocks),
    decreases blocks.len(),
{
    if blocks.len() == 1 {
        assert(blocks.drop_last() =~= Seq::empty());
        assert(Mast::all_atoms(blocks.drop_last()) =~= Seq::empty());
        assert(Mast::all_atoms(blocks) =~= blocks[0].atoms());
    } else {
        lemma_paired_keeps_atoms(blocks);
        lemma_tree_keeps_atoms(Mast::paired(blocks));
    }
}

/// Putting spans together leaves at least one block if there was one.
proof fn lemma_merged_len(blocks: Seq<Mast>)
    ensures
        Mast::merged(blocks).len() == 0 <==> blocks.len() == 0,
    decreases blocks.len(),
{
    if blocks.len() > 0 {
        lemma_merged_len(blocks.drop_last());
    }
}

/// The block into which blocks are combined executes what they execute, in the same order. No
/// blocks at all are combined into a block which does nothing.
pub proof fn lemma_combined_keeps_atoms(blocks: Seq<Mast>)
    ensures
        blocks.len() > 0 ==> Mast::combined(blocks).atoms() == Mast::all_atoms(blocks),
        blocks.len() == 0 ==> Mast::combined(blocks) == Mast::noop(),
{
    lemma_merged_len(blocks);
    if blocks.len() > 0 {
        lemma_merged_keeps_atoms(blocks);
        lemma_tree_keeps_atoms(Mast::merged(blocks));
    }
}

/// What a progress executes: its blocks, and its operations behind them.
proof fn lemma_progress_atoms(progress: Progress)
    ensures
        progress.atoms() == Mast::all_atoms(progress.blocks) + Mast::Span(progress.ops).atoms(),
{
    if progress.ops.len() == 0 {
        assert(Mast::Span(progress.ops).atoms() =~= Seq::empty());
        assert(progress.atoms() =~= Mast::all_atoms(progress.blocks) + Mast::Span(
            progress.ops,
        ).atoms());
    } else {
        lemma_all_atoms_push(progress.blocks, Mast::Span(progress.ops));
    }
}

/// What a progress executes once a block has been put behind it.
proof fn lemma_followed_by_atoms(progress: Progress, block: Mast, callset: Seq<ProcId>)
    ensures
        progress.followed_by(block, callset).atoms() == progress.atoms() + block.atoms(),
{
    let next = progress.followed_by(block, callset);
    lemma_progress_atoms(next);
    lemma_all_atoms_push(progress.flushed().blocks, block);
    assert(Mast::Span(next.ops).atoms() =~= Seq::empty());
    assert(next.atoms() =~= progress.atoms() + block.atoms());
}

/// What a progress executes once copies of a block have been put behind it.
proof fn lemma_repeated_atoms(progress: Progress, block: Mast, count: nat, callset: Seq<ProcId>)
    ensures
        progress.repeated(block, count, callset).atoms() == progress.atoms() + Mast::all_atoms(
            Seq::new(count, |i: int| block),
        ),
    decreases count,
{
    let copies = Seq::new(count, |i: int| block);
    let next = progress.repeated(block, count, callset);
    lemma_progress_atoms(next);
    assert(Mast::Span(next.ops).atoms() =~= Seq::empty());
    if count == 0 {
        assert(progress.flushed().blocks + copies =~= progress.flushed().blocks);
        assert(next.atoms() =~= progress.atoms() + Mast::all_atoms(copies));
    } else {
        let fewer = (count - 1) as nat;
        let fewer_copies = Seq::new(fewer, |i: int| block);
        let before = progress.repeated(block, fewer, callset);
        lemma_repeated_atoms(progress, block, fewer, callset);
        lemma_progress_atoms(before);
        assert(Mast::Span(before.ops).atoms() =~= Seq::empty());
        assert(next.blocks =~= before.blocks.push(block));
        lemma_all_atoms_push(before.blocks, block);
        assert(copies.drop_last() =~= fewer_copies);
        assert(copies.last() == block);
        assert(before.atoms() =~= Mast::all_atoms(before.blocks));
        assert(next.atoms() =~= progress.atoms() + Mast::all_atoms(copies));
    }
}

/// What a progress executes after an instruction.
proof fn lemma_after_atoms(progress: Progress, effect: Effect, callset: Seq<ProcId>)
    ensures
        progress.after(effect, callset).atoms() == progress.atoms() + (match effect {
            Effect::Op(op) => Mast::Span(seq![op]).atoms(),
            Effect::Block(block) => block.atoms(),
        }),
{
    match effect {
        Effect::Op(op) => {
            let next = progress.after(effect, callset);
            lemma_progress_atoms(progress);
            lemma_progress_atoms(next);
            lemma_span_atoms(progress.ops, seq![op]);
            assert(progress.ops + seq![op] =~= progress.ops.push(op));
            assert(next.atoms() =~= progress.atoms() + Mast::Span(seq![op]).atoms());
        },
        Effect::Block(block) => {
            lemma_followed_by_atoms(progress, block, callset);
        },
    }
}

/// Nodes compile to the same code whatever stands in front of them.
pub proof fn lemma_nodes_are_independent_of_what_precedes(
    lib: Catalogue,
    scope: Scope,
    cache: Map<ProcId, SpecProc>,
    first: Progress,
    second: Progress,
    before: Seq<Mast>,
    nodes: Seq<SpecNode>,
)
    requires
        first.callset == second.callset,
        first.atoms() == before + second.atoms(),
    ensures
        lib.nodes(scope, cache, first, nodes).0 == lib.nodes(scope, cache, second, nodes).0,
        match lib.nodes(scope, cache, second, nodes).1 {
            Ok(end) => {
                &&& lib.nodes(scope, cache, first, nodes).1 matches Ok(first_end)
                &&& first_end.callset == end.callset
                &&& first_end.atoms() == before + end.atoms()
            },
            Err(fault) => lib.nodes(scope, cache, first, nodes).1 == Err::<Progress, _>(fault),
        },
    decreases nodes.len(), 0nat,
{
    if nodes.len() > 0 {
        let rest = nodes.drop_first();
        let none = Seq::<Operation>::empty();
        match nodes[0] {
            SpecNode::Instruction(instruction) => {
                match lib.instruction(scope, cache, first.callset, instruction) {
                    (_, Err(_)) => {},
                    (cache, Ok((effect, callset))) => {
                        lemma_after_atoms(first, effect, callset);
                        lemma_after_atoms(second, effect, callset);
                        let first = first.after(effect, callset);
                        let second = second.after(effect, callset);
                        assert(first.atoms() =~= before + second.atoms());
                        lemma_nodes_are_independent_of_what_precedes(
                            lib,
                            scope,
                            cache,
                            first,
                            second,
                            before,
                            rest,
                        );
                    },
                }
            },
            SpecNode::IfElse(on_true, on_false) => {
                match lib.body(scope, cache, first.callset, none, on_true, none) {
                    (_, Err(_)) => {},
                    (cache, Ok((true_block, callset))) => {
                        if on_false.len() == 0 {
                            let split = Mast::Split(Box::new(true_block), Box::new(Mast::noop()));
                            lemma_block_is_independent(
                                lib,
                                scope,
                                cache,
                                first,
                                second,
                                before,
                                split,
                                callset,
                                rest,
                            );
                        } else {
                            match lib.body(scope, cache, callset, none, on_false, none) {
                                (_, Err(_)) => {},
                                (cache, Ok((false_block, callset))) => {
                                    let split = Mast::Split(
                                        Box::new(true_block),
                                        Box::new(false_block),
                                    );
                                    lemma_block_is_independent(
                                        lib,
                                        scope,
                                        cache,
                                        first,
                                        second,
                                        before,
                                        split,
                                        callset,
                                        rest,
                                    );
                                },
                            }
                        }
                    },
                }
            },
            SpecNode::Repeat(count, body) => {
                match lib.body(scope, cache, first.callset, none, body, none) {
                    (_, Err(_)) => {},
                    (cache, Ok((block, callset))) => {
                        lemma_repeated_atoms(first, block, count as nat, callset);
                        lemma_repeated_atoms(second, block, count as nat, callset);
                        let first = first.repeated(block, count as nat, callset);
                        let second = second.repeated(block, count as nat, callset);
                        assert(first.atoms() =~= before + second.atoms());
                        lemma_nodes_are_independent_of_what_precedes(
                            lib,
                            scope,
                            cache,
                            first,
                            second,
                            before,
                            rest,
                        );
                    },
                }
            },
            SpecNode::While(body) => {
                match lib.body(scope, cache, first.callset, none, body, none) {
                    (_, Err(_)) => {},
                    (cache, Ok((block, callset))) => {
                        lemma_block_is_independent(
                            lib,
                            scope,
                            cache,
                            first,
                            second,
                            before,
                            Mast::Loop(Box::new(block)),
                            callset,
                            rest,
                        );
                    },
                }
            },
        }
    }
}

/// Nodes behind a block compile to the same code whatever stands in front of the block.
proof fn lemma_block_is_independent(
    lib: Catalogue,
    scope: Scope,
    cache: Map<ProcId, SpecProc>,
    first: Progress,
    second: Progress,
    before: Seq<Mast>,
    block: Mast,
    callset: Seq<ProcId>,
    nodes: Seq<SpecNode>,
)
    requires
        first.atoms() == before + second.atoms(),
    ensures
        ({
            let first = first.followed_by(block, callset);
            let second = second.followed_by(block, callset);
            &&& lib.nodes(scope, cache, first, nodes).0 == lib.nodes(scope, cache, second, nodes).0
            &&& match lib.nodes(scope, cache, second, nodes).1 {
                Ok(end) => {
                    &&& lib.nodes(scope, cache, first, nodes).1 matches Ok(first_end)
                    &&& first_end.callset == end.callset
                    &&& first_end.atoms() == before + end.atoms()
                },
                Err(fault) => lib.nodes(scope, cache, first, nodes).1 == Err::<Progress, _>(fault),
            }
        }),
    decreases nodes.len(), 1nat,
{
    lemma_followed_by_atoms(first, block, callset);
    lemma_followed_by_atoms(second, block, callset);
    let first = first.followed_by(block, callset);
    let second = second.followed_by(block, callset);
    assert(first.atoms() =~= before + second.atoms());
    lemma_nodes_are_independent_of_what_precedes(
        lib,
        scope,
        cache,
        first,
        second,
        before,
        nodes,
    );
}

/// True if the block executes the given atoms; in place of nothing at all, it may do nothing.
pub open spec fn executes(block: Mast, atoms: Seq<Mast>) -> bool {
    block.atoms() == atoms || atoms.len() == 0 && block == Mast::noop()
}

/// What a body executes whose nodes are followed by the operations in `epilogue`.
proof fn lemma_closed_with_atoms(progress: Progress, epilogue: Seq<Operation>)
    ensures
        ({
            let end = Progress { ops: progress.ops + epilogue, ..progress };
            executes(
                Mast::combined(end.flushed().blocks),
                progress.atoms() + Mast::Span(epilogue).atoms(),
            )
        }),
{
    let end = Progress { ops: progress.ops + epilogue, ..progress };
    lemma_progress_atoms(progress);
    lemma_progress_atoms(end);
    lemma_span_atoms(progress.ops, epilogue);
    lemma_combined_keeps_atoms(end.flushed().blocks);
    assert(end.atoms() =~= progress.atoms() + Mast::Span(epilogue).atoms());
}

/// The prologue of a procedure with locals moves the free memory pointer up by the number of the
/// locals, and the epilogue moves it down by the same number.
pub proof fn lemma_epilogue_undoes_prologue(proc: SpecProcAst)
    requires
        proc.num_locals > 0,
    ensures
        ({
            let up = Felt::of(proc.num_locals as int);
            let down = Felt::of(-(proc.num_locals as int));
            &&& Mast::Span(proc.prologue()).atoms() == seq![
                Mast::Span(seq![Operation::Push(up)]),
                Mast::Span(seq![Operation::FmpUpdate]),
            ]
            &&& Mast::Span(proc.epilogue()).atoms() == seq![
                Mast::Span(seq![Operation::Push(down)]),
                Mast::Span(seq![Operation::FmpUpdate]),
            ]
            &&& up.value == proc.num_locals
            &&& (up.value + down.value) % (MODULUS as int) == 0
        }),
{
    reveal(SpecProcAst::prologue);
    reveal(SpecProcAst::epilogue);
    let up = Felt::of(proc.num_locals as int);
    let down = Felt::of(-(proc.num_locals as int));
    crate::felt::lemma_neg_is_additive_inverse(proc.num_locals as int);
    assert(Mast::Span(proc.prologue()).atoms() =~= seq![
        Mast::Span(seq![Operation::Push(up)]),
        Mast::Span(seq![Operation::FmpUpdate]),
    ]);
    assert(Mast::Span(proc.epilogue()).atoms() =~= seq![
        Mast::Span(seq![Operation::Push(down)]),
        Mast::Span(seq![Operation::FmpUpdate]),
    ]);
}

/// What the nodes of a body execute one after another, if they can be compiled.
#[verifier::opaque]
pub open spec fn nodes_atoms(
    lib: Catalogue,
    scope: Scope,
    cache: Map<ProcId, SpecProc>,
    callset: Seq<ProcId>,
    nodes: Seq<SpecNode>,
) -> Option<Seq<Mast>> {
    let start = Progress { blocks: Seq::empty(), ops: Seq::empty(), callset };
    match lib.nodes(scope, cache, start, nodes).1 {
        Ok(end) => Some(end.atoms()),
        Err(_) => None,
    }
}

/// A body with no operations before or after it has the same outcome as a body which has nothing
/// put around it.
pub proof fn lemma_empty_wrapper(
    lib: Catalogue,
    scope: Scope,
    cache: Map<ProcId, SpecProc>,
    callset: Seq<ProcId>,
    prologue: Seq<Operation>,
    nodes: Seq<SpecNode>,
    epilogue: Seq<Operation>,
)
    requires
        prologue.len() == 0,
        epilogue.len() == 0,
    ensures
        lib.body(scope, cache, callset, prologue, nodes, epilogue) == lib.body(
            scope,
            cache,
            callset,
            Seq::empty(),
            nodes,
            Seq::empty(),
        ),
{
    assert(prologue =~= Seq::empty());
    assert(epilogue =~= Seq::empty());
}

/// A body with operations before and after it compiles exactly if it does without them, with the
/// same callset and the same errors. It executes the operations before it once, then what its
/// nodes execute, then the operations after it once.
pub proof fn lemma_wrapped_body(
    lib: Catalogue,
    scope: Scope,
    cache: Map<ProcId, SpecProc>,
    callset: Seq<ProcId>,
    prologue: Seq<Operation>,
    nodes: Seq<SpecNode>,
    epilogue: Seq<Operation>,
)
    ensures
        ({
            let none = Seq::<Operation>::empty();
            let plain = lib.body(scope, cache, callset, none, nodes, none);
            let wrapped = lib.body(scope, cache, callset, prologue, nodes, epilogue);
            &&& wrapped.0 == plain.0
            &&& match plain.1 {
                Err(fault) => wrapped.1 == Err::<(Mast, Seq<ProcId>), _>(fault),
                Ok((block, after)) => {
                    &&& nodes_atoms(lib, scope, cache, callset, nodes) matches Some(body)
                    &&& executes(block, body)
                    &&& wrapped.1 matches Ok((wrapped_block, wrapped_after))
                    &&& wrapped_after == after
                    &&& executes(
                        wrapped_block,
                        Mast::Span(prologue).atoms() + body + Mast::Span(epilogue).atoms(),
                    )
                },
            }
        }),
{
    reveal(nodes_atoms);
    let none = Seq::<Operation>::empty();
    let start = Progress { blocks: Seq::empty(), ops: none, callset };
    let wrapped = Progress { blocks: Seq::empty(), ops: prologue, callset };
    let before = Mast::Span(prologue).atoms();
    lemma_progress_atoms(start);
    lemma_progress_atoms(wrapped);
    assert(start.atoms() =~= Seq::empty());
    assert(wrapped.atoms() =~= before + start.atoms());
    lemma_nodes_are_independent_of_what_precedes(
        lib,
        scope,
        cache,
        wrapped,
        start,
        before,
        nodes,
    );
    match lib.nodes(scope, cache, wrapped, nodes).1 {
        Ok(progress) => {
            lemma_closed_with_atoms(progress, epilogue);
        },
        Err(_) => {},
    }
    match lib.nodes(scope, cache, start, nodes).1 {
        Ok(progress) => {
            lemma_closed_with_atoms(progress, none);
            assert(progress.atoms() + Mast::Span(none).atoms() =~= progress.atoms());
        },
        Err(_) => {},
    }
}

/// A procedure executes its prologue, what the nodes of its body execute, and its epilogue.
pub proof fn lemma_procedure_reserves_and_releases(
    lib: Catalogue,
    scope: Scope,
    cache: Map<ProcId, SpecProc>,
    proc: SpecProcAst,
)
    ensures
        lib.procedure(scope, cache, proc).1 matches Ok(compiled) ==> {
            &&& nodes_atoms(lib, scope, cache, Seq::empty(), proc.body) matches Some(body)
            &&& executes(
                compiled.root,
                Mast::Span(proc.prologue()).atoms() + body + Mast::Span(proc.epilogue()).atoms(),
            )
        },
{
    lemma_wrapped_body(
        lib,
        scope,
        cache,
        Seq::empty(),
        proc.prologue(),
        proc.body,
        proc.epilogue(),
    );
}

/// A single block is combined into itself.
proof fn lemma_combined_single(block: Mast)
    ensures
        Mast::combined(seq![block]) == block,
{
    let blocks = seq![block];
    reveal_with_fuel(Mast::merged, 2);
    assert(blocks.drop_last() =~= Seq::empty());
    assert(Mast::merged(blocks) =~= blocks);
}

/// Nodes which come to a single block, behind nothing, are a body of that block.
proof fn lemma_single_block(block: Mast, callset: Seq<ProcId>)
    ensures
        ({
            let none = Seq::<Operation>::empty();
            let start = Progress { blocks: Seq::empty(), ops: none, callset };
            let next = start.followed_by(block, callset);
            let end = Progress { ops: next.ops + none, ..next };
            Mast::combined(end.flushed().blocks) == block
        }),
{
    let none = Seq::<Operation>::empty();
    let start = Progress { blocks: Seq::empty(), ops: none, callset };
    let next = start.followed_by(block, callset);
    let end = Progress { ops: next.ops + none, ..next };
    assert(end.flushed().blocks =~= seq![block]);
    lemma_combined_single(block);
}

/// The outcome of a body whose only node comes to the given block.
proof fn lemma_body_of_block(
    lib: Catalogue,
    scope: Scope,
    cache: Map<ProcId, SpecProc>,
    callset: Seq<ProcId>,
    node: SpecNode,
    after: Map<ProcId, SpecProc>,
    block: Mast,
    end: Seq<ProcId>,
)
    requires
        ({
            let start = Progress { blocks: Seq::empty(), ops: Seq::empty(), callset };
            let rest = seq![node].drop_first();
            lib.nodes(scope, cache, start, seq![node]) == lib.nodes(
                scope,
                after,
                start.followed_by(block, end),
                rest,
            )
        }),
    ensures
        lib.body(scope, cache, callset, Seq::empty(), seq![node], Seq::empty()) == (
            after,
            Ok::<(Mast, Seq<ProcId>), Fault>((block, end)),
        ),
{
    let none = Seq::<Operation>::empty();
    let start = Progress { blocks: Seq::empty(), ops: none, callset };
    let other = Progress { blocks: Seq::empty(), ops: none, callset: end };
    assert(seq![node].drop_first() =~= Seq::<SpecNode>::empty());
    assert(start.followed_by(block, end) == other.followed_by(block, end));
    lemma_single_block(block, end);
}

/// An alternative compiles to a split: the first body is executed if the condition holds, and
/// the second if it does not.
pub proof fn lemma_alternative(
    lib: Catalogue,
    scope: Scope,
    cache: Map<ProcId, SpecProc>,
    callset: Seq<ProcId>,
    on_true: Seq<SpecNode>,
    on_false: Seq<SpecNode>,
)
    requires
        on_false.len() > 0,
    ensures
        ({
            let none = Seq::<Operation>::empty();
            let nodes = seq![SpecNode::IfElse(on_true, on_false)];
            lib.body(scope, cache, callset, none, on_true, none) matches (
                middle,
                Ok((true_block, between)),
            ) ==> lib.body(scope, middle, between, none, on_false, none) matches (
                after,
                Ok((false_block, end)),
            ) ==> lib.body(scope, cache, callset, none, nodes, none) == (
                after,
                Ok::<(Mast, Seq<ProcId>), Fault>(
                    (Mast::Split(Box::new(true_block), Box::new(false_block)), end),
                ),
            )
        }),
{
    let none = Seq::<Operation>::empty();
    let node = SpecNode::IfElse(on_true, on_false);
    match lib.body(scope, cache, callset, none, on_true, none) {
        (_, Err(_)) => {},
        (middle, Ok((true_block, between))) => {
            match lib.body(scope, middle, between, none, on_false, none) {
                (_, Err(_)) => {},
                (after, Ok((false_block, end))) => {
                    let split = Mast::Split(Box::new(true_block), Box::new(false_block));
                    lemma_body_of_block(
                        lib,
                        scope,
                        cache,
                        callset,
                        node,
                        after,
                        split,
                        end,
                    );
                },
            }
        },
    }
}

/// An alternative without a second body does nothing where the condition does not hold.
pub proof fn lemma_missing_alternative(
    lib: Catalogue,
    scope: Scope,
    cache: Map<ProcId, SpecProc>,
    callset: Seq<ProcId>,
    on_true: Seq<SpecNode>,
)
    ensures
        ({
            let none = Seq::<Operation>::empty();
            let nodes = seq![SpecNode::IfElse(on_true, Seq::empty())];
            lib.body(scope, cache, callset, none, on_true, none) matches (
                after,
                Ok((true_block, end)),
            ) ==> lib.body(scope, cache, callset, none, nodes, none) == (
                after,
                Ok::<(Mast, Seq<ProcId>), Fault>(
                    (Mast::Split(Box::new(true_block), Box::new(Mast::noop())), end),
                ),
            )
        }),
{
    let none = Seq::<Operation>::empty();
    let node = SpecNode::IfElse(on_true, Seq::empty());
    match lib.body(scope, cache, callset, none, on_true, none) {
        (_, Err(_)) => {},
        (after, Ok((true_block, end))) => {
            let split = Mast::Split(Box::new(true_block), Box::new(Mast::noop()));
            lemma_body_of_block(lib, scope, cache, callset, node, after, split, end);
        },
    }
}

/// A loop compiles to a loop block around its body.
pub proof fn lemma_loop(
    lib: Catalogue,
    scope: Scope,
    cache: Map<ProcId, SpecProc>,
    callset: Seq<ProcId>,
    nodes: Seq<SpecNode>,
)
    ensures
        ({
            let none = Seq::<Operation>::empty();
            let repeated = seq![SpecNode::While(nodes)];
            lib.body(scope, cache, callset, none, nodes, none) matches (
                after,
                Ok((block, end)),
            ) ==> lib.body(scope, cache, callset, none, repeated, none) == (
                after,
                Ok::<(Mast, Seq<ProcId>), Fault>((Mast::Loop(Box::new(block)), end)),
            )
        }),
{
    let none = Seq::<Operation>::empty();
    let node = SpecNode::While(nodes);
    match lib.body(scope, cache, callset, none, nodes, none) {
        (_, Err(_)) => {},
        (after, Ok((block, end))) => {
            let looped = Mast::Loop(Box::new(block));
            lemma_body_of_block(lib, scope, cache, callset, node, after, looped, end);
        },
    }
}

/// A repetition compiles to as many copies of its body as it asks for, combined into one block.
pub proof fn lemma_repetition(
    lib: Catalogue,
    scope: Scope,
    cache: Map<ProcId, SpecProc>,
    callset: Seq<ProcId>,
    count: u32,
    nodes: Seq<SpecNode>,
)
    ensures
        ({
            let none = Seq::<Operation>::empty();
            let repeated = seq![SpecNode::Repeat(count, nodes)];
            lib.body(scope, cache, callset, none, nodes, none) matches (
                after,
                Ok((block, end)),
            ) ==> lib.body(scope, cache, callset, none, repeated, none) == (
                after,
                Ok::<(Mast, Seq<ProcId>), Fault>(
                    (Mast::combined(Seq::new(count as nat, |i: int| block)), end),
                ),
            )
        }),
{
    let none = Seq::<Operation>::empty();
    let repeated = seq![SpecNode::Repeat(count, nodes)];
    let start = Progress { blocks: Seq::empty(), ops: none, callset };
    match lib.body(scope, cache, callset, none, nodes, none) {
        (_, Err(_)) => {},
        (after, Ok((block, callset_after))) => {
            let copies = Seq::new(count as nat, |i: int| block);
            let next = start.repeated(block, count as nat, callset_after);
            let end = Progress { ops: next.ops + none, ..next };
            assert(repeated.drop_first() =~= Seq::<SpecNode>::empty());
            assert(lib.nodes(scope, after, next, repeated.drop_first()) == (
                after,
                Ok::<Progress, Fault>(next),
            ));
            assert(lib.nodes(scope, cache, start, repeated) == (after, Ok::<Progress, Fault>(next)));
            assert(end.flushed().blocks =~= copies);
        },
    }
}

} // verus!
