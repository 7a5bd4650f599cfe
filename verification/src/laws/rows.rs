//! The code of a body is put together from the code of its nodes.
use vstd::prelude::*;

use crate::ast::SpecNode;
use crate::code_block::Mast;
use crate::laws::shapes;
use crate::operation::Operation;
use crate::procedure::{ProcId, SpecProc};
use crate::semantics::{Catalogue, Effect, Fault, Outcome, Progress, Scope};

verus! {

/// The progress at the start of a body which has nothing put before it.
pub open spec fn nothing(callset: Seq<ProcId>) -> Progress {
    Progress { blocks: Seq::empty(), ops: Seq::empty(), callset }
}

/// The outcome of compiling a body which has nothing put before or behind it.
pub open spec fn plain_body(
    lib: Catalogue,
    scope: Scope,
    cache: Map<ProcId, SpecProc>,
    callset: Seq<ProcId>,
    nodes: Seq<SpecNode>,
) -> Outcome<(Mast, Seq<ProcId>)> {
    lib.body(scope, cache, callset, Seq::empty(), nodes, Seq::empty())
}

/// The blocks to which nodes compile, with neighbouring spans put together, and the callset
/// behind them.
#[verifier::opaque]
pub open spec fn row(
    lib: Catalogue,
    scope: Scope,
    cache: Map<ProcId, SpecProc>,
    callset: Seq<ProcId>,
    nodes: Seq<SpecNode>,
) -> Outcome<(Seq<Mast>, Seq<ProcId>)> {
    match lib.nodes(scope, cache, nothing(callset), nodes) {
        (after, Ok(end)) => (after, Ok((Mast::merged(end.flushed().blocks), end.callset))),
        (after, Err(fault)) => (after, Err(fault)),
    }
}

/// The operations as a row of blocks: one span, or nothing at all.
pub open spec fn span_row(ops: Seq<Operation>) -> Seq<Mast> {
    if ops.len() == 0 {
        Seq::empty()
    } else {
        seq![Mast::Span(ops)]
    }
}

/// True if the first progress has come to the given blocks and to what the second has come to.
spec fn extends(first: Progress, before: Seq<Mast>, second: Progress) -> bool {
    &&& first.callset == second.callset
    &&& Mast::merged(first.flushed().blocks) == Mast::merged(before + second.flushed().blocks)
}

/// True if the second progress has come to the given blocks behind what the first has come to.
spec fn gains(first: Progress, more: Seq<Mast>, second: Progress) -> bool {
    Mast::merged(second.flushed().blocks) == Mast::merged(first.flushed().blocks + more)
}

/// Two progresses of which one extends the other gain the same.
proof fn lemma_extends_more(
    first: Progress,
    before: Seq<Mast>,
    second: Progress,
    more: Seq<Mast>,
    first_next: Progress,
    second_next: Progress,
)
    requires
        extends(first, before, second),
        gains(first, more, first_next),
        gains(second, more, second_next),
        first_next.callset == second_next.callset,
    ensures
        extends(first_next, before, second_next),
{
    let a = first.flushed().blocks;
    let b = second.flushed().blocks;
    shapes::lemma_merged_alike(a, before + b, more, more);
    assert((before + b) + more =~= before + (b + more));
    shapes::lemma_merged_alike(before, before, b + more, second_next.flushed().blocks);
}

/// What an instruction adds is put behind what is there.
proof fn lemma_after_gains(progress: Progress, effect: Effect, callset: Seq<ProcId>)
    ensures
        gains(
            progress,
            match effect {
                Effect::Op(op) => seq![Mast::Span(seq![op])],
                Effect::Block(block) => seq![block],
            },
            progress.after(effect, callset),
        ),
{
    match effect {
        Effect::Op(op) => {
            let next = progress.after(effect, callset);
            let one = seq![op];
            assert(progress.ops.push(op) =~= progress.ops + one);
            assert(next.flushed().blocks =~= progress.blocks + seq![
                Mast::Span(progress.ops + one),
            ]);
            if progress.ops.len() == 0 {
                assert(progress.ops + one =~= one);
            } else {
                shapes::lemma_merged_span(progress.blocks, progress.ops, one);
                assert(progress.flushed().blocks + seq![Mast::Span(one)] =~= progress.blocks
                    + seq![Mast::Span(progress.ops), Mast::Span(one)]);
            }
        },
        Effect::Block(block) => {
            lemma_followed_by_gains(progress, block, callset);
        },
    }
}

/// A block is put behind what is there.
proof fn lemma_followed_by_gains(progress: Progress, block: Mast, callset: Seq<ProcId>)
    ensures
        gains(progress, seq![block], progress.followed_by(block, callset)),
{
    let next = progress.followed_by(block, callset);
    assert(next.flushed().blocks =~= progress.flushed().blocks + seq![block]);
}

/// Copies of a block are put behind what is there.
proof fn lemma_repeated_gains(progress: Progress, block: Mast, count: nat, callset: Seq<ProcId>)
    ensures
        gains(
            progress,
            Seq::new(count, |i: int| block),
            progress.repeated(block, count, callset),
        ),
{
    let next = progress.repeated(block, count, callset);
    assert(next.flushed().blocks =~= progress.flushed().blocks + Seq::new(count, |i: int| block));
}

/// True if the two outcomes agree, but for blocks in front of what was come to in the first.
spec fn agrees(
    first: Outcome<Progress>,
    before: Seq<Mast>,
    second: Outcome<Progress>,
) -> bool {
    &&& first.0 == second.0
    &&& match second.1 {
        Ok(end) => first.1 matches Ok(first_end) && extends(first_end, before, end),
        Err(fault) => first.1 == Err::<Progress, Fault>(fault),
    }
}

/// Nodes behind a block come to the same whatever stands in front of the block.
proof fn lemma_agrees_behind_block(
    lib: Catalogue,
    scope: Scope,
    cache: Map<ProcId, SpecProc>,
    first: Progress,
    before: Seq<Mast>,
    second: Progress,
    block: Mast,
    callset: Seq<ProcId>,
    nodes: Seq<SpecNode>,
)
    requires
        extends(first, before, second),
    ensures
        agrees(
            lib.nodes(scope, cache, first.followed_by(block, callset), nodes),
            before,
            lib.nodes(scope, cache, second.followed_by(block, callset), nodes),
        ),
    decreases nodes.len(), 1nat,
{
    lemma_followed_by_gains(first, block, callset);
    lemma_followed_by_gains(second, block, callset);
    let next = first.followed_by(block, callset);
    let other = second.followed_by(block, callset);
    lemma_extends_more(first, before, second, seq![block], next, other);
    lemma_agrees(lib, scope, cache, next, before, other, nodes);
}

/// Nodes come to the same blocks whatever stands in front of them.
proof fn lemma_agrees(
    lib: Catalogue,
    scope: Scope,
    cache: Map<ProcId, SpecProc>,
    first: Progress,
    before: Seq<Mast>,
    second: Progress,
    nodes: Seq<SpecNode>,
)
    requires
        extends(first, before, second),
    ensures
        agrees(
            lib.nodes(scope, cache, first, nodes),
            before,
            lib.nodes(scope, cache, second, nodes),
        ),
    decreases nodes.len(), 0nat,
{
    if nodes.len() > 0 {
        let rest = nodes.drop_first();
        let none = Seq::<Operation>::empty();
        match nodes[0] {
            SpecNode::Instruction(instruction) => {
                match lib.instruction(scope, cache, first.callset, instruction) {
                    (_, Err(_)) => {},
                    (cache, Ok((effect, callset))) => {
                        let more = match effect {
                            Effect::Op(op) => seq![Mast::Span(seq![op])],
                            Effect::Block(block) => seq![block],
                        };
                        lemma_after_gains(first, effect, callset);
                        lemma_after_gains(second, effect, callset);
                        let next = first.after(effect, callset);
                        let other = second.after(effect, callset);
                        lemma_extends_more(first, before, second, more, next, other);
                        lemma_agrees(lib, scope, cache, next, before, other, rest);
                    },
                }
            },
            SpecNode::IfElse(on_true, on_false) => {
                match lib.body(scope, cache, first.callset, none, on_true, none) {
                    (_, Err(_)) => {},
                    (cache, Ok((true_block, callset))) => {
                        if on_false.len() == 0 {
                            let split = Mast::Split(Box::new(true_block), Box::new(Mast::noop()));
                            lemma_agrees_behind_block(
                                lib,
                                scope,
                                cache,
                                first,
                                before,
                                second,
                                split,
                                callset,
                                rest,
                            );
                        } else {
                            match lib.body(scope, cache, callset, none, on_false, none) {
                                (_, Err(_)) => {},
                                (cache, Ok((false_block, callset))) => {
                                    let split = Mast::Split(
                                        Box::new(true_block),
                                        Box::new(false_block),
                                    );
                                    lemma_agrees_behind_block(
                                        lib,
                                        scope,
                                        cache,
                                        first,
                                        before,
                                        second,
                                        split,
                                        callset,
                                        rest,
                                    );
                                },
                            }
                        }
                    },
                }
            },
            SpecNode::Repeat(count, body) => {
                match lib.body(scope, cache, first.callset, none, body, none) {
                    (_, Err(_)) => {},
                    (cache, Ok((block, callset))) => {
                        let more = Seq::new(count as nat, |i: int| block);
                        lemma_repeated_gains(first, block, count as nat, callset);
                        lemma_repeated_gains(second, block, count as nat, callset);
                        let next = first.repeated(block, count as nat, callset);
                        let other = second.repeated(block, count as nat, callset);
                        lemma_extends_more(first, before, second, more, next, other);
                        lemma_agrees(lib, scope, cache, next, before, other, rest);
                    },
                }
            },
            SpecNode::While(body) => {
                match lib.body(scope, cache, first.callset, none, body, none) {
                    (_, Err(_)) => {},
                    (cache, Ok((block, callset))) => {
                        lemma_agrees_behind_block(
                            lib,
                            scope,
                            cache,
                            first,
                            before,
                            second,
                            Mast::Loop(Box::new(block)),
                            callset,
                            rest,
                        );
                    },
                }
            },
        }
    }
}

/// Nodes are compiled one after another: what was compiled for those in front is there for those
/// behind, and an error in front ends it all.
pub proof fn lemma_nodes_in_turn(
    lib: Catalogue,
    scope: Scope,
    cache: Map<ProcId, SpecProc>,
    progress: Progress,
    first: Seq<SpecNode>,
    second: Seq<SpecNode>,
)
    ensures
        lib.nodes(scope, cache, progress, first + second) == (match lib.nodes(
            scope,
            cache,
            progress,
            first,
        ) {
            (after, Ok(middle)) => lib.nodes(scope, after, middle, second),
            (after, Err(fault)) => (after, Err(fault)),
        }),
    decreases first.len(),
{
    let all = first + second;
    if first.len() == 0 {
        assert(all =~= second);
    } else {
        let rest = first.drop_first();
        let none = Seq::<Operation>::empty();
        assert(all[0] == first[0]);
        assert(all.drop_first() =~= rest + second);
        match first[0] {
            SpecNode::Instruction(instruction) => {
                match lib.instruction(scope, cache, progress.callset, instruction) {
                    (_, Err(_)) => {},
                    (cache, Ok((effect, callset))) => {
                        let next = progress.after(effect, callset);
                        lemma_nodes_in_turn(lib, scope, cache, next, rest, second);
                    },
                }
            },
            SpecNode::IfElse(on_true, on_false) => {
                match lib.body(scope, cache, progress.callset, none, on_true, none) {
                    (_, Err(_)) => {},
                    (cache, Ok((true_block, callset))) => {
                        if on_false.len() == 0 {
                            let split = Mast::Split(Box::new(true_block), Box::new(Mast::noop()));
                            let next = progress.followed_by(split, callset);
                            lemma_nodes_in_turn(lib, scope, cache, next, rest, second);
                        } else {
                            match lib.body(scope, cache, callset, none, on_false, none) {
                                (_, Err(_)) => {},
                                (cache, Ok((false_block, callset))) => {
                                    let split = Mast::Split(
                                        Box::new(true_block),
                                        Box::new(false_block),
                                    );
                                    let next = progress.followed_by(split, callset);
                                    lemma_nodes_in_turn(lib, scope, cache, next, rest, second);
                                },
                            }
                        }
                    },
                }
            },
            SpecNode::Repeat(count, body) => {
                match lib.body(scope, cache, progress.callset, none, body, none) {
                    (_, Err(_)) => {},
                    (cache, Ok((block, callset))) => {
                        let next = progress.repeated(block, count as nat, callset);
                        lemma_nodes_in_turn(lib, scope, cache, next, rest, second);
                    },
                }
            },
            SpecNode::While(body) => {
                match lib.body(scope, cache, progress.callset, none, body, none) {
                    (_, Err(_)) => {},
                    (cache, Ok((block, callset))) => {
                        let next = progress.followed_by(Mast::Loop(Box::new(block)), callset);
                        lemma_nodes_in_turn(lib, scope, cache, next, rest, second);
                    },
                }
            },
        }
    }
}

/// The blocks of nodes which stand one behind the other are the blocks of the first and those of
/// the second, compiled in turn; only where they meet, a span and a span become one.
pub proof fn lemma_rows(
    lib: Catalogue,
    scope: Scope,
    cache: Map<ProcId, SpecProc>,
    callset: Seq<ProcId>,
    first: Seq<SpecNode>,
    second: Seq<SpecNode>,
)
    ensures
        row(lib, scope, cache, callset, Seq::empty()) == (
            cache,
            Ok::<(Seq<Mast>, Seq<ProcId>), Fault>((Seq::empty(), callset)),
        ),
        row(lib, scope, cache, callset, first + second) == (match row(
            lib,
            scope,
            cache,
            callset,
            first,
        ) {
            (middle, Err(fault)) => (middle, Err(fault)),
            (middle, Ok((blocks, between))) => match row(lib, scope, middle, between, second) {
                (after, Err(fault)) => (after, Err(fault)),
                (after, Ok((more, end))) => (after, Ok((shapes::glued(blocks, more), end))),
            },
        }),
{
    reveal(row);
    let start = nothing(callset);
    assert(Mast::merged(start.flushed().blocks) =~= Seq::empty());
    lemma_nodes_in_turn(lib, scope, cache, start, first, second);
    match lib.nodes(scope, cache, start, first) {
        (_, Err(_)) => {},
        (middle, Ok(progress)) => {
            let blocks = progress.flushed().blocks;
            let other = nothing(progress.callset);
            assert(blocks + other.flushed().blocks =~= blocks);
            lemma_agrees(lib, scope, middle, progress, blocks, other, second);
            match lib.nodes(scope, middle, other, second) {
                (_, Err(_)) => {},
                (_, Ok(end)) => {
                    shapes::lemma_merged_parts(blocks, end.flushed().blocks);
                },
            }
        },
    }
}

/// The code of a body is the tree of the blocks of its nodes, with the operations which are put
/// before and behind it as spans before and behind these blocks.
pub proof fn lemma_body_of_row(
    lib: Catalogue,
    scope: Scope,
    cache: Map<ProcId, SpecProc>,
    callset: Seq<ProcId>,
    prologue: Seq<Operation>,
    nodes: Seq<SpecNode>,
    epilogue: Seq<Operation>,
)
    ensures
        lib.body(scope, cache, callset, prologue, nodes, epilogue) == (match row(
            lib,
            scope,
            cache,
            callset,
            nodes,
        ) {
            (after, Err(fault)) => (after, Err(fault)),
            (after, Ok((blocks, end))) => {
                let all = shapes::glued(
                    shapes::glued(span_row(prologue), blocks),
                    span_row(epilogue),
                );
                (after, Ok((Mast::tree(all), end)))
            },
        }),
{
    reveal(row);
    let start = Progress { blocks: Seq::empty(), ops: prologue, callset };
    let other = nothing(callset);
    assert(start.flushed().blocks =~= span_row(prologue));
    assert(span_row(prologue) + other.flushed().blocks =~= span_row(prologue));
    lemma_agrees(lib, scope, cache, start, span_row(prologue), other, nodes);
    match (lib.nodes(scope, cache, start, nodes).1, lib.nodes(scope, cache, other, nodes).1) {
        (Ok(progress), Ok(plain)) => {
            let blocks = progress.flushed().blocks;
            let end = Progress { ops: progress.ops + epilogue, ..progress };
            assert(Mast::merged(end.flushed().blocks) == Mast::merged(
                blocks + span_row(epilogue),
            )) by {
                if epilogue.len() == 0 {
                    assert(progress.ops + epilogue =~= progress.ops);
                    assert(blocks + span_row(epilogue) =~= blocks);
                    assert(end.flushed().blocks =~= blocks);
                } else if progress.ops.len() == 0 {
                    assert(progress.ops + epilogue =~= epilogue);
                    assert(end.flushed().blocks =~= blocks + span_row(epilogue));
                } else {
                    shapes::lemma_merged_span(progress.blocks, progress.ops, epilogue);
                    assert(end.flushed().blocks =~= progress.blocks + seq![
                        Mast::Span(progress.ops + epilogue),
                    ]);
                    assert(blocks + span_row(epilogue) =~= progress.blocks + seq![
                        Mast::Span(progress.ops),
                        Mast::Span(epilogue),
                    ]);
                }
            }
            shapes::lemma_merged_parts(blocks, span_row(epilogue));
            shapes::lemma_merged_parts(span_row(prologue), plain.flushed().blocks);
            lemma_span_row(prologue);
            lemma_span_row(epilogue);
        },
        _ => {},
    }
}

/// There is nothing to put together in a row of one span.
proof fn lemma_span_row(ops: Seq<Operation>)
    ensures
        Mast::merged(span_row(ops)) == span_row(ops),
{
    shapes::lemma_merged_single(Mast::Span(ops));
}

/// The block of a body whose nodes come to one block is that block.
pub(crate) proof fn lemma_body_of_one(
    lib: Catalogue,
    scope: Scope,
    cache: Map<ProcId, SpecProc>,
    callset: Seq<ProcId>,
    nodes: Seq<SpecNode>,
)
    ensures
        row(lib, scope, cache, callset, nodes) matches (after, Ok((blocks, end)))
            ==> plain_body(lib, scope, cache, callset, nodes) == (
            after,
            Ok::<(Mast, Seq<ProcId>), Fault>((Mast::tree(blocks), end)),
        ),
        row(lib, scope, cache, callset, nodes) matches (after, Err(fault))
            ==> plain_body(lib, scope, cache, callset, nodes) == (
            after,
            Err::<(Mast, Seq<ProcId>), Fault>(fault),
        ),
        forall|block: Mast| #[trigger] Mast::tree(seq![block]) == block,
{
    lemma_body_of_row(lib, scope, cache, callset, Seq::empty(), nodes, Seq::empty());
    match row(lib, scope, cache, callset, nodes) {
        (_, Ok((blocks, _))) => {
            let none = Seq::<Mast>::empty();
            assert(shapes::glued(shapes::glued(none, blocks), none) =~= blocks);
        },
        _ => {},
    }
    assert forall|block: Mast| #[trigger] Mast::tree(seq![block]) == block by {
        assert(seq![block][0] == block);
    }
}

/// The blocks of a single node.
pub(crate) proof fn lemma_row_of_node(
    lib: Catalogue,
    scope: Scope,
    cache: Map<ProcId, SpecProc>,
    callset: Seq<ProcId>,
    node: SpecNode,
)
    ensures
        row(lib, scope, cache, callset, seq![node]) == (match node {
            SpecNode::Instruction(instruction) => match lib.instruction(
                scope,
                cache,
                callset,
                instruction,
            ) {
                (after, Err(fault)) => (after, Err(fault)),
                (after, Ok((effect, end))) => (
                    after,
                    Ok(
                        (
                            match effect {
                                Effect::Op(op) => seq![Mast::Span(seq![op])],
                                Effect::Block(block) => seq![block],
                            },
                            end,
                        ),
                    ),
                ),
            },
            SpecNode::IfElse(on_true, on_false) => match plain_body(
                lib,
                scope,
                cache,
                callset,
                on_true,
            ) {
                (middle, Err(fault)) => (middle, Err(fault)),
                (middle, Ok((first, between))) => if on_false.len() == 0 {
                    let split = Mast::Split(Box::new(first), Box::new(Mast::noop()));
                    (middle, Ok((seq![split], between)))
                } else {
                    match plain_body(lib, scope, middle, between, on_false) {
                        (after, Err(fault)) => (after, Err(fault)),
                        (after, Ok((second, end))) => {
                            let split = Mast::Split(Box::new(first), Box::new(second));
                            (after, Ok((seq![split], end)))
                        },
                    }
                },
            },
            SpecNode::Repeat(count, body) => match plain_body(lib, scope, cache, callset, body) {
                (after, Err(fault)) => (after, Err(fault)),
                (after, Ok((block, end))) => (
                    after,
                    Ok((Mast::merged(Seq::new(count as nat, |i: int| block)), end)),
                ),
            },
            SpecNode::While(body) => match plain_body(lib, scope, cache, callset, body) {
                (after, Err(fault)) => (after, Err(fault)),
                (after, Ok((block, end))) => (
                    after,
                    Ok((seq![Mast::Loop(Box::new(block))], end)),
                ),
            },
        }),
{
    reveal(row);
    let start = nothing(callset);
    let none = Seq::<Operation>::empty();
    reveal_with_fuel(Catalogue::nodes, 2);
    assert(seq![node].drop_first() =~= Seq::<SpecNode>::empty());
    assert(start.flushed().blocks =~= Seq::empty());
    match node {
        SpecNode::Instruction(instruction) => {
            match lib.instruction(scope, cache, callset, instruction) {
                (_, Ok((effect, end))) => {
                    let next = start.after(effect, end);
                    match effect {
                        Effect::Op(op) => {
                            assert(start.ops.push(op) =~= seq![op]);
                            assert(next.flushed().blocks =~= seq![Mast::Span(seq![op])]);
                            shapes::lemma_merged_single(Mast::Span(seq![op]));
                        },
                        Effect::Block(block) => {
                            assert(next.flushed().blocks =~= seq![block]);
                            shapes::lemma_merged_single(block);
                        },
                    }
                },
                _ => {},
            }
        },
        SpecNode::IfElse(on_true, on_false) => {
            match lib.body(scope, cache, callset, none, on_true, none) {
                (middle, Ok((first, between))) => {
                    if on_false.len() == 0 {
                        let split = Mast::Split(Box::new(first), Box::new(Mast::noop()));
                        let next = start.followed_by(split, between);
                        assert(next.flushed().blocks =~= seq![split]);
                        shapes::lemma_merged_single(split);
                    } else {
                        match lib.body(scope, middle, between, none, on_false, none) {
                            (_, Ok((second, end))) => {
                                let split = Mast::Split(Box::new(first), Box::new(second));
                                let next = start.followed_by(split, end);
                                assert(next.flushed().blocks =~= seq![split]);
                                shapes::lemma_merged_single(split);
                            },
                            _ => {},
                        }
                    }
                },
                _ => {},
            }
        },
        SpecNode::Repeat(count, body) => {
            match lib.body(scope, cache, callset, none, body, none) {
                (_, Ok((block, end))) => {
                    let next = start.repeated(block, count as nat, end);
                    assert(next.flushed().blocks =~= Seq::new(count as nat, |i: int| block));
                },
                _ => {},
            }
        },
        SpecNode::While(body) => {
            match lib.body(scope, cache, callset, none, body, none) {
                (_, Ok((block, end))) => {
                    let looped = Mast::Loop(Box::new(block));
                    let next = start.followed_by(looped, end);
                    assert(next.flushed().blocks =~= seq![looped]);
                    shapes::lemma_merged_single(looped);
                },
                _ => {},
            }
        },
    }
}

} // verus!
