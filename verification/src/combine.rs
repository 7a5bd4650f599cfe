//! Joining a sequence of code blocks into one.
use vstd::prelude::*;

use crate::code_block::{CodeBlock, Mast};
use crate::operation::Operation;

verus! {

/// Puts neighbouring spans together.
fn merge_spans(blocks: Vec<CodeBlock>) -> (r: Vec<CodeBlock>)
    ensures
        CodeBlock::models(r@) == Mast::merged(CodeBlock::models(blocks@)),
{
    let ghost models = CodeBlock::models(blocks@);
    let mut merged: Vec<CodeBlock> = Vec::new();
    assert(models.take(0) =~= Seq::<Mast>::empty());
    assert(CodeBlock::models(merged@) =~= Seq::<Mast>::empty());
    for block in it: blocks
        invariant
            it.seq() == blocks@,
            models == CodeBlock::models(blocks@),
            CodeBlock::models(merged@) == Mast::merged(models.take(it.index() as int)),
    {
        let ghost index = it.index() as int;
        let ghost before = CodeBlock::models(merged@);
        let ghost model = block@;
        proof {
            assert(models.take(index + 1).drop_last() =~= models.take(index));
            assert(models.take(index + 1).last() == model);
        }
        let last = merged.pop();
        match (last, block) {
            (Some(CodeBlock::Span(ops_before)), CodeBlock::Span(ops)) => {
                let mut all: Vec<Operation> = ops_before;
                let mut ops = ops;
                all.append(&mut ops);
                merged.push(CodeBlock::new_span(all));
                assert(CodeBlock::models(merged@) =~= Mast::merged(models.take(index + 1)));
            },
            (Some(last), block) => {
                merged.push(last);
                merged.push(block);
                assert(CodeBlock::models(merged@) =~= before.push(model));
            },
            (None, block) => {
                merged.push(block);
                assert(CodeBlock::models(merged@) =~= before.push(model));
            },
        }
    }
    assert(models.take(models.len() as int) =~= models);
    merged
}

/// Joins every two neighbours.
fn join_pairs(blocks: Vec<CodeBlock>) -> (r: Vec<CodeBlock>)
    ensures
        CodeBlock::models(r@) == Mast::paired(CodeBlock::models(blocks@)),
{
    let ghost models = CodeBlock::models(blocks@);
    let mut joined: Vec<CodeBlock> = Vec::new();
    let mut waiting: Option<CodeBlock> = None;
    for block in it: blocks
        invariant
            it.seq() == blocks@,
            models == CodeBlock::models(blocks@),
            joined@.len() == it.index() as int / 2,
            waiting is Some <==> it.index() as int % 2 == 1,
            waiting matches Some(w) ==> w@ == models[it.index() as int - 1],
            forall|i: int|
                0 <= i < joined@.len() ==> (#[trigger] joined@[i])@ == Mast::paired(models)[i],
    {
        match waiting {
            Some(first) => {
                joined.push(CodeBlock::Join(Box::new(first), Box::new(block)));
                waiting = None;
            },
            None => {
                waiting = Some(block);
            },
        }
    }
    match waiting {
        Some(block) => {
            joined.push(block);
        },
        None => {},
    }
    assert(CodeBlock::models(joined@) =~= Mast::paired(models));
    joined
}

/// Returns a block which executes the given blocks one after another: neighbouring spans are put
/// together, and what remains is joined into a balanced tree. Without blocks, this is the block
/// which does nothing.
pub fn combine_blocks(blocks: Vec<CodeBlock>) -> (r: CodeBlock)
    ensures
        r@ == Mast::combined(CodeBlock::models(blocks@)),
{
    let mut level: Vec<CodeBlock> = merge_spans(blocks);
    while level.len() > 1
        invariant
            Mast::combined(CodeBlock::models(blocks@)) == Mast::tree(CodeBlock::models(level@)),
        decreases level.len(),
    {
        level = join_pairs(level);
        assert(level@.len() == CodeBlock::models(level@).len());
    }
    match level.pop() {
        Some(block) => block,
        None => {
            let mut ops: Vec<Operation> = Vec::new();
            ops.push(Operation::Noop);
            assert(ops@ =~= seq![Operation::Noop]);
            CodeBlock::new_span(ops)
        },
    }
}

} // verus!
