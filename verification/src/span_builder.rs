//! Collecting operations into span blocks.
use vstd::prelude::*;

use crate::code_block::{CodeBlock, Mast};
use crate::operation::Operation;

verus! {

/// Operations to be executed before and after a code body.
pub(crate) struct BodyWrapper {
    pub(crate) prologue: Vec<Operation>,
    pub(crate) epilogue: Vec<Operation>,
}

/// Collects the operations of a code body until they become a block.
pub(crate) struct SpanBuilder {
    pub(crate) ops: Vec<Operation>,
    pub(crate) epilogue: Vec<Operation>,
}

impl SpanBuilder {
    /// Returns a builder for a body with the given wrapper.
    pub(crate) fn new(wrapper: Option<BodyWrapper>) -> (r: SpanBuilder)
        ensures
            wrapper matches Some(w) ==> r.ops@ == w.prologue@ && r.epilogue@ == w.epilogue@,
            wrapper is None ==> r.ops@.len() == 0 && r.epilogue@.len() == 0,
    {
        match wrapper {
            Some(wrapper) => SpanBuilder { ops: wrapper.prologue, epilogue: wrapper.epilogue },
            None => SpanBuilder { ops: Vec::new(), epilogue: Vec::new() },
        }
    }

    /// Adds an operation.
    pub(crate) fn add_op(&mut self, op: Operation)
        ensures
            final(self).ops@ == old(self).ops@.push(op),
            final(self).epilogue@ == old(self).epilogue@,
    {
        self.ops.push(op);
    }

    /// Moves the operations which were collected into a block behind those in `target`, unless
    /// there are none.
    pub(crate) fn extract_span_into(&mut self, target: &mut Vec<CodeBlock>)
        ensures
            final(self).ops@.len() == 0,
            final(self).epilogue@ == old(self).epilogue@,
            CodeBlock::models(final(target)@) == (if old(self).ops@.len() == 0 {
                CodeBlock::models(old(target)@)
            } else {
                CodeBlock::models(old(target)@).push(Mast::Span(old(self).ops@))
            }),
    {
        if self.ops.len() > 0 {
            let mut ops: Vec<Operation> = Vec::new();
            std::mem::swap(&mut ops, &mut self.ops);
            target.push(CodeBlock::new_span(ops));
            assert(CodeBlock::models(target@) =~= CodeBlock::models(old(target)@).push(
                Mast::Span(old(self).ops@),
            ));
        }
    }

    /// Moves the operations which were collected, followed by those of the wrapper, into a block
    /// behind those in `target`, unless there are none.
    pub(crate) fn extract_final_span_into(self, target: &mut Vec<CodeBlock>)
        ensures
            CodeBlock::models(final(target)@) == (if (self.ops@ + self.epilogue@).len() == 0 {
                CodeBlock::models(old(target)@)
            } else {
                CodeBlock::models(old(target)@).push(Mast::Span(self.ops@ + self.epilogue@))
            }),
    {
        let mut ops = self.ops;
        let mut epilogue = self.epilogue;
        ops.append(&mut epilogue);
        let mut last = SpanBuilder { ops, epilogue };
        last.extract_span_into(target);
    }
}

} // verus!
