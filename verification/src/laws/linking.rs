//! Compiled programs can find whatever they invoke.
use vstd::prelude::*;

use crate::code_block::Mast;
use crate::hasher::Digest;
use crate::procedure::{CallSet, ProcId, SpecProc};
use crate::semantics::{Effect, Invocation};

verus! {

/// True if whatever is in the first callset is in the second.
pub open spec fn included(first: Seq<ProcId>, second: Seq<ProcId>) -> bool {
    forall|id: ProcId| #[trigger] first.contains(id) ==> second.contains(id)
}

/// True if procedures have been added to the first map to make the second, and nothing else has
/// been changed.
pub open spec fn grows(first: Map<ProcId, SpecProc>, second: Map<ProcId, SpecProc>) -> bool {
    forall|id: ProcId| #[trigger]
        first.contains_key(id) ==> second.contains_key(id) && second[id] == first[id]
}

/// The digests of the procedures in a callset.
pub open spec fn targets(known: Map<ProcId, SpecProc>, callset: Seq<ProcId>) -> Set<Digest> {
    Set::new(
        |digest: Digest|
            exists|id: ProcId| #[trigger]
                callset.contains(id) && known.contains_key(id) && known[id].root.digest()
                    == digest,
    )
}

/// True if the procedures in a callset are known, and what they call is in the callset too.
pub open spec fn closed(known: Map<ProcId, SpecProc>, callset: Seq<ProcId>) -> bool {
    forall|id: ProcId| #[trigger]
        callset.contains(id) ==> known.contains_key(id) && included(known[id].callset, callset)
}

/// True if a block can find whatever it invokes among the procedures in a callset and in the
/// kernel.
pub open spec fn linked(
    known: Map<ProcId, SpecProc>,
    kernel: Seq<Digest>,
    block: Mast,
    callset: Seq<ProcId>,
) -> bool {
    block.resolves(targets(known, callset), kernel)
}

/// True if a procedure can find whatever it invokes, directly or through other procedures.
pub open spec fn fits(
    known: Map<ProcId, SpecProc>,
    kernel: Seq<Digest>,
    proc: SpecProc,
) -> bool {
    linked(known, kernel, proc.root, proc.callset) && closed(known, proc.callset)
}

/// What a block finds in a table it finds in a larger table.
pub(crate) proof fn lemma_resolves_more(
    block: Mast,
    first: Set<Digest>,
    second: Set<Digest>,
    kernel: Seq<Digest>,
)
    requires
        block.resolves(first, kernel),
        forall|digest: Digest| #[trigger] first.contains(digest) ==> second.contains(digest),
    ensures
        block.resolves(second, kernel),
    decreases block,
{
    match block {
        Mast::Join(a, b) => {
            lemma_resolves_more(*a, first, second, kernel);
            lemma_resolves_more(*b, first, second, kernel);
        },
        Mast::Split(a, b) => {
            lemma_resolves_more(*a, first, second, kernel);
            lemma_resolves_more(*b, first, second, kernel);
        },
        Mast::Loop(a) => {
            lemma_resolves_more(*a, first, second, kernel);
        },
        _ => {},
    }
}

/// What a block finds it finds in a larger callset, and among more procedures.
pub(crate) proof fn lemma_linked_more(
    first: Map<ProcId, SpecProc>,
    second: Map<ProcId, SpecProc>,
    kernel: Seq<Digest>,
    block: Mast,
    first_callset: Seq<ProcId>,
    second_callset: Seq<ProcId>,
)
    requires
        linked(first, kernel, block, first_callset),
        grows(first, second),
        included(first_callset, second_callset),
    ensures
        linked(second, kernel, block, second_callset),
{
    let before = targets(first, first_callset);
    let after = targets(second, second_callset);
    assert forall|digest: Digest| #[trigger] before.contains(digest) implies after.contains(
        digest,
    ) by {
        let id = choose|id: ProcId| #[trigger]
            first_callset.contains(id) && first.contains_key(id) && first[id].root.digest()
                == digest;
        assert(second_callset.contains(id) && second.contains_key(id) && second[id].root.digest()
            == digest);
    }
    lemma_resolves_more(block, before, after, kernel);
}

/// A closed callset stays closed when more procedures are known.
pub(crate) proof fn lemma_closed_more(
    first: Map<ProcId, SpecProc>,
    second: Map<ProcId, SpecProc>,
    callset: Seq<ProcId>,
)
    requires
        closed(first, callset),
        grows(first, second),
    ensures
        closed(second, callset),
{
}

/// A procedure which fits still does when more procedures are known.
pub(crate) proof fn lemma_fits_more(
    first: Map<ProcId, SpecProc>,
    second: Map<ProcId, SpecProc>,
    kernel: Seq<Digest>,
    proc: SpecProc,
)
    requires
        fits(first, kernel, proc),
        grows(first, second),
    ensures
        fits(second, kernel, proc),
{
    lemma_linked_more(first, second, kernel, proc.root, proc.callset, proc.callset);
    lemma_closed_more(first, second, proc.callset);
}

/// A procedure which fits still does when everything in its callset stays what it is.
pub(crate) proof fn lemma_fits_elsewhere(
    first: Map<ProcId, SpecProc>,
    second: Map<ProcId, SpecProc>,
    kernel: Seq<Digest>,
    proc: SpecProc,
)
    requires
        fits(first, kernel, proc),
        forall|id: ProcId| #[trigger]
            proc.callset.contains(id) ==> second.contains_key(id) && second[id] == first[id],
    ensures
        fits(second, kernel, proc),
{
    let before = targets(first, proc.callset);
    let after = targets(second, proc.callset);
    assert forall|digest: Digest| #[trigger] before.contains(digest) implies after.contains(
        digest,
    ) by {
        let id = choose|id: ProcId| #[trigger]
            proc.callset.contains(id) && first.contains_key(id) && first[id].root.digest()
                == digest;
        assert(proc.callset.contains(id) && second.contains_key(id) && second[id].root.digest()
            == digest);
    }
    lemma_resolves_more(proc.root, before, after, kernel);
}

/// What a block finds in the kernel it finds in a larger kernel.
pub(crate) proof fn lemma_resolves_larger_kernel(
    block: Mast,
    table: Set<Digest>,
    first: Seq<Digest>,
    second: Seq<Digest>,
)
    requires
        block.resolves(table, first),
        forall|digest: Digest| #[trigger] first.contains(digest) ==> second.contains(digest),
    ensures
        block.resolves(table, second),
    decreases block,
{
    match block {
        Mast::Join(a, b) => {
            lemma_resolves_larger_kernel(*a, table, first, second);
            lemma_resolves_larger_kernel(*b, table, first, second);
        },
        Mast::Split(a, b) => {
            lemma_resolves_larger_kernel(*a, table, first, second);
            lemma_resolves_larger_kernel(*b, table, first, second);
        },
        Mast::Loop(a) => {
            lemma_resolves_larger_kernel(*a, table, first, second);
        },
        _ => {},
    }
}

/// What a block without kernel calls finds it finds without a kernel.
pub(crate) proof fn lemma_resolves_without_kernel(
    block: Mast,
    table: Set<Digest>,
    kernel: Seq<Digest>,
)
    requires
        block.resolves(table, kernel),
        block.resolves(Set::full(), Seq::empty()),
    ensures
        block.resolves(table, Seq::empty()),
    decreases block,
{
    match block {
        Mast::Join(a, b) => {
            lemma_resolves_without_kernel(*a, table, kernel);
            lemma_resolves_without_kernel(*b, table, kernel);
        },
        Mast::Split(a, b) => {
            lemma_resolves_without_kernel(*a, table, kernel);
            lemma_resolves_without_kernel(*b, table, kernel);
        },
        Mast::Loop(a) => {
            lemma_resolves_without_kernel(*a, table, kernel);
        },
        _ => {},
    }
}

/// A procedure is in a callset after it was added exactly if it was there before or is the one
/// which was added.
pub(crate) proof fn lemma_adding(callset: Seq<ProcId>, id: ProcId)
    ensures
        forall|other: ProcId| #[trigger]
            CallSet::adding(callset, id).contains(other) <==> callset.contains(other) || other
                == id,
{
    let after = CallSet::adding(callset, id);
    assert forall|other: ProcId| #[trigger] after.contains(other) <==> callset.contains(other)
        || other == id by {
        if !callset.contains(id) {
            if callset.contains(other) {
                let i = choose|i: int| 0 <= i < callset.len() && callset[i] == other;
                assert(after[i] == other);
            }
            if other == id {
                assert(after[callset.len() as int] == id);
            }
            if after.contains(other) && other != id {
                let i = choose|i: int| 0 <= i < after.len() && after[i] == other;
                assert(callset[i] == other);
            }
        }
    }
}

/// A procedure is in the union of two callsets exactly if it is in one of them.
pub proof fn lemma_merging(callset: Seq<ProcId>, others: Seq<ProcId>)
    ensures
        forall|id: ProcId| #[trigger]
            CallSet::merging(callset, others).contains(id) <==> callset.contains(id)
                || others.contains(id),
    decreases others.len(),
{
    if others.len() > 0 {
        let rest = others.drop_last();
        lemma_merging(callset, rest);
        lemma_adding(CallSet::merging(callset, rest), others.last());
        assert forall|id: ProcId| #[trigger]
            CallSet::merging(callset, others).contains(id) <==> callset.contains(id)
                || others.contains(id) by {
            if others.contains(id) && id != others.last() {
                let i = choose|i: int| 0 <= i < others.len() && others[i] == id;
                assert(rest[i] == id);
            }
            if rest.contains(id) {
                let i = choose|i: int| 0 <= i < rest.len() && rest[i] == id;
                assert(others[i] == id);
            }
            assert(others[others.len() - 1] == others.last());
        }
    }
}

/// The union of two closed callsets is closed.
pub(crate) proof fn lemma_closed_merging(
    known: Map<ProcId, SpecProc>,
    callset: Seq<ProcId>,
    others: Seq<ProcId>,
)
    requires
        closed(known, callset),
        closed(known, others),
    ensures
        closed(known, CallSet::merging(callset, others)),
        included(callset, CallSet::merging(callset, others)),
        included(others, CallSet::merging(callset, others)),
{
    lemma_merging(callset, others);
}

/// A use of a procedure which fits finds what it invokes.
pub(crate) proof fn lemma_invoked(
    known: Map<ProcId, SpecProc>,
    kernel: Seq<Digest>,
    proc: SpecProc,
    how: Invocation,
    in_kernel: bool,
    callset: Seq<ProcId>,
)
    requires
        fits(known, kernel, proc),
        closed(known, callset),
        !in_kernel ==> known.contains_key(proc.id) && known[proc.id] == proc,
        how is SysCall && !in_kernel ==> kernel.contains(proc.root.digest()),
    ensures
        proc.invoked(how, in_kernel, callset) matches Ok((effect, after)) ==> {
            &&& effect matches Effect::Block(block)
            &&& linked(known, kernel, block, after)
            &&& closed(known, after)
            &&& included(callset, after)
        },
{
    let merged = CallSet::merging(callset, proc.callset);
    lemma_closed_merging(known, callset, proc.callset);
    match how {
        Invocation::Exec => {
            lemma_linked_more(known, known, kernel, proc.root, proc.callset, merged);
        },
        _ => {
            if !in_kernel {
                let after = CallSet::adding(merged, proc.id);
                lemma_adding(merged, proc.id);
                assert(closed(known, after));
                assert(after.contains(proc.id) && known.contains_key(proc.id)
                    && known[proc.id].root.digest() == proc.root.digest());
                assert(targets(known, after).contains(proc.root.digest()));
            }
        },
    }
}

/// True if all blocks find what they invoke.
pub open spec fn all_resolve(
    blocks: Seq<Mast>,
    table: Set<Digest>,
    kernel: Seq<Digest>,
) -> bool {
    forall|i: int| 0 <= i < blocks.len() ==> (#[trigger] blocks[i]).resolves(table, kernel)
}

/// Putting spans together leaves blocks which find what they invoke.
proof fn lemma_merged_resolves(blocks: Seq<Mast>, table: Set<Digest>, kernel: Seq<Digest>)
    requires
        all_resolve(blocks, table, kernel),
    ensures
        all_resolve(Mast::merged(blocks), table, kernel),
    decreases blocks.len(),
{
    if blocks.len() > 0 {
        let rest = blocks.drop_last();
        assert(all_resolve(rest, table, kernel)) by {
            assert forall|i: int| 0 <= i < rest.len() implies (#[trigger] rest[i]).resolves(
                table,
                kernel,
            ) by {
                assert(rest[i] == blocks[i]);
            }
        }
        lemma_merged_resolves(rest, table, kernel);
        let before = Mast::merged(rest);
        let after = Mast::merged(blocks);
        assert(blocks[blocks.len() - 1] == blocks.last());
        assert forall|i: int| 0 <= i < after.len() implies (#[trigger] after[i]).resolves(
            table,
            kernel,
        ) by {
            if i < before.len() {
                assert(before[i].resolves(table, kernel));
            }
        }
    }
}

/// A tree of blocks which find what they invoke finds it too.
proof fn lemma_tree_resolves(blocks: Seq<Mast>, table: Set<Digest>, kernel: Seq<Digest>)
    requires
        all_resolve(blocks, table, kernel),
    ensures
        Mast::tree(blocks).resolves(table, kernel),
    decreases blocks.len(),
{
    if blocks.len() > 1 {
        let pairs = Mast::paired(blocks);
        assert forall|i: int| 0 <= i < pairs.len() implies (#[trigger] pairs[i]).resolves(
            table,
            kernel,
        ) by {
            assert(blocks[2 * i].resolves(table, kernel));
            if 2 * i + 1 < blocks.len() {
                assert(blocks[2 * i + 1].resolves(table, kernel));
            }
        }
        lemma_tree_resolves(pairs, table, kernel);
    }
}

/// Blocks which find what they invoke are combined into a block which does.
pub(crate) proof fn lemma_combined_resolves(blocks: Seq<Mast>, table: Set<Digest>, kernel: Seq<Digest>)
    requires
        all_resolve(blocks, table, kernel),
    ensures
        Mast::combined(blocks).resolves(table, kernel),
{
    lemma_merged_resolves(blocks, table, kernel);
    lemma_tree_resolves(Mast::merged(blocks), table, kernel);
}

} // verus!
