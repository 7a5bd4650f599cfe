//! What every compilation keeps, so that compiled programs find whatever they invoke.
use vstd::prelude::*;

use crate::ast::{SpecInstruction, SpecNode, SpecProcAst};
use crate::code_block::Mast;
use crate::hasher::Digest;
use crate::laws::{catalogues, linking, steady};
use crate::operation::Operation;
use crate::procedure::{CallSet, ProcId, ProcedureCache, ProcedureId, SpecProc};
use crate::semantics::{Catalogue, Effect, Invocation, Progress, Scope};

verus! {

/// True if each procedure in the cache is there under its identifier and finds in the cache and
/// in the kernel whatever it invokes; none belongs to a program; and those at the path of the
/// kernel are procedures of the kernel.
pub open spec fn settled(kernel: Seq<Digest>, cache: Map<ProcId, SpecProc>) -> bool {
    forall|id: ProcId| #[trigger]
        cache.contains_key(id) ==> {
            &&& cache[id].id == id
            &&& linking::fits(cache, kernel, cache[id])
            &&& id.module != ProcedureId::PROGRAM_PATH@
            &&& id.module == ProcedureId::KERNEL_PATH@ ==> kernel.contains(cache[id].root.digest())
        }
}

/// The procedures which may be called while the modules at the paths in `active` are compiled: in
/// a kernel those of an earlier kernel do not count.
pub open spec fn base(
    active: Seq<Seq<char>>,
    cache: Map<ProcId, SpecProc>,
) -> Map<ProcId, SpecProc> {
    if active.contains(ProcedureId::KERNEL_PATH@) {
        steady::without(Some(ProcedureId::KERNEL_PATH@), cache)
    } else {
        cache
    }
}

/// True if each procedure in the cache is there under its identifier and finds whatever it
/// invokes among the given procedures and in the kernel, and none belongs to a program.
pub open spec fn wired(
    kernel: Seq<Digest>,
    known: Map<ProcId, SpecProc>,
    cache: Map<ProcId, SpecProc>,
) -> bool {
    forall|id: ProcId| #[trigger]
        cache.contains_key(id) ==> {
            &&& cache[id].id == id
            &&& linking::fits(known, kernel, cache[id])
            &&& id.module != ProcedureId::PROGRAM_PATH@
        }
}

/// What holds of the cache while the modules at the paths in `active` are compiled.
#[verifier::opaque]
pub open spec fn coherent(
    lib: Catalogue,
    kernel: Seq<Digest>,
    active: Seq<Seq<char>>,
    cache: Map<ProcId, SpecProc>,
) -> bool {
    &&& steady::steady(lib, cache)
    &&& wired(kernel, base(active, cache), cache)
    &&& forall|id: ProcId| #[trigger]
        cache.contains_key(id) ==> {
            ||| id.module == ProcedureId::KERNEL_PATH@
            ||| !active.contains(id.module)
        }
    &&& active.contains(ProcedureId::KERNEL_PATH@) || settled(kernel, cache)
}

/// The procedures which code in the given scope can call.
pub open spec fn reach(scope: Scope, cache: Map<ProcId, SpecProc>) -> Map<ProcId, SpecProc> {
    if scope.in_kernel {
        steady::without(Some(ProcedureId::KERNEL_PATH@), cache)
    } else {
        scope.known(cache)
    }
}

/// True if the procedures of a scope belong to its innermost module, have different names, and
/// find whatever they invoke.
pub open spec fn scope_fits(
    kernel: Seq<Digest>,
    scope: Scope,
    cache: Map<ProcId, SpecProc>,
) -> bool {
    &&& scope.active.len() > 0
    &&& scope.in_kernel == scope.active.contains(ProcedureId::KERNEL_PATH@)
    &&& forall|i: int|
        0 <= i < scope.procs.len() ==> (#[trigger] scope.procs[i]).id.module
            == scope.active.last()
    &&& forall|i: int, j: int|
        0 <= i < j < scope.procs.len() ==> (#[trigger] scope.procs[i]).id != (
        #[trigger] scope.procs[j]).id
    &&& forall|i: int|
        0 <= i < scope.procs.len() ==> linking::fits(
            reach(scope, cache),
            kernel,
            #[trigger] scope.procs[i],
        )
}

/// What holds while code in the given scope is compiled.
#[verifier::opaque]
pub open spec fn ready(
    lib: Catalogue,
    kernel: Seq<Digest>,
    scope: Scope,
    cache: Map<ProcId, SpecProc>,
) -> bool {
    coherent(lib, kernel, scope.active, cache) && scope_fits(kernel, scope, cache)
}

/// What holds of the callset of code in the given scope.
#[verifier::opaque]
pub open spec fn callset_fits(
    scope: Scope,
    cache: Map<ProcId, SpecProc>,
    callset: Seq<ProcId>,
) -> bool {
    linking::closed(reach(scope, cache), callset)
}

/// What holds of a block of code in the given scope, and of the callset after it.
#[verifier::opaque]
pub open spec fn block_fits(
    kernel: Seq<Digest>,
    scope: Scope,
    cache: Map<ProcId, SpecProc>,
    block: Mast,
    callset: Seq<ProcId>,
) -> bool {
    linking::linked(reach(scope, cache), kernel, block, callset)
}

/// What holds of the code which has been collected in the given scope.
#[verifier::opaque]
pub open spec fn progress_fits(
    kernel: Seq<Digest>,
    scope: Scope,
    cache: Map<ProcId, SpecProc>,
    progress: Progress,
) -> bool {
    &&& linking::all_resolve(
        progress.blocks,
        linking::targets(reach(scope, cache), progress.callset),
        kernel,
    )
    &&& linking::closed(reach(scope, cache), progress.callset)
}

/// True if the callsets of the procedures are in the given callset.
pub open spec fn collects(procs: Seq<SpecProc>, callset: Seq<ProcId>) -> bool {
    forall|i: int|
        0 <= i < procs.len() ==> linking::included((#[trigger] procs[i]).callset, callset)
}

/// The procedures which a body can refer to are those of its module and those in the cache.
pub(crate) proof fn lemma_known(kernel: Seq<Digest>, scope: Scope, cache: Map<ProcId, SpecProc>)
    requires
        scope_fits(kernel, scope, cache),
        steady::avoids(cache, scope.active),
    ensures
        linking::grows(cache, scope.known(cache)),
        forall|i: int|
            0 <= i < scope.procs.len() ==> scope.known(cache).contains_key(
                (#[trigger] scope.procs[i]).id,
            ) && scope.known(cache)[scope.procs[i].id] == scope.procs[i],
        forall|id: ProcId| #[trigger]
            scope.known(cache).contains_key(id) ==> cache.contains_key(id) || scope.defines(id),
{
    let procs = scope.procs;
    crate::procedure::lemma_map_of(procs);
    assert(scope.active.contains(scope.active.last())) by {
        assert(scope.active[scope.active.len() - 1] == scope.active.last());
    }
    assert forall|id: ProcId| #[trigger] cache.contains_key(id) implies scope.known(
        cache,
    ).contains_key(id) && scope.known(cache)[id] == cache[id] by {
        if ProcedureCache::map_of(procs).contains_key(id) {
            let i = choose|i: int| 0 <= i < procs.len() && (#[trigger] procs[i]).id == id;
            assert(procs[i].id.module == scope.active.last());
        }
    }
    assert forall|i: int| 0 <= i < procs.len() implies scope.known(cache).contains_key(
        (#[trigger] procs[i]).id,
    ) && scope.known(cache)[procs[i].id] == procs[i] by {
        assert forall|j: int| i < j < procs.len() implies (#[trigger] procs[j]).id
            != procs[i].id by {}
        assert(ProcedureCache::map_of(procs).contains_key(procs[i].id));
    }
}

/// What can be called grows with the cache.
proof fn lemma_reach_grows(
    scope: Scope,
    first: Map<ProcId, SpecProc>,
    second: Map<ProcId, SpecProc>,
)
    requires
        linking::grows(first, second),
    ensures
        linking::grows(reach(scope, first), reach(scope, second)),
{
}

/// What holds in a scope still does when the cache grows.
proof fn lemma_ready_grows(
    lib: Catalogue,
    kernel: Seq<Digest>,
    scope: Scope,
    first: Map<ProcId, SpecProc>,
    second: Map<ProcId, SpecProc>,
)
    requires
        ready(lib, kernel, scope, first),
        linking::grows(first, second),
        coherent(lib, kernel, scope.active, second),
    ensures
        ready(lib, kernel, scope, second),
{
    reveal(ready);
    lemma_reach_grows(scope, first, second);
    assert forall|i: int| 0 <= i < scope.procs.len() implies linking::fits(
        reach(scope, second),
        kernel,
        #[trigger] scope.procs[i],
    ) by {
        linking::lemma_fits_more(
            reach(scope, first),
            reach(scope, second),
            kernel,
            scope.procs[i],
        );
    }
}

/// What holds of a callset still does when the cache grows.
pub(crate) proof fn lemma_callset_grows(
    scope: Scope,
    first: Map<ProcId, SpecProc>,
    second: Map<ProcId, SpecProc>,
    callset: Seq<ProcId>,
)
    requires
        callset_fits(scope, first, callset),
        linking::grows(first, second),
    ensures
        callset_fits(scope, second, callset),
{
    reveal(callset_fits);
    lemma_reach_grows(scope, first, second);
    linking::lemma_closed_more(reach(scope, first), reach(scope, second), callset);
}

/// What holds of a block still does when the cache and the callset grow.
proof fn lemma_block_grows(
    kernel: Seq<Digest>,
    scope: Scope,
    first: Map<ProcId, SpecProc>,
    second: Map<ProcId, SpecProc>,
    block: Mast,
    first_callset: Seq<ProcId>,
    second_callset: Seq<ProcId>,
)
    requires
        block_fits(kernel, scope, first, block, first_callset),
        linking::grows(first, second),
        linking::included(first_callset, second_callset),
    ensures
        block_fits(kernel, scope, second, block, second_callset),
{
    reveal(block_fits);
    lemma_reach_grows(scope, first, second);
    linking::lemma_linked_more(
        reach(scope, first),
        reach(scope, second),
        kernel,
        block,
        first_callset,
        second_callset,
    );
}

/// Code which has been collected stays as it should be when the cache and the callset grow.
proof fn lemma_progress_grows(
    kernel: Seq<Digest>,
    scope: Scope,
    first: Map<ProcId, SpecProc>,
    second: Map<ProcId, SpecProc>,
    progress: Progress,
    callset: Seq<ProcId>,
)
    requires
        progress_fits(kernel, scope, first, progress),
        linking::grows(first, second),
        linking::included(progress.callset, callset),
        callset_fits(scope, second, callset),
    ensures
        progress_fits(kernel, scope, second, Progress { callset, ..progress }),
{
    reveal(progress_fits);
    reveal(callset_fits);
    lemma_reach_grows(scope, first, second);
    let table = linking::targets(reach(scope, second), callset);
    assert forall|i: int| 0 <= i < progress.blocks.len() implies (
    #[trigger] progress.blocks[i]).resolves(table, kernel) by {
        linking::lemma_linked_more(
            reach(scope, first),
            reach(scope, second),
            kernel,
            progress.blocks[i],
            progress.callset,
            callset,
        );
    }
}

/// Code which has been collected stays as it should be when blocks are put behind it.
proof fn lemma_progress_with(
    kernel: Seq<Digest>,
    scope: Scope,
    cache: Map<ProcId, SpecProc>,
    progress: Progress,
    block: Mast,
    count: nat,
)
    requires
        progress_fits(kernel, scope, cache, progress),
        block_fits(kernel, scope, cache, block, progress.callset),
    ensures
        progress_fits(kernel, scope, cache, progress.flushed()),
        progress_fits(kernel, scope, cache, progress.followed_by(block, progress.callset)),
        progress_fits(kernel, scope, cache, progress.repeated(block, count, progress.callset)),
{
    reveal(progress_fits);
    reveal(block_fits);
    let table = linking::targets(reach(scope, cache), progress.callset);
    let flushed = progress.flushed().blocks;
    assert forall|i: int| 0 <= i < flushed.len() implies (#[trigger] flushed[i]).resolves(
        table,
        kernel,
    ) by {
        if i < progress.blocks.len() {
            assert(progress.blocks[i].resolves(table, kernel));
        }
    }
    let followed = progress.followed_by(block, progress.callset).blocks;
    assert forall|i: int| 0 <= i < followed.len() implies (#[trigger] followed[i]).resolves(
        table,
        kernel,
    ) by {
        if i < flushed.len() {
            assert(flushed[i].resolves(table, kernel));
        }
    }
    let repeated = progress.repeated(block, count, progress.callset).blocks;
    assert forall|i: int| 0 <= i < repeated.len() implies (#[trigger] repeated[i]).resolves(
        table,
        kernel,
    ) by {
        if i < flushed.len() {
            assert(flushed[i].resolves(table, kernel));
        }
    }
}

/// The state after a block has been put behind what was collected, with the cache and the
/// callset as they are then.
proof fn lemma_step(
    kernel: Seq<Digest>,
    scope: Scope,
    first: Map<ProcId, SpecProc>,
    second: Map<ProcId, SpecProc>,
    progress: Progress,
    block: Mast,
    count: nat,
    callset: Seq<ProcId>,
)
    requires
        progress_fits(kernel, scope, first, progress),
        linking::grows(first, second),
        linking::included(progress.callset, callset),
        callset_fits(scope, second, callset),
        block_fits(kernel, scope, second, block, callset),
    ensures
        progress_fits(kernel, scope, second, progress.followed_by(block, callset)),
        progress_fits(kernel, scope, second, progress.repeated(block, count, callset)),
{
    let grown = Progress { callset, ..progress };
    lemma_progress_grows(kernel, scope, first, second, progress, callset);
    lemma_progress_with(kernel, scope, second, grown, block, count);
    assert(grown.followed_by(block, callset) == progress.followed_by(block, callset));
    assert(grown.repeated(block, count, callset) == progress.repeated(block, count, callset));
}

/// The state after an instruction.
proof fn lemma_after(
    kernel: Seq<Digest>,
    scope: Scope,
    first: Map<ProcId, SpecProc>,
    second: Map<ProcId, SpecProc>,
    progress: Progress,
    effect: Effect,
    callset: Seq<ProcId>,
)
    requires
        progress_fits(kernel, scope, first, progress),
        linking::grows(first, second),
        linking::included(progress.callset, callset),
        callset_fits(scope, second, callset),
        effect matches Effect::Block(block) ==> block_fits(kernel, scope, second, block, callset),
    ensures
        progress_fits(kernel, scope, second, progress.after(effect, callset)),
{
    match effect {
        Effect::Op(_) => {
            lemma_progress_grows(kernel, scope, first, second, progress, callset);
            reveal(progress_fits);
        },
        Effect::Block(block) => {
            lemma_step(kernel, scope, first, second, progress, block, 0, callset);
        },
    }
}

/// Blocks made of blocks which are as they should be.
proof fn lemma_compound(
    kernel: Seq<Digest>,
    scope: Scope,
    cache: Map<ProcId, SpecProc>,
    first: Mast,
    second: Mast,
    callset: Seq<ProcId>,
)
    requires
        block_fits(kernel, scope, cache, first, callset),
        block_fits(kernel, scope, cache, second, callset),
    ensures
        block_fits(
            kernel,
            scope,
            cache,
            Mast::Split(Box::new(first), Box::new(second)),
            callset,
        ),
        block_fits(kernel, scope, cache, Mast::Loop(Box::new(first)), callset),
{
    reveal(block_fits);
}

/// The block which does nothing is as it should be.
proof fn lemma_noop(
    kernel: Seq<Digest>,
    scope: Scope,
    cache: Map<ProcId, SpecProc>,
    callset: Seq<ProcId>,
)
    ensures
        block_fits(kernel, scope, cache, Mast::noop(), callset),
{
    reveal(block_fits);
}

/// The code of a body is as it should be if what was collected is.
proof fn lemma_closed_with(
    kernel: Seq<Digest>,
    scope: Scope,
    cache: Map<ProcId, SpecProc>,
    progress: Progress,
    epilogue: Seq<Operation>,
)
    requires
        progress_fits(kernel, scope, cache, progress),
    ensures
        ({
            let end = Progress { ops: progress.ops + epilogue, ..progress };
            block_fits(
                kernel,
                scope,
                cache,
                Mast::combined(end.flushed().blocks),
                progress.callset,
            )
        }),
        callset_fits(scope, cache, progress.callset),
{
    reveal(progress_fits);
    reveal(callset_fits);
    reveal(block_fits);
    let end = Progress { ops: progress.ops + epilogue, ..progress };
    assert(progress_fits(kernel, scope, cache, end));
    lemma_noop(kernel, scope, cache, end.callset);
    lemma_progress_with(kernel, scope, cache, end, Mast::noop(), 0);
    linking::lemma_combined_resolves(
        end.flushed().blocks,
        linking::targets(reach(scope, cache), progress.callset),
        kernel,
    );
}

/// Before the first node, what has been collected is as it should be.
proof fn lemma_start(
    kernel: Seq<Digest>,
    scope: Scope,
    cache: Map<ProcId, SpecProc>,
    prologue: Seq<Operation>,
    callset: Seq<ProcId>,
)
    requires
        callset_fits(scope, cache, callset),
    ensures
        progress_fits(
            kernel,
            scope,
            cache,
            Progress { blocks: Seq::empty(), ops: prologue, callset },
        ),
{
    reveal(progress_fits);
    reveal(callset_fits);
}

/// The state after the use of a procedure of the module.
proof fn lemma_local(
    lib: Catalogue,
    kernel: Seq<Digest>,
    scope: Scope,
    cache: Map<ProcId, SpecProc>,
    index: u16,
    how: Invocation,
    callset: Seq<ProcId>,
)
    requires
        ready(lib, kernel, scope, cache),
        callset_fits(scope, cache, callset),
        !(how is SysCall),
    ensures
        scope.local(index, how, callset) matches Ok((effect, after)) ==> {
            &&& effect matches Effect::Block(block)
            &&& block_fits(kernel, scope, cache, block, after)
            &&& callset_fits(scope, cache, after)
            &&& linking::included(callset, after)
        },
{
    reveal(ready);
    reveal(coherent);
    reveal(callset_fits);
    reveal(block_fits);
    if index < scope.procs.len() {
        if !scope.in_kernel {
            lemma_known(kernel, scope, cache);
        }
        linking::lemma_invoked(
            reach(scope, cache),
            kernel,
            scope.procs[index as int],
            how,
            scope.in_kernel,
            callset,
        );
    }
}

/// The state after the use of a procedure in the cache.
proof fn lemma_cached(
    lib: Catalogue,
    kernel: Seq<Digest>,
    scope: Scope,
    cache: Map<ProcId, SpecProc>,
    id: ProcId,
    how: Invocation,
    callset: Seq<ProcId>,
)
    requires
        ready(lib, kernel, scope, cache),
        callset_fits(scope, cache, callset),
        cache.contains_key(id),
        how is SysCall ==> id.module == ProcedureId::KERNEL_PATH@,
    ensures
        cache[id].invoked(how, scope.in_kernel, callset) matches Ok((effect, after)) ==> {
            &&& effect matches Effect::Block(block)
            &&& block_fits(kernel, scope, cache, block, after)
            &&& callset_fits(scope, cache, after)
            &&& linking::included(callset, after)
        },
{
    reveal(ready);
    reveal(coherent);
    reveal(callset_fits);
    reveal(block_fits);
    if !scope.in_kernel {
        lemma_known(kernel, scope, cache);
        linking::lemma_fits_more(cache, reach(scope, cache), kernel, cache[id]);
    }
    linking::lemma_invoked(
        reach(scope, cache),
        kernel,
        cache[id],
        how,
        scope.in_kernel,
        callset,
    );
}

/// The scope after a procedure has been compiled in it.
proof fn lemma_scope_with(
    lib: Catalogue,
    kernel: Seq<Digest>,
    scope: Scope,
    cache: Map<ProcId, SpecProc>,
    proc: SpecProc,
)
    requires
        ready(lib, kernel, scope, cache),
        proc.id.module == scope.active.last(),
        !scope.defines(proc.id),
        block_fits(kernel, scope, cache, proc.root, proc.callset),
        callset_fits(scope, cache, proc.callset),
    ensures
        ready(lib, kernel, scope.with(proc), cache),
        linking::grows(reach(scope, cache), reach(scope.with(proc), cache)),
{
    reveal(ready);
    reveal(coherent);
    reveal(callset_fits);
    reveal(block_fits);
    let next = scope.with(proc);
    if !scope.in_kernel {
        lemma_known(kernel, scope, cache);
    }
    assert(next.procs.drop_last() =~= scope.procs);
    if !scope.in_kernel {
        assert forall|id: ProcId| #[trigger] scope.known(cache).contains_key(id) implies next.known(
            cache,
        ).contains_key(id) && next.known(cache)[id] == scope.known(cache)[id] by {
            if id == proc.id {
                assert(scope.active.contains(scope.active.last())) by {
                    assert(scope.active[scope.active.len() - 1] == scope.active.last());
                }
                assert(!cache.contains_key(id));
            }
        }
    }
    assert(linking::grows(reach(scope, cache), reach(next, cache)));
    assert forall|i: int| 0 <= i < next.procs.len() implies linking::fits(
        reach(next, cache),
        kernel,
        #[trigger] next.procs[i],
    ) by {
        if i < scope.procs.len() {
            assert(next.procs[i] == scope.procs[i]);
        } else {
            assert(next.procs[i] == proc);
        }
        linking::lemma_fits_more(
            reach(scope, cache),
            reach(next, cache),
            kernel,
            next.procs[i],
        );
    }
    assert forall|i: int, j: int| 0 <= i < j < next.procs.len() implies (
    #[trigger] next.procs[i]).id != (#[trigger] next.procs[j]).id by {
        assert(next.procs[i] == scope.procs[i]);
        if j == scope.procs.len() {
            assert(next.procs[j] == proc);
        } else {
            assert(next.procs[j] == scope.procs[j]);
        }
    }
    assert forall|i: int| 0 <= i < next.procs.len() implies (#[trigger] next.procs[i]).id.module
        == next.active.last() by {
        if i < scope.procs.len() {
            assert(next.procs[i] == scope.procs[i]);
        }
    }
}

/// What giving the procedures of a module to the cache keeps.
proof fn lemma_publish(
    lib: Catalogue,
    kernel: Seq<Digest>,
    scope: Scope,
    cache: Map<ProcId, SpecProc>,
    callset: Seq<ProcId>,
)
    requires
        ready(lib, kernel, scope, cache),
        callset_fits(scope, cache, callset),
        collects(scope.procs, callset),
        scope.active.last() != ProcedureId::KERNEL_PATH@,
        scope.active.last() != ProcedureId::PROGRAM_PATH@,
    ensures
        ({
            let after = Catalogue::published(cache, scope.procs, callset);
            &&& linking::grows(cache, after)
            &&& wired(kernel, base(scope.active, after), after)
            &&& forall|id: ProcId| #[trigger]
                after.contains_key(id) && !cache.contains_key(id) ==> id.module
                    == scope.active.last()
        }),
{
    reveal(ready);
    reveal(coherent);
    reveal(callset_fits);
    let procs = scope.procs;
    let after = Catalogue::published(cache, procs, callset);
    catalogues::lemma_published(cache, procs, callset);
    steady::lemma_published_values(cache, procs, callset);
    assert(scope.active.contains(scope.active.last())) by {
        assert(scope.active[scope.active.len() - 1] == scope.active.last());
    }
    if !scope.in_kernel {
        lemma_known(kernel, scope, cache);
    }
    assert(linking::grows(base(scope.active, cache), base(scope.active, after)));
    assert forall|id: ProcId| #[trigger] after.contains_key(id) implies {
        &&& after[id].id == id
        &&& linking::fits(base(scope.active, after), kernel, after[id])
        &&& id.module != ProcedureId::PROGRAM_PATH@
    } by {
        if cache.contains_key(id) {
            linking::lemma_fits_more(
                base(scope.active, cache),
                base(scope.active, after),
                kernel,
                cache[id],
            );
        } else {
            let i = choose|i: int|
                0 <= i < procs.len() && (#[trigger] procs[i]).id == id && (procs[i].is_export
                    || callset.contains(id)) && after[id] == procs[i];
            let proc = procs[i];
            if scope.in_kernel {
                linking::lemma_fits_more(
                    reach(scope, cache),
                    base(scope.active, after),
                    kernel,
                    proc,
                );
            } else {
                assert forall|other: ProcId| #[trigger] proc.callset.contains(other) implies
                    after.contains_key(other) && after[other] == reach(scope, cache)[other] by {
                    assert(callset.contains(other));
                    assert(reach(scope, cache).contains_key(other));
                    if !cache.contains_key(other) {
                        assert(scope.defines(other));
                        let j = choose|j: int|
                            0 <= j < procs.len() && (#[trigger] procs[j]).id == other;
                        assert(after[procs[j].id] == procs[j]);
                    }
                }
                linking::lemma_fits_elsewhere(reach(scope, cache), after, kernel, proc);
            }
        }
    }
}

/// The cache after the procedures of a module of the catalogue have been put into it.
proof fn lemma_publish_module(
    lib: Catalogue,
    kernel: Seq<Digest>,
    in_kernel: bool,
    active: Seq<Seq<char>>,
    cache: Map<ProcId, SpecProc>,
    path: Seq<char>,
    compiled: Seq<SpecProc>,
    callset: Seq<ProcId>,
)
    requires
        !active.contains(path),
        path != ProcedureId::KERNEL_PATH@,
        path != ProcedureId::PROGRAM_PATH@,
        ({
            let scope = Scope { in_kernel, active: active.push(path), procs: compiled };
            &&& ready(lib, kernel, scope, cache)
            &&& callset_fits(scope, cache, callset)
        }),
        collects(compiled, callset),
        steady::steady(lib, Catalogue::published(cache, compiled, callset)),
    ensures
        coherent(lib, kernel, active, Catalogue::published(cache, compiled, callset)),
{
    let scope = Scope { in_kernel, active: active.push(path), procs: compiled };
    let after = Catalogue::published(cache, compiled, callset);
    lemma_publish(lib, kernel, scope, cache, callset);
    reveal(ready);
    reveal(coherent);
    lemma_active(active, path);
    assert forall|id: ProcId| #[trigger] after.contains_key(id) implies {
        ||| id.module == ProcedureId::KERNEL_PATH@
        ||| !active.contains(id.module)
    } by {
        if cache.contains_key(id) && active.contains(id.module) {
            assert(scope.active.contains(id.module));
        }
    }
}

/// The paths of the modules in progress when one more is entered.
proof fn lemma_active(active: Seq<Seq<char>>, path: Seq<char>)
    ensures
        forall|other: Seq<char>| #[trigger]
            active.push(path).contains(other) <==> active.contains(other) || other == path,
{
    let longer = active.push(path);
    assert(longer[active.len() as int] == path);
    assert forall|other: Seq<char>| active.contains(other) implies #[trigger] longer.contains(
        other,
    ) by {
        let i = choose|i: int| 0 <= i < active.len() && active[i] == other;
        assert(longer[i] == other);
    }
}

/// What holds inside a module holds outside of it.
proof fn lemma_coherent_outside(
    lib: Catalogue,
    kernel: Seq<Digest>,
    active: Seq<Seq<char>>,
    path: Seq<char>,
    cache: Map<ProcId, SpecProc>,
)
    requires
        coherent(lib, kernel, active.push(path), cache),
        path != ProcedureId::KERNEL_PATH@,
    ensures
        coherent(lib, kernel, active, cache),
{
    reveal(coherent);
    lemma_active(active, path);
    assert forall|id: ProcId| #[trigger] cache.contains_key(id) implies {
        ||| id.module == ProcedureId::KERNEL_PATH@
        ||| !active.contains(id.module)
    } by {
        if active.contains(id.module) {
            assert(active.push(path).contains(id.module));
        }
    }
}

/// The state in which the first procedure of a module is compiled.
proof fn lemma_enter(
    lib: Catalogue,
    kernel: Seq<Digest>,
    in_kernel: bool,
    active: Seq<Seq<char>>,
    cache: Map<ProcId, SpecProc>,
    path: Seq<char>,
)
    requires
        coherent(lib, kernel, active, cache),
        in_kernel == active.contains(ProcedureId::KERNEL_PATH@),
        path != ProcedureId::KERNEL_PATH@,
        forall|id: ProcId| #[trigger] cache.contains_key(id) ==> id.module != path,
    ensures
        ({
            let scope = Scope { in_kernel, active: active.push(path), procs: Seq::empty() };
            &&& ready(lib, kernel, scope, cache)
            &&& callset_fits(scope, cache, Seq::empty())
        }),
{
    reveal(ready);
    reveal(coherent);
    reveal(callset_fits);
    lemma_active(active, path);
}

/// Compiling the nodes of a body keeps what has to be kept.
proof fn lemma_nodes(
    lib: Catalogue,
    kernel: Seq<Digest>,
    scope: Scope,
    cache: Map<ProcId, SpecProc>,
    progress: Progress,
    nodes: Seq<SpecNode>,
)
    requires
        ready(lib, kernel, scope, cache),
        progress_fits(kernel, scope, cache, progress),
    ensures
        ({
            let outcome = lib.nodes(scope, cache, progress, nodes);
            &&& ready(lib, kernel, scope, outcome.0)
            &&& linking::grows(cache, outcome.0)
            &&& outcome.1 matches Ok(end) ==> {
                &&& progress_fits(kernel, scope, outcome.0, end)
                &&& linking::included(progress.callset, end.callset)
            }
        }),
    decreases lib.remaining(scope.active), 4nat, nodes, 0nat,
{
    let none = Seq::<Operation>::empty();
    let start = cache;
    if nodes.len() > 0 {
        let rest = nodes.drop_first();
        lemma_progress_callset(kernel, scope, cache, progress);
        match nodes[0] {
            SpecNode::Instruction(instruction) => {
                lemma_instruction(lib, kernel, scope, cache, progress.callset, instruction);
                match lib.instruction(scope, cache, progress.callset, instruction) {
                    (_, Err(_)) => {},
                    (cache, Ok((effect, callset))) => {
                        lemma_after(kernel, scope, start, cache, progress, effect, callset);
                        lemma_nodes(
                            lib,
                            kernel,
                            scope,
                            cache,
                            progress.after(effect, callset),
                            rest,
                        );
                    },
                }
            },
            SpecNode::IfElse(on_true, on_false) => {
                lemma_body(lib, kernel, scope, cache, progress.callset, none, on_true, none);
                match lib.body(scope, cache, progress.callset, none, on_true, none) {
                    (_, Err(_)) => {},
                    (cache, Ok((true_block, callset))) => {
                        if on_false.len() == 0 {
                            let split = Mast::Split(Box::new(true_block), Box::new(Mast::noop()));
                            lemma_noop(kernel, scope, cache, callset);
                            lemma_compound(
                                kernel,
                                scope,
                                cache,
                                true_block,
                                Mast::noop(),
                                callset,
                            );
                            lemma_step(kernel, scope, start, cache, progress, split, 0, callset);
                            lemma_nodes(
                                lib,
                                kernel,
                                scope,
                                cache,
                                progress.followed_by(split, callset),
                                rest,
                            );
                        } else {
                            let middle = cache;
                            let between = callset;
                            lemma_body(lib, kernel, scope, cache, callset, none, on_false, none);
                            match lib.body(scope, cache, callset, none, on_false, none) {
                                (_, Err(_)) => {},
                                (cache, Ok((false_block, callset))) => {
                                    let split = Mast::Split(
                                        Box::new(true_block),
                                        Box::new(false_block),
                                    );
                                    lemma_block_grows(
                                        kernel,
                                        scope,
                                        middle,
                                        cache,
                                        true_block,
                                        between,
                                        callset,
                                    );
                                    lemma_compound(
                                        kernel,
                                        scope,
                                        cache,
                                        true_block,
                                        false_block,
                                        callset,
                                    );
                                    lemma_step(
                                        kernel,
                                        scope,
                                        start,
                                        cache,
                                        progress,
                                        split,
                                        0,
                                        callset,
                                    );
                                    lemma_nodes(
                                        lib,
                                        kernel,
                                        scope,
                                        cache,
                                        progress.followed_by(split, callset),
                                        rest,
                                    );
                                },
                            }
                        }
                    },
                }
            },
            SpecNode::Repeat(count, body) => {
                lemma_body(lib, kernel, scope, cache, progress.callset, none, body, none);
                match lib.body(scope, cache, progress.callset, none, body, none) {
                    (_, Err(_)) => {},
                    (cache, Ok((block, callset))) => {
                        lemma_step(
                            kernel,
                            scope,
                            start,
                            cache,
                            progress,
                            block,
                            count as nat,
                            callset,
                        );
                        lemma_nodes(
                            lib,
                            kernel,
                            scope,
                            cache,
                            progress.repeated(block, count as nat, callset),
                            rest,
                        );
                    },
                }
            },
            SpecNode::While(body) => {
                lemma_body(lib, kernel, scope, cache, progress.callset, none, body, none);
                match lib.body(scope, cache, progress.callset, none, body, none) {
                    (_, Err(_)) => {},
                    (cache, Ok((block, callset))) => {
                        let repeated = Mast::Loop(Box::new(block));
                        lemma_compound(kernel, scope, cache, block, block, callset);
                        lemma_step(kernel, scope, start, cache, progress, repeated, 0, callset);
                        lemma_nodes(
                            lib,
                            kernel,
                            scope,
                            cache,
                            progress.followed_by(repeated, callset),
                            rest,
                        );
                    },
                }
            },
        }
    }
}

/// The callset of what has been collected is as it should be.
proof fn lemma_progress_callset(
    kernel: Seq<Digest>,
    scope: Scope,
    cache: Map<ProcId, SpecProc>,
    progress: Progress,
)
    requires
        progress_fits(kernel, scope, cache, progress),
    ensures
        callset_fits(scope, cache, progress.callset),
{
    reveal(progress_fits);
    reveal(callset_fits);
}

/// Compiling a body keeps what has to be kept.
pub(crate) proof fn lemma_body(
    lib: Catalogue,
    kernel: Seq<Digest>,
    scope: Scope,
    cache: Map<ProcId, SpecProc>,
    callset: Seq<ProcId>,
    prologue: Seq<Operation>,
    nodes: Seq<SpecNode>,
    epilogue: Seq<Operation>,
)
    requires
        ready(lib, kernel, scope, cache),
        callset_fits(scope, cache, callset),
    ensures
        ({
            let outcome = lib.body(scope, cache, callset, prologue, nodes, epilogue);
            &&& ready(lib, kernel, scope, outcome.0)
            &&& linking::grows(cache, outcome.0)
            &&& outcome.1 matches Ok((block, after)) ==> {
                &&& block_fits(kernel, scope, outcome.0, block, after)
                &&& callset_fits(scope, outcome.0, after)
                &&& linking::included(callset, after)
            }
        }),
    decreases lib.remaining(scope.active), 4nat, nodes, 1nat,
{
    let start = Progress { blocks: Seq::empty(), ops: prologue, callset };
    lemma_start(kernel, scope, cache, prologue, callset);
    lemma_nodes(lib, kernel, scope, cache, start, nodes);
    match lib.nodes(scope, cache, start, nodes) {
        (_, Err(_)) => {},
        (cache, Ok(progress)) => {
            lemma_closed_with(kernel, scope, cache, progress, epilogue);
        },
    }
}

/// Compiling an instruction keeps what has to be kept.
proof fn lemma_instruction(
    lib: Catalogue,
    kernel: Seq<Digest>,
    scope: Scope,
    cache: Map<ProcId, SpecProc>,
    callset: Seq<ProcId>,
    instruction: SpecInstruction,
)
    requires
        ready(lib, kernel, scope, cache),
        callset_fits(scope, cache, callset),
    ensures
        ({
            let outcome = lib.instruction(scope, cache, callset, instruction);
            &&& ready(lib, kernel, scope, outcome.0)
            &&& linking::grows(cache, outcome.0)
            &&& outcome.1 matches Ok((effect, after)) ==> {
                &&& effect matches Effect::Block(block) ==> block_fits(
                    kernel,
                    scope,
                    outcome.0,
                    block,
                    after,
                )
                &&& callset_fits(scope, outcome.0, after)
                &&& linking::included(callset, after)
            }
        }),
    decreases lib.remaining(scope.active), 3nat, Seq::<SpecNode>::empty(), 0nat,
{
    match instruction {
        SpecInstruction::Add => {},
        SpecInstruction::Push(_) => {},
        SpecInstruction::ExecLocal(index) => {
            lemma_local(lib, kernel, scope, cache, index, Invocation::Exec, callset);
        },
        SpecInstruction::CallLocal(index) => {
            lemma_local(lib, kernel, scope, cache, index, Invocation::Call, callset);
        },
        SpecInstruction::ExecImported(id) => {
            lemma_imported(lib, kernel, scope, cache, id);
            let after = lib.imported(scope, cache, id);
            if after.1 is Ok {
                lemma_callset_grows(scope, cache, after.0, callset);
                lemma_cached(lib, kernel, scope, after.0, id, Invocation::Exec, callset);
            }
        },
        SpecInstruction::CallImported(id) => {
            lemma_imported(lib, kernel, scope, cache, id);
            let after = lib.imported(scope, cache, id);
            if after.1 is Ok {
                lemma_callset_grows(scope, cache, after.0, callset);
                lemma_cached(lib, kernel, scope, after.0, id, Invocation::Call, callset);
            }
        },
        SpecInstruction::SysCall(name) => {
            let id = ProcId { module: ProcedureId::KERNEL_PATH@, name };
            if cache.contains_key(id) {
                lemma_cached(lib, kernel, scope, cache, id, Invocation::SysCall, callset);
            }
        },
    }
}

/// Looking for a procedure of another module keeps what has to be kept.
proof fn lemma_imported(
    lib: Catalogue,
    kernel: Seq<Digest>,
    scope: Scope,
    cache: Map<ProcId, SpecProc>,
    id: ProcId,
)
    requires
        ready(lib, kernel, scope, cache),
    ensures
        ({
            let outcome = lib.imported(scope, cache, id);
            &&& ready(lib, kernel, scope, outcome.0)
            &&& linking::grows(cache, outcome.0)
            &&& outcome.1 matches Ok(proc) ==> outcome.0.contains_key(id) && outcome.0[id] == proc
        }),
    decreases lib.remaining(scope.active), 2nat, Seq::<SpecNode>::empty(), 0nat,
{
    lemma_ready_is_coherent(lib, kernel, scope, cache);
    if !cache.contains_key(id) {
        match (lib.lookup)(id) {
            None => {},
            Some(module) => {
                let served = lib.paths.finite() && lib.paths.contains(module.path);
                if scope.active.contains(module.path) || served {
                    lib.lemma_remaining(scope.active, module.path);
                    let after = lib.module(
                        scope.in_kernel,
                        scope.active,
                        cache,
                        module.path,
                        module.procs,
                    ).0;
                    if exists|other: ProcId| #[trigger]
                        cache.contains_key(other) && other.module == module.path {
                        assert(steady::steady(lib, cache)) by {
                            reveal(coherent);
                        }
                        steady::lemma_nothing_to_add(
                            lib,
                            scope.in_kernel,
                            scope.active,
                            cache,
                            id,
                        );
                    } else {
                        assert(scope.in_kernel == scope.active.contains(
                            ProcedureId::KERNEL_PATH@,
                        )) by {
                            reveal(ready);
                        }
                        lemma_module(lib, kernel, scope.in_kernel, scope.active, cache, id);
                        lemma_ready_grows(lib, kernel, scope, cache, after);
                    }
                }
            },
        }
    }
}

/// What holds in a scope holds of the cache.
pub(crate) proof fn lemma_ready_is_coherent(
    lib: Catalogue,
    kernel: Seq<Digest>,
    scope: Scope,
    cache: Map<ProcId, SpecProc>,
)
    requires
        ready(lib, kernel, scope, cache),
    ensures
        coherent(lib, kernel, scope.active, cache),
{
    reveal(ready);
}

/// Compiling a module of which the cache has nothing yet keeps what has to be kept.
proof fn lemma_module(
    lib: Catalogue,
    kernel: Seq<Digest>,
    in_kernel: bool,
    active: Seq<Seq<char>>,
    cache: Map<ProcId, SpecProc>,
    id: ProcId,
)
    requires
        coherent(lib, kernel, active, cache),
        in_kernel == active.contains(ProcedureId::KERNEL_PATH@),
        (lib.lookup)(id) is Some,
        forall|other: ProcId| #[trigger]
            cache.contains_key(other) ==> other.module != (lib.lookup)(id)->0.path,
    ensures
        ({
            let module = (lib.lookup)(id)->0;
            let outcome = lib.module(in_kernel, active, cache, module.path, module.procs);
            &&& coherent(lib, kernel, active, outcome.0)
            &&& linking::grows(cache, outcome.0)
        }),
    decreases
            if active.contains((lib.lookup)(id)->0.path) {
                lib.remaining(active)
            } else {
                lib.remaining(active.push((lib.lookup)(id)->0.path))
            },
            if active.contains((lib.lookup)(id)->0.path) {
                1nat
            } else {
                7nat
            },
            Seq::<SpecNode>::empty(),
            0nat,
{
    let path = (lib.lookup)(id)->0.path;
    let procs = (lib.lookup)(id)->0.procs;
    assert(steady::steady(lib, cache)) by {
        reveal(coherent);
    }
    steady::lemma_module_steady(lib, in_kernel, active, cache, id);
    steady::lemma_advances_means(
        lib,
        cache,
        lib.module(in_kernel, active, cache, path, procs).0,
    );
    if !active.contains(path) {
        let none = Seq::<ProcId>::empty();
        let scope = Scope { in_kernel, active: active.push(path), procs: Seq::empty() };
        assert(path != ProcedureId::KERNEL_PATH@ && path != ProcedureId::PROGRAM_PATH@) by {
            reveal(steady::steady);
            assert((lib.lookup)(id) is Some);
        }
        lemma_enter(lib, kernel, in_kernel, active, cache, path);
        lemma_procedures(lib, kernel, scope, cache, none, procs);
        match lib.procedures(scope, cache, none, procs) {
            (inner, Err(_)) => {
                lemma_coherent_outside(lib, kernel, active, path, inner);
            },
            (inner, Ok((compiled, callset))) => {
                lemma_publish_module(
                    lib,
                    kernel,
                    in_kernel,
                    active,
                    inner,
                    path,
                    compiled,
                    callset,
                );
            },
        }
    }
}

/// Compiling the procedures of a module keeps what has to be kept.
pub(crate) proof fn lemma_procedures(
    lib: Catalogue,
    kernel: Seq<Digest>,
    scope: Scope,
    cache: Map<ProcId, SpecProc>,
    callset: Seq<ProcId>,
    procs: Seq<SpecProcAst>,
)
    requires
        ready(lib, kernel, scope, cache),
        callset_fits(scope, cache, callset),
        collects(scope.procs, callset),
    ensures
        ({
            let outcome = lib.procedures(scope, cache, callset, procs);
            &&& coherent(lib, kernel, scope.active, outcome.0)
            &&& linking::grows(cache, outcome.0)
            &&& outcome.1 matches Ok((compiled, after)) ==> {
                let end = Scope { procs: compiled, ..scope };
                &&& ready(lib, kernel, end, outcome.0)
                &&& callset_fits(end, outcome.0, after)
                &&& collects(compiled, after)
            }
        }),
    decreases lib.remaining(scope.active), 6nat, Seq::<SpecNode>::empty(), procs.len(),
{
    lemma_ready_is_coherent(lib, kernel, scope, cache);
    if procs.len() > 0 {
        let start = cache;
        lemma_procedure(lib, kernel, scope, cache, procs[0]);
        match lib.procedure(scope, cache, procs[0]) {
            (_, Err(_)) => {},
            (cache, Ok(proc)) => {
                lemma_callset_with(lib, kernel, scope, start, cache, callset, proc);
                lemma_procedures(
                    lib,
                    kernel,
                    scope.with(proc),
                    cache,
                    CallSet::merging(callset, proc.callset),
                    procs.drop_first(),
                );
            },
        }
    }
}

/// The callset of a module after one more procedure has been compiled.
pub(crate) proof fn lemma_callset_with(
    lib: Catalogue,
    kernel: Seq<Digest>,
    scope: Scope,
    first: Map<ProcId, SpecProc>,
    second: Map<ProcId, SpecProc>,
    callset: Seq<ProcId>,
    proc: SpecProc,
)
    requires
        callset_fits(scope, first, callset),
        collects(scope.procs, callset),
        linking::grows(first, second),
        linking::grows(reach(scope, second), reach(scope.with(proc), second)),
        callset_fits(scope, second, proc.callset),
    ensures
        callset_fits(scope.with(proc), second, CallSet::merging(callset, proc.callset)),
        collects(scope.with(proc).procs, CallSet::merging(callset, proc.callset)),
{
    let merged = CallSet::merging(callset, proc.callset);
    let next = scope.with(proc);
    lemma_callset_grows(scope, first, second, callset);
    reveal(callset_fits);
    linking::lemma_closed_merging(reach(scope, second), callset, proc.callset);
    linking::lemma_closed_more(reach(scope, second), reach(next, second), merged);
    assert forall|i: int| 0 <= i < next.procs.len() implies linking::included(
        (#[trigger] next.procs[i]).callset,
        merged,
    ) by {
        if i < scope.procs.len() {
            assert(next.procs[i] == scope.procs[i]);
            assert(linking::included(scope.procs[i].callset, callset));
        } else {
            assert(next.procs[i] == proc);
        }
    }
}

/// Compiling a procedure keeps what has to be kept.
pub(crate) proof fn lemma_procedure(
    lib: Catalogue,
    kernel: Seq<Digest>,
    scope: Scope,
    cache: Map<ProcId, SpecProc>,
    proc: SpecProcAst,
)
    requires
        ready(lib, kernel, scope, cache),
    ensures
        ({
            let outcome = lib.procedure(scope, cache, proc);
            &&& coherent(lib, kernel, scope.active, outcome.0)
            &&& linking::grows(cache, outcome.0)
            &&& outcome.1 matches Ok(compiled) ==> {
                &&& ready(lib, kernel, scope.with(compiled), outcome.0)
                &&& callset_fits(scope, outcome.0, compiled.callset)
                &&& linking::grows(
                    reach(scope, outcome.0),
                    reach(scope.with(compiled), outcome.0),
                )
            }
        }),
    decreases lib.remaining(scope.active), 5nat, Seq::<SpecNode>::empty(), 0nat,
{
    let none = Seq::<ProcId>::empty();
    lemma_ready_is_coherent(lib, kernel, scope, cache);
    lemma_empty_callset(scope, cache);
    lemma_body(
        lib,
        kernel,
        scope,
        cache,
        none,
        proc.prologue(),
        proc.body,
        proc.epilogue(),
    );
    match lib.procedure(scope, cache, proc) {
        (after, Err(_)) => {
            if after != cache {
                lemma_ready_is_coherent(lib, kernel, scope, after);
            }
        },
        (after, Ok(compiled)) => {
            lemma_ready_is_coherent(lib, kernel, scope, after);
            lemma_scope_with(lib, kernel, scope, after, compiled);
        },
    }
}

/// The empty callset is as it should be.
pub(crate) proof fn lemma_empty_callset(scope: Scope, cache: Map<ProcId, SpecProc>)
    ensures
        callset_fits(scope, cache, Seq::empty()),
{
    reveal(callset_fits);
}

} // verus!
