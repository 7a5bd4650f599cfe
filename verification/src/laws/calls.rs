//! What modules give to the cache.
use vstd::prelude::*;

use crate::assembler::SpecAssembler;
use crate::ast::{SpecInstruction, SpecModule, SpecNode, SpecProcAst};
use crate::code_block::Mast;
use crate::laws::{catalogues, linking, origins, soundness, steady};
use crate::operation::Operation;
use crate::parsers::parser::SpecReader;
use crate::procedure::{CallSet, ProcId, ProcedureId, SpecProc};
use crate::semantics::{Catalogue, Invocation, Progress, Scope};

verus! {

/// True if each procedure of the second cache is in the first one, or is given by a module which
/// is served.
pub open spec fn provides(
    lib: Catalogue,
    first: Map<ProcId, SpecProc>,
    second: Map<ProcId, SpecProc>,
) -> bool {
    forall|id: ProcId| #[trigger]
        second.contains_key(id) ==> first.contains_key(id) || lib.gives(id)
}

/// What holds of the cache while the modules at the paths in `active` are compiled: its procedures
/// are there under their identifiers, what they call is in it too, and nothing of those modules
/// is.
#[verifier::opaque]
spec fn enclosed(
    lib: Catalogue,
    active: Seq<Seq<char>>,
    cache: Map<ProcId, SpecProc>,
) -> bool {
    &&& steady::steady(lib, cache)
    &&& steady::avoids(cache, active)
    &&& origins::labelled(cache)
    &&& forall|id: ProcId, other: ProcId|
        cache.contains_key(id) && #[trigger] cache[id].callset.contains(other)
            ==> cache.contains_key(other)
}

/// True if the procedures in the callset are in the cache, or are procedures of the innermost
/// module which the given module calls.
#[verifier::opaque]
spec fn accounted(
    own: Option<SpecModule>,
    scope: Scope,
    cache: Map<ProcId, SpecProc>,
    callset: Seq<ProcId>,
) -> bool {
    forall|id: ProcId| #[trigger]
        callset.contains(id) ==> {
            ||| cache.contains_key(id)
            ||| scope.defines(id) && (own matches Some(module) ==> module.calls_name(id.name))
        }
}

/// What holds while code of the given module is compiled.
#[verifier::opaque]
spec fn framed(
    lib: Catalogue,
    own: Option<SpecModule>,
    scope: Scope,
    cache: Map<ProcId, SpecProc>,
) -> bool {
    &&& !scope.in_kernel
    &&& scope.active.len() > 0
    &&& enclosed(lib, scope.active, cache)
    &&& forall|i: int|
        0 <= i < scope.procs.len() ==> {
            &&& accounted(own, scope, cache, (#[trigger] scope.procs[i]).callset)
            &&& own matches Some(module) ==> {
                &&& i < module.procs.len()
                &&& scope.procs[i].id.name == module.procs[i].name
            }
        }
}

/// True if whatever the nodes call is called by the given module.
spec fn belongs(own: Option<SpecModule>, nodes: Seq<SpecNode>) -> bool {
    own matches Some(module) ==> forall|index: u16|
        #![trigger steady::nodes_call(nodes, index)]
        steady::nodes_call(nodes, index) ==> module.calls(index)
}

/// Parts of the code of a module belong to it.
proof fn lemma_belongs(own: Option<SpecModule>, nodes: Seq<SpecNode>)
    requires
        nodes.len() > 0,
        belongs(own, nodes),
    ensures
        belongs(own, nodes.drop_first()),
        match nodes[0] {
            SpecNode::Instruction(instruction) => own matches Some(module) ==> (
            instruction matches SpecInstruction::CallLocal(index) ==> module.calls(index)),
            SpecNode::IfElse(on_true, on_false) => belongs(own, on_true) && belongs(own, on_false),
            SpecNode::Repeat(_, body) => belongs(own, body),
            SpecNode::While(body) => belongs(own, body),
        },
{
    if let Some(module) = own {
        assert forall|index: u16|
            #![trigger steady::nodes_call(nodes.drop_first(), index)]
            steady::nodes_call(nodes.drop_first(), index) implies module.calls(index) by {
            assert(steady::nodes_call(nodes, index));
        }
        match nodes[0] {
            SpecNode::Instruction(instruction) => {
                if let SpecInstruction::CallLocal(index) = instruction {
                    assert(steady::nodes_call(nodes, index));
                }
            },
            SpecNode::IfElse(on_true, on_false) => {
                assert forall|index: u16|
                    #![trigger steady::nodes_call(on_true, index)]
                    steady::nodes_call(on_true, index) implies module.calls(index) by {
                    assert(steady::nodes_call(nodes, index));
                }
                assert forall|index: u16|
                    #![trigger steady::nodes_call(on_false, index)]
                    steady::nodes_call(on_false, index) implies module.calls(index) by {
                    assert(steady::nodes_call(nodes, index));
                }
            },
            SpecNode::Repeat(_, body) => {
                assert forall|index: u16|
                    #![trigger steady::nodes_call(body, index)]
                    steady::nodes_call(body, index) implies module.calls(index) by {
                    assert(steady::nodes_call(nodes, index));
                }
            },
            SpecNode::While(body) => {
                assert forall|index: u16|
                    #![trigger steady::nodes_call(body, index)]
                    steady::nodes_call(body, index) implies module.calls(index) by {
                    assert(steady::nodes_call(nodes, index));
                }
            },
        }
    }
}

/// Caches provide what was there from step to step.
proof fn lemma_provides(
    lib: Catalogue,
    first: Map<ProcId, SpecProc>,
    second: Map<ProcId, SpecProc>,
    third: Map<ProcId, SpecProc>,
)
    requires
        provides(lib, first, second),
        provides(lib, second, third),
    ensures
        provides(lib, first, third),
{
}

/// What a callset holds is accounted for in a larger cache.
proof fn lemma_accounted_more(
    own: Option<SpecModule>,
    scope: Scope,
    first: Map<ProcId, SpecProc>,
    second: Map<ProcId, SpecProc>,
    callset: Seq<ProcId>,
)
    requires
        accounted(own, scope, first, callset),
        linking::grows(first, second),
    ensures
        accounted(own, scope, second, callset),
{
    reveal(accounted);
}

/// What holds in a scope holds of the cache.
proof fn lemma_framed_means(
    lib: Catalogue,
    own: Option<SpecModule>,
    scope: Scope,
    cache: Map<ProcId, SpecProc>,
)
    requires
        framed(lib, own, scope, cache),
    ensures
        !scope.in_kernel,
        enclosed(lib, scope.active, cache),
        steady::steady(lib, cache),
{
    reveal(framed);
    reveal(enclosed);
}

/// What holds in a scope still does when the cache grows.
proof fn lemma_framed_more(
    lib: Catalogue,
    own: Option<SpecModule>,
    scope: Scope,
    first: Map<ProcId, SpecProc>,
    second: Map<ProcId, SpecProc>,
)
    requires
        framed(lib, own, scope, first),
        linking::grows(first, second),
        enclosed(lib, scope.active, second),
    ensures
        framed(lib, own, scope, second),
{
    reveal(framed);
    reveal(accounted);
}

/// The callset after a procedure of the module has been used.
proof fn lemma_local(
    lib: Catalogue,
    own: Option<SpecModule>,
    scope: Scope,
    cache: Map<ProcId, SpecProc>,
    index: u16,
    how: Invocation,
    callset: Seq<ProcId>,
)
    requires
        framed(lib, own, scope, cache),
        accounted(own, scope, cache, callset),
        how is Exec || (own matches Some(module) ==> module.calls(index)),
    ensures
        scope.local(index, how, callset) matches Ok((_, after)) ==> accounted(
            own,
            scope,
            cache,
            after,
        ),
{
    reveal(framed);
    reveal(accounted);
    if index < scope.procs.len() {
        let proc = scope.procs[index as int];
        let merged = CallSet::merging(callset, proc.callset);
        assert(accounted(own, scope, cache, proc.callset));
        linking::lemma_merging(callset, proc.callset);
        linking::lemma_adding(merged, proc.id);
        assert(scope.defines(proc.id));
        if let Some(module) = own {
            if module.calls(index) {
                assert(module.procs[index as int].name == proc.id.name);
                assert(module.calls_name(proc.id.name));
            }
        }
    }
}

/// The callset after a procedure in the cache has been used.
proof fn lemma_cached(
    lib: Catalogue,
    own: Option<SpecModule>,
    scope: Scope,
    cache: Map<ProcId, SpecProc>,
    id: ProcId,
    how: Invocation,
    callset: Seq<ProcId>,
)
    requires
        enclosed(lib, scope.active, cache),
        accounted(own, scope, cache, callset),
        cache.contains_key(id),
    ensures
        cache[id].invoked(how, scope.in_kernel, callset) matches Ok((_, after)) ==> accounted(
            own,
            scope,
            cache,
            after,
        ),
{
    reveal(enclosed);
    reveal(accounted);
    let proc = cache[id];
    let merged = CallSet::merging(callset, proc.callset);
    linking::lemma_merging(callset, proc.callset);
    linking::lemma_adding(merged, proc.id);
}

/// What is given to the cache while the nodes of a body are compiled.
proof fn lemma_nodes_given(
    lib: Catalogue,
    own: Option<SpecModule>,
    scope: Scope,
    cache: Map<ProcId, SpecProc>,
    progress: Progress,
    nodes: Seq<SpecNode>,
)
    requires
        framed(lib, own, scope, cache),
        accounted(own, scope, cache, progress.callset),
        belongs(own, nodes),
    ensures
        ({
            let outcome = lib.nodes(scope, cache, progress, nodes);
            &&& framed(lib, own, scope, outcome.0)
            &&& provides(lib, cache, outcome.0)
            &&& outcome.1 matches Ok(end) ==> accounted(own, scope, outcome.0, end.callset)
        }),
    decreases lib.remaining(scope.active), 4nat, nodes, 0nat,
{
    let none = Seq::<Operation>::empty();
    let start = cache;
    let end = lib.nodes(scope, cache, progress, nodes).0;
    if nodes.len() > 0 {
        let rest = nodes.drop_first();
        lemma_belongs(own, nodes);
        match nodes[0] {
            SpecNode::Instruction(instruction) => {
                lemma_instruction_given(lib, own, scope, cache, progress.callset, instruction);
                match lib.instruction(scope, cache, progress.callset, instruction) {
                    (_, Err(_)) => {},
                    (cache, Ok((effect, callset))) => {
                        lemma_nodes_given(
                            lib,
                            own,
                            scope,
                            cache,
                            progress.after(effect, callset),
                            rest,
                        );
                        lemma_provides(lib, start, cache, end);
                    },
                }
            },
            SpecNode::IfElse(on_true, on_false) => {
                lemma_body_given(lib, own, scope, cache, progress.callset, none, on_true, none);
                match lib.body(scope, cache, progress.callset, none, on_true, none) {
                    (_, Err(_)) => {},
                    (cache, Ok((true_block, callset))) => {
                        let middle = cache;
                        if on_false.len() == 0 {
                            let split = Mast::Split(
                                Box::new(true_block),
                                Box::new(Mast::noop()),
                            );
                            lemma_nodes_given(
                                lib,
                                own,
                                scope,
                                cache,
                                progress.followed_by(split, callset),
                                rest,
                            );
                            lemma_provides(lib, start, cache, end);
                        } else {
                            lemma_body_given(lib, own, scope, cache, callset, none, on_false, none);
                            let second = lib.body(scope, cache, callset, none, on_false, none).0;
                            lemma_provides(lib, start, middle, second);
                            match lib.body(scope, cache, callset, none, on_false, none) {
                                (_, Err(_)) => {},
                                (cache, Ok((false_block, callset))) => {
                                    let split = Mast::Split(
                                        Box::new(true_block),
                                        Box::new(false_block),
                                    );
                                    lemma_nodes_given(
                                        lib,
                                        own,
                                        scope,
                                        cache,
                                        progress.followed_by(split, callset),
                                        rest,
                                    );
                                    lemma_provides(lib, start, cache, end);
                                },
                            }
                        }
                    },
                }
            },
            SpecNode::Repeat(count, body) => {
                lemma_body_given(lib, own, scope, cache, progress.callset, none, body, none);
                match lib.body(scope, cache, progress.callset, none, body, none) {
                    (_, Err(_)) => {},
                    (cache, Ok((block, callset))) => {
                        lemma_nodes_given(
                            lib,
                            own,
                            scope,
                            cache,
                            progress.repeated(block, count as nat, callset),
                            rest,
                        );
                        lemma_provides(lib, start, cache, end);
                    },
                }
            },
            SpecNode::While(body) => {
                lemma_body_given(lib, own, scope, cache, progress.callset, none, body, none);
                match lib.body(scope, cache, progress.callset, none, body, none) {
                    (_, Err(_)) => {},
                    (cache, Ok((block, callset))) => {
                        lemma_nodes_given(
                            lib,
                            own,
                            scope,
                            cache,
                            progress.followed_by(
                                Mast::Loop(Box::new(block)),
                                callset,
                            ),
                            rest,
                        );
                        lemma_provides(lib, start, cache, end);
                    },
                }
            },
        }
    }
}

/// What is given to the cache while a body is compiled.
proof fn lemma_body_given(
    lib: Catalogue,
    own: Option<SpecModule>,
    scope: Scope,
    cache: Map<ProcId, SpecProc>,
    callset: Seq<ProcId>,
    prologue: Seq<Operation>,
    nodes: Seq<SpecNode>,
    epilogue: Seq<Operation>,
)
    requires
        framed(lib, own, scope, cache),
        accounted(own, scope, cache, callset),
        belongs(own, nodes),
    ensures
        ({
            let outcome = lib.body(scope, cache, callset, prologue, nodes, epilogue);
            &&& framed(lib, own, scope, outcome.0)
            &&& provides(lib, cache, outcome.0)
            &&& outcome.1 matches Ok((_, after)) ==> accounted(own, scope, outcome.0, after)
        }),
    decreases lib.remaining(scope.active), 4nat, nodes, 1nat,
{
    let start = Progress { blocks: Seq::empty(), ops: prologue, callset };
    lemma_nodes_given(lib, own, scope, cache, start, nodes);
}

/// What is given to the cache while an instruction is compiled.
proof fn lemma_instruction_given(
    lib: Catalogue,
    own: Option<SpecModule>,
    scope: Scope,
    cache: Map<ProcId, SpecProc>,
    callset: Seq<ProcId>,
    instruction: SpecInstruction,
)
    requires
        framed(lib, own, scope, cache),
        accounted(own, scope, cache, callset),
        own matches Some(module) ==> (instruction matches SpecInstruction::CallLocal(index)
            ==> module.calls(index)),
    ensures
        ({
            let outcome = lib.instruction(scope, cache, callset, instruction);
            &&& framed(lib, own, scope, outcome.0)
            &&& provides(lib, cache, outcome.0)
            &&& outcome.1 matches Ok((_, after)) ==> accounted(own, scope, outcome.0, after)
        }),
    decreases lib.remaining(scope.active), 3nat, Seq::<SpecNode>::empty(), 0nat,
{
    lemma_framed_means(lib, own, scope, cache);
    match instruction {
        SpecInstruction::Add => {},
        SpecInstruction::Push(_) => {},
        SpecInstruction::ExecLocal(index) => {
            lemma_local(lib, own, scope, cache, index, Invocation::Exec, callset);
        },
        SpecInstruction::CallLocal(index) => {
            lemma_local(lib, own, scope, cache, index, Invocation::Call, callset);
        },
        SpecInstruction::ExecImported(id) => {
            lemma_imported_given(lib, own, scope, cache, id);
            let after = lib.imported(scope, cache, id).0;
            if after.contains_key(id) {
                lemma_framed_means(lib, own, scope, after);
                lemma_accounted_more(own, scope, cache, after, callset);
                lemma_cached(lib, own, scope, after, id, Invocation::Exec, callset);
            }
        },
        SpecInstruction::CallImported(id) => {
            lemma_imported_given(lib, own, scope, cache, id);
            let after = lib.imported(scope, cache, id).0;
            if after.contains_key(id) {
                lemma_framed_means(lib, own, scope, after);
                lemma_accounted_more(own, scope, cache, after, callset);
                lemma_cached(lib, own, scope, after, id, Invocation::Call, callset);
            }
        },
        SpecInstruction::SysCall(name) => {
            let id = ProcId { module: ProcedureId::KERNEL_PATH@, name };
            if cache.contains_key(id) {
                lemma_cached(lib, own, scope, cache, id, Invocation::SysCall, callset);
            }
        },
    }
}

/// What is given to the cache while a procedure of another module is looked for.
proof fn lemma_imported_given(
    lib: Catalogue,
    own: Option<SpecModule>,
    scope: Scope,
    cache: Map<ProcId, SpecProc>,
    id: ProcId,
)
    requires
        framed(lib, own, scope, cache),
    ensures
        ({
            let outcome = lib.imported(scope, cache, id);
            &&& framed(lib, own, scope, outcome.0)
            &&& linking::grows(cache, outcome.0)
            &&& provides(lib, cache, outcome.0)
        }),
    decreases lib.remaining(scope.active), 2nat, Seq::<SpecNode>::empty(), 0nat,
{
    lemma_framed_means(lib, own, scope, cache);
    if !cache.contains_key(id) {
        match (lib.lookup)(id) {
            None => {},
            Some(module) => {
                let served = lib.paths.finite() && lib.paths.contains(module.path);
                if scope.active.contains(module.path) || served {
                    lib.lemma_remaining(scope.active, module.path);
                    let after = lib.module(
                        false,
                        scope.active,
                        cache,
                        module.path,
                        module.procs,
                    ).0;
                    if exists|other: ProcId| #[trigger]
                        cache.contains_key(other) && other.module == module.path {
                        steady::lemma_nothing_to_add(lib, false, scope.active, cache, id);
                    } else {
                        lemma_module_given(lib, scope.active, cache, id);
                        lemma_framed_more(lib, own, scope, cache, after);
                    }
                }
            },
        }
    }
}

/// What is given to the cache while a module is compiled of which it has nothing yet.
proof fn lemma_module_given(
    lib: Catalogue,
    active: Seq<Seq<char>>,
    cache: Map<ProcId, SpecProc>,
    id: ProcId,
)
    requires
        enclosed(lib, active, cache),
        (lib.lookup)(id) is Some,
        forall|other: ProcId| #[trigger]
            cache.contains_key(other) ==> other.module != (lib.lookup)(id)->0.path,
    ensures
        ({
            let module = (lib.lookup)(id)->0;
            let after = lib.module(false, active, cache, module.path, module.procs).0;
            &&& enclosed(lib, active, after)
            &&& linking::grows(cache, after)
            &&& provides(lib, cache, after)
        }),
    decreases
            if active.contains((lib.lookup)(id)->0.path) {
                lib.remaining(active)
            } else {
                lib.remaining(active.push((lib.lookup)(id)->0.path))
            },
            if active.contains((lib.lookup)(id)->0.path) {
                1nat
            } else {
                7nat
            },
            Seq::<SpecNode>::empty(),
            0nat,
{
    let module = (lib.lookup)(id)->0;
    let path = module.path;
    let procs = module.procs;
    assert(steady::steady(lib, cache)) by {
        reveal(enclosed);
    }
    steady::lemma_module_steady(lib, false, active, cache, id);
    steady::lemma_advances_means(
        lib,
        cache,
        lib.module(false, active, cache, path, procs).0,
    );
    if !active.contains(path) {
        let none = Seq::<ProcId>::empty();
        let scope = Scope { in_kernel: false, active: active.push(path), procs: Seq::empty() };
        assert(framed(lib, Some(module), scope, cache)) by {
            reveal(framed);
            reveal(enclosed);
            steady::lemma_avoids(cache, active, path);
        }
        assert(accounted(Some(module), scope, cache, none)) by {
            reveal(accounted);
        }
        assert(remains(Some(module), 0, procs)) by {
            reveal(remains);
            assert(procs.skip(0) =~= procs);
        }
        lemma_procedures_given(lib, Some(module), scope, cache, none, procs);
        steady::lemma_published_new(lib, scope, cache, procs);
        match lib.procedures(scope, cache, none, procs) {
            (inner, Err(_)) => {
                reveal(enclosed);
                steady::lemma_avoids(inner, active, path);
            },
            (inner, Ok((compiled, callset))) => {
                let end = Scope { procs: compiled, ..scope };
                catalogues::lemma_procedure_ids(lib, scope, cache, none, procs);
                lemma_publish_given(lib, active, inner, id, end, callset);
                lemma_provides(
                    lib,
                    cache,
                    inner,
                    Catalogue::published(inner, compiled, callset),
                );
            },
        }
    }
}

/// What is given to the cache when the procedures of a module are put into it.
proof fn lemma_publish_given(
    lib: Catalogue,
    active: Seq<Seq<char>>,
    cache: Map<ProcId, SpecProc>,
    id: ProcId,
    scope: Scope,
    callset: Seq<ProcId>,
)
    requires
        (lib.lookup)(id) is Some,
        !active.contains((lib.lookup)(id)->0.path),
        scope.active == active.push((lib.lookup)(id)->0.path),
        framed(lib, Some((lib.lookup)(id)->0), scope, cache),
        accounted(Some((lib.lookup)(id)->0), scope, cache, callset),
        soundness::collects(scope.procs, callset),
        catalogues::follows(
            scope.procs,
            Seq::empty(),
            (lib.lookup)(id)->0.path,
            (lib.lookup)(id)->0.procs,
        ),
        steady::distinct(scope.procs),
        linking::grows(cache, Catalogue::published(cache, scope.procs, callset)),
        steady::steady(lib, Catalogue::published(cache, scope.procs, callset)),
    ensures
        enclosed(lib, active, Catalogue::published(cache, scope.procs, callset)),
        provides(lib, cache, Catalogue::published(cache, scope.procs, callset)),
{
    let module = (lib.lookup)(id)->0;
    let path = module.path;
    let procs = scope.procs;
    let after = Catalogue::published(cache, procs, callset);
    reveal(framed);
    reveal(enclosed);
    reveal(accounted);
    catalogues::lemma_published(cache, procs, callset);
    steady::lemma_published_values(cache, procs, callset);
    steady::lemma_avoids(cache, active, path);
    assert forall|other: ProcId| #[trigger] after.contains_key(other) && !cache.contains_key(
        other,
    ) implies lib.gives(other) && other.module == path by {
        let i = choose|i: int|
            0 <= i < procs.len() && (#[trigger] procs[i]).id == other && (procs[i].is_export
                || callset.contains(other)) && after[other] == procs[i];
        assert(module.procs[i].name == other.name);
        assert(module.gives(other));
        assert((lib.lookup)(id)->0.gives(other));
    }
    assert forall|first: ProcId, other: ProcId|
        after.contains_key(first) && #[trigger] after[first].callset.contains(
            other,
        ) implies after.contains_key(other) by {
        if cache.contains_key(first) {
            assert(cache[first].callset.contains(other));
        } else {
            let i = choose|i: int|
                0 <= i < procs.len() && (#[trigger] procs[i]).id == first && (procs[i].is_export
                    || callset.contains(first)) && after[first] == procs[i];
            assert(callset.contains(other));
            if !cache.contains_key(other) {
                let j = choose|j: int| 0 <= j < procs.len() && (#[trigger] procs[j]).id == other;
                assert(after.contains_key(procs[j].id));
            }
        }
    }
}

/// True if the given module has the procedures behind as many others as given.
#[verifier::opaque]
spec fn remains(own: Option<SpecModule>, count: nat, procs: Seq<SpecProcAst>) -> bool {
    own matches Some(module) ==> {
        &&& count <= module.procs.len()
        &&& procs == module.procs.skip(count as int)
    }
}

/// The first of the procedures which remain.
proof fn lemma_remains(own: Option<SpecModule>, count: nat, procs: Seq<SpecProcAst>)
    requires
        procs.len() > 0,
        remains(own, count, procs),
    ensures
        own matches Some(module) ==> {
            &&& count < module.procs.len()
            &&& procs[0] == module.procs[count as int]
        },
        remains(own, count + 1, procs.drop_first()),
{
    reveal(remains);
    if let Some(module) = own {
        assert(procs.drop_first() =~= module.procs.skip((count + 1) as int));
    }
}

/// What is given to the cache while the procedures of a module are compiled.
proof fn lemma_procedures_given(
    lib: Catalogue,
    own: Option<SpecModule>,
    scope: Scope,
    cache: Map<ProcId, SpecProc>,
    callset: Seq<ProcId>,
    procs: Seq<SpecProcAst>,
)
    requires
        framed(lib, own, scope, cache),
        accounted(own, scope, cache, callset),
        soundness::collects(scope.procs, callset),
        remains(own, scope.procs.len(), procs),
    ensures
        ({
            let outcome = lib.procedures(scope, cache, callset, procs);
            &&& enclosed(lib, scope.active, outcome.0)
            &&& provides(lib, cache, outcome.0)
            &&& outcome.1 matches Ok((compiled, after)) ==> {
                let end = Scope { procs: compiled, ..scope };
                &&& framed(lib, own, end, outcome.0)
                &&& accounted(own, end, outcome.0, after)
                &&& soundness::collects(compiled, after)
            }
        }),
    decreases lib.remaining(scope.active), 6nat, Seq::<SpecNode>::empty(), procs.len(),
{
    lemma_framed_means(lib, own, scope, cache);
    if procs.len() > 0 {
        let start = cache;
        lemma_remains(own, scope.procs.len(), procs);
        lemma_procedure_given(lib, own, scope, cache, procs[0]);
        match lib.procedure(scope, cache, procs[0]) {
            (_, Err(_)) => {},
            (cache, Ok(proc)) => {
                let next = scope.with(proc);
                let merged = CallSet::merging(callset, proc.callset);
                let rest = procs.drop_first();
                lemma_merged(own, scope, start, cache, callset, proc);
                lemma_procedures_given(lib, own, next, cache, merged, rest);
                lemma_provides(
                    lib,
                    start,
                    cache,
                    lib.procedures(next, cache, merged, rest).0,
                );
            },
        }
    }
}

/// The callset of a module after one more procedure has been compiled.
proof fn lemma_merged(
    own: Option<SpecModule>,
    scope: Scope,
    first: Map<ProcId, SpecProc>,
    second: Map<ProcId, SpecProc>,
    callset: Seq<ProcId>,
    proc: SpecProc,
)
    requires
        accounted(own, scope, first, callset),
        linking::grows(first, second),
        accounted(own, scope, second, proc.callset),
        soundness::collects(scope.procs, callset),
    ensures
        accounted(own, scope.with(proc), second, CallSet::merging(callset, proc.callset)),
        soundness::collects(scope.with(proc).procs, CallSet::merging(callset, proc.callset)),
{
    reveal(accounted);
    let next = scope.with(proc);
    linking::lemma_merging(callset, proc.callset);
    lemma_defines_more(scope, proc);
    assert forall|i: int| 0 <= i < next.procs.len() implies linking::included(
        (#[trigger] next.procs[i]).callset,
        CallSet::merging(callset, proc.callset),
    ) by {
        if i < scope.procs.len() {
            assert(next.procs[i] == scope.procs[i]);
            assert(linking::included(scope.procs[i].callset, callset));
        }
    }
}

/// What a scope defines it defines after one more procedure.
proof fn lemma_defines_more(scope: Scope, proc: SpecProc)
    ensures
        forall|id: ProcId| #[trigger] scope.defines(id) ==> scope.with(proc).defines(id),
{
    let next = scope.with(proc);
    assert forall|id: ProcId| #[trigger] scope.defines(id) implies next.defines(id) by {
        let i = choose|i: int| 0 <= i < scope.procs.len() && (#[trigger] scope.procs[i]).id == id;
        assert(next.procs[i].id == id);
    }
}

/// What is given to the cache while a procedure is compiled.
proof fn lemma_procedure_given(
    lib: Catalogue,
    own: Option<SpecModule>,
    scope: Scope,
    cache: Map<ProcId, SpecProc>,
    proc: SpecProcAst,
)
    requires
        framed(lib, own, scope, cache),
        own matches Some(module) ==> {
            &&& scope.procs.len() < module.procs.len()
            &&& proc == module.procs[scope.procs.len() as int]
        },
    ensures
        ({
            let outcome = lib.procedure(scope, cache, proc);
            &&& enclosed(lib, scope.active, outcome.0)
            &&& linking::grows(cache, outcome.0)
            &&& provides(lib, cache, outcome.0)
            &&& outcome.1 matches Ok(compiled) ==> {
                &&& framed(lib, own, scope.with(compiled), outcome.0)
                &&& accounted(own, scope, outcome.0, compiled.callset)
            }
        }),
    decreases lib.remaining(scope.active), 5nat, Seq::<SpecNode>::empty(), 0nat,
{
    let none = Seq::<ProcId>::empty();
    let after = lib.procedure(scope, cache, proc).0;
    lemma_framed_means(lib, own, scope, cache);
    steady::lemma_procedure_steady(lib, scope, cache, proc);
    steady::lemma_advances_means(lib, cache, after);
    assert(accounted(own, scope, cache, none)) by {
        reveal(accounted);
    }
    assert(belongs(own, proc.body)) by {
        if let Some(module) = own {
            assert(module.procs[scope.procs.len() as int].body == proc.body);
        }
    }
    lemma_body_given(
        lib,
        own,
        scope,
        cache,
        none,
        proc.prologue(),
        proc.body,
        proc.epilogue(),
    );
    assert(framed(lib, own, scope, after));
    lemma_framed_means(lib, own, scope, after);
    match lib.procedure(scope, cache, proc) {
        (_, Err(_)) => {},
        (_, Ok(compiled)) => {
            lemma_framed_with(lib, own, scope, after, compiled);
        },
    }
}

/// What holds in a scope still does after one more procedure.
proof fn lemma_framed_with(
    lib: Catalogue,
    own: Option<SpecModule>,
    scope: Scope,
    cache: Map<ProcId, SpecProc>,
    proc: SpecProc,
)
    requires
        framed(lib, own, scope, cache),
        accounted(own, scope, cache, proc.callset),
        own matches Some(module) ==> {
            &&& scope.procs.len() < module.procs.len()
            &&& proc.id.name == module.procs[scope.procs.len() as int].name
        },
    ensures
        framed(lib, own, scope.with(proc), cache),
{
    reveal(framed);
    reveal(accounted);
    let next = scope.with(proc);
    lemma_defines_more(scope, proc);
    assert forall|i: int| 0 <= i < next.procs.len() implies {
        &&& accounted(own, next, cache, (#[trigger] next.procs[i]).callset)
        &&& own matches Some(module) ==> {
            &&& i < module.procs.len()
            &&& next.procs[i].id.name == module.procs[i].name
        }
    } by {
        if i < scope.procs.len() {
            assert(next.procs[i] == scope.procs[i]);
            assert(accounted(own, scope, cache, scope.procs[i].callset));
        }
    }
}

/// What is given to the cache while the procedures of a program are compiled.
proof fn lemma_program_procedures_given(
    lib: Catalogue,
    scope: Scope,
    cache: Map<ProcId, SpecProc>,
    callset: Seq<ProcId>,
    procs: Seq<SpecProcAst>,
)
    requires
        framed(lib, None, scope, cache),
    ensures
        ({
            let outcome = lib.program_procedures(scope, cache, callset, procs);
            &&& provides(lib, cache, outcome.0)
            &&& outcome.1 matches Ok((compiled, _)) ==> framed(
                lib,
                None,
                Scope { procs: compiled, ..scope },
                outcome.0,
            )
        }),
    decreases procs.len(),
{
    lib.lemma_program_procedures(scope, cache, callset, procs);
    if procs.len() > 0 && !procs[0].is_export {
        let start = cache;
        lemma_procedure_given(lib, None, scope, cache, procs[0]);
        match lib.procedure(scope, cache, procs[0]) {
            (_, Err(_)) => {},
            (cache, Ok(proc)) => {
                let next = scope.with(proc);
                let merged = CallSet::merging(callset, proc.callset);
                let rest = procs.drop_first();
                lemma_program_procedures_given(lib, next, cache, merged, rest);
                lemma_provides(
                    lib,
                    start,
                    cache,
                    lib.program_procedures(next, cache, merged, rest).0,
                );
            },
        }
    }
}

/// Compiling a program with a sound assembler adds to the cache only procedures which a module
/// that is served exports or calls.
pub proof fn lemma_programs_add_what_modules_give(assembler: SpecAssembler, source: Seq<char>)
    requires
        assembler.is_sound(),
    ensures
        provides(
            assembler.catalogue,
            assembler.cache,
            assembler.after_program(source).cache,
        ),
{
    let lib = assembler.catalogue;
    let cache = assembler.cache;
    let start = Scope::of_program();
    let none = Seq::<ProcId>::empty();
    let no_ops = Seq::<Operation>::empty();
    match SpecReader::program(source) {
        None => {},
        Some(program) => {
            assert(framed(lib, None, start, cache)) by {
                reveal(framed);
                reveal(enclosed);
                reveal(steady::steady);
                assert(steady::avoids(cache, start.active));
                assert forall|id: ProcId, other: ProcId|
                    cache.contains_key(id) && #[trigger] cache[id].callset.contains(
                        other,
                    ) implies cache.contains_key(other) by {
                    assert(linking::closed(cache, cache[id].callset));
                }
            }
            lemma_program_procedures_given(lib, start, cache, none, program.procs);
            match lib.program_procedures(start, cache, none, program.procs) {
                (_, Err(_)) => {},
                (first, Ok((procs, _))) => {
                    let scope = Scope { procs, ..start };
                    assert(accounted(None, scope, first, none)) by {
                        reveal(accounted);
                    }
                    lemma_body_given(
                        lib,
                        None,
                        scope,
                        first,
                        none,
                        no_ops,
                        program.body,
                        no_ops,
                    );
                    lemma_provides(
                        lib,
                        cache,
                        first,
                        lib.body(scope, first, none, no_ops, program.body, no_ops).0,
                    );
                },
            }
        },
    }
}

} // verus!
