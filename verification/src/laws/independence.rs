//! What has been compiled before plays no part.
use vstd::prelude::*;

use crate::assembler::SpecAssembler;
use crate::ast::{SpecInstruction, SpecNode, SpecProcAst, SpecProgramAst};
use crate::code_block::Mast;
use crate::hasher::Digest;
use crate::laws::{
    calls, catalogues, linking, origins, programs, replay, soundness, steady,
};
use crate::operation::Operation;
use crate::parsers::parser::SpecReader;
use crate::procedure::{CallSet, ProcId, ProcedureId, SpecProc};
use crate::semantics::{Catalogue, Outcome, Progress, Scope};

verus! {

/// How two compilations of the same code compare, the second of which started from less: the
/// results are the same, and so are the caches, except for procedures which are served.
pub open spec fn twins<T>(
    lib: Catalogue,
    cold: Map<ProcId, SpecProc>,
    first: Outcome<T>,
    second: Outcome<T>,
) -> bool {
    &&& second.1 == first.1
    &&& steady::within(lib, second.0, first.0)
    &&& linking::grows(cold, second.0)
}

/// When code compiles alike from less: nothing of the modules in progress is in the cache, and
/// the modules which the code reaches are dependable.
#[verifier::opaque]
pub open spec fn alike(
    lib: Catalogue,
    reached: Set<Seq<char>>,
    scope: Scope,
    cache: Map<ProcId, SpecProc>,
    cold: Map<ProcId, SpecProc>,
) -> bool {
    &&& !scope.in_kernel
    &&& lib.is_dependable(reached)
    &&& steady::steady(lib, cache)
    &&& steady::traced(lib, cache)
    &&& steady::avoids(cache, scope.active)
    &&& steady::within(lib, cold, cache)
}

/// Code still compiles alike after a part of it.
proof fn lemma_alike(
    lib: Catalogue,
    reached: Set<Seq<char>>,
    scope: Scope,
    next: Scope,
    cache: Map<ProcId, SpecProc>,
    cold: Map<ProcId, SpecProc>,
    cache_after: Map<ProcId, SpecProc>,
    cold_after: Map<ProcId, SpecProc>,
)
    requires
        alike(lib, reached, scope, cache, cold),
        next.in_kernel == scope.in_kernel,
        next.active == scope.active,
        steady::advances(lib, cache, cache_after),
        origins::evolves(lib, scope.active, None, cache, cache_after),
        steady::within(lib, cold_after, cache_after),
    ensures
        alike(lib, reached, next, cache_after, cold_after),
{
    reveal(alike);
    steady::lemma_advances_means(lib, cache, cache_after);
    origins::lemma_avoids_evolves(lib, scope.active, cache, cache_after);
}

/// What follows an instruction compiles alike from less.
proof fn lemma_alike_after_instruction(
    lib: Catalogue,
    reached: Set<Seq<char>>,
    scope: Scope,
    cache: Map<ProcId, SpecProc>,
    callset: Seq<ProcId>,
    instruction: SpecInstruction,
    cold: Map<ProcId, SpecProc>,
)
    requires
        alike(lib, reached, scope, cache, cold),
        twins(
            lib,
            cold,
            lib.instruction(scope, cache, callset, instruction),
            lib.instruction(scope, cold, callset, instruction),
        ),
    ensures
        alike(
            lib,
            reached,
            scope,
            lib.instruction(scope, cache, callset, instruction).0,
            lib.instruction(scope, cold, callset, instruction).0,
        ),
{
    assert(steady::steady(lib, cache)) by {
        reveal(alike);
    }
    steady::lemma_instruction_steady(lib, scope, cache, callset, instruction);
    origins::lemma_instruction_origins(lib, scope, cache, callset, instruction);
    lemma_alike(
        lib,
        reached,
        scope,
        scope,
        cache,
        cold,
        lib.instruction(scope, cache, callset, instruction).0,
        lib.instruction(scope, cold, callset, instruction).0,
    );
}

/// What follows a body compiles alike from less.
proof fn lemma_alike_after_body(
    lib: Catalogue,
    reached: Set<Seq<char>>,
    scope: Scope,
    cache: Map<ProcId, SpecProc>,
    callset: Seq<ProcId>,
    nodes: Seq<SpecNode>,
    cold: Map<ProcId, SpecProc>,
)
    requires
        alike(lib, reached, scope, cache, cold),
        twins(
            lib,
            cold,
            lib.body(scope, cache, callset, Seq::empty(), nodes, Seq::empty()),
            lib.body(scope, cold, callset, Seq::empty(), nodes, Seq::empty()),
        ),
    ensures
        alike(
            lib,
            reached,
            scope,
            lib.body(scope, cache, callset, Seq::empty(), nodes, Seq::empty()).0,
            lib.body(scope, cold, callset, Seq::empty(), nodes, Seq::empty()).0,
        ),
{
    let none = Seq::<Operation>::empty();
    assert(steady::steady(lib, cache)) by {
        reveal(alike);
    }
    steady::lemma_body_steady(lib, scope, cache, callset, none, nodes, none);
    origins::lemma_body_origins(lib, scope, cache, callset, none, nodes, none);
    lemma_alike(
        lib,
        reached,
        scope,
        scope,
        cache,
        cold,
        lib.body(scope, cache, callset, none, nodes, none).0,
        lib.body(scope, cold, callset, none, nodes, none).0,
    );
}

/// What follows a procedure compiles alike from less.
proof fn lemma_alike_after_procedure(
    lib: Catalogue,
    reached: Set<Seq<char>>,
    scope: Scope,
    cache: Map<ProcId, SpecProc>,
    proc: SpecProcAst,
    cold: Map<ProcId, SpecProc>,
)
    requires
        alike(lib, reached, scope, cache, cold),
        twins(lib, cold, lib.procedure(scope, cache, proc), lib.procedure(scope, cold, proc)),
    ensures
        lib.procedure(scope, cache, proc).1 matches Ok(compiled) ==> alike(
            lib,
            reached,
            scope.with(compiled),
            lib.procedure(scope, cache, proc).0,
            lib.procedure(scope, cold, proc).0,
        ),
{
    assert(steady::steady(lib, cache)) by {
        reveal(alike);
    }
    steady::lemma_procedure_steady(lib, scope, cache, proc);
    origins::lemma_procedure_origins(lib, scope, cache, proc);
    match lib.procedure(scope, cache, proc) {
        (_, Err(_)) => {},
        (after, Ok(compiled)) => {
            lemma_alike(
                lib,
                reached,
                scope,
                scope.with(compiled),
                cache,
                cold,
                after,
                lib.procedure(scope, cold, proc).0,
            );
        },
    }
}

/// The nodes of a body compile alike from less.
proof fn lemma_nodes_twin(
    lib: Catalogue,
    reached: Set<Seq<char>>,
    scope: Scope,
    cache: Map<ProcId, SpecProc>,
    progress: Progress,
    nodes: Seq<SpecNode>,
    cold: Map<ProcId, SpecProc>,
)
    requires
        alike(lib, reached, scope, cache, cold),
        lib.answers_all(reached, nodes),
    ensures
        twins(
            lib,
            cold,
            lib.nodes(scope, cache, progress, nodes),
            lib.nodes(scope, cold, progress, nodes),
        ),
    decreases lib.remaining(scope.active), 4nat, nodes, 0nat,
{
    let none = Seq::<Operation>::empty();
    let callset = progress.callset;
    assert(steady::within(lib, cold, cache)) by {
        reveal(alike);
    }
    if nodes.len() > 0 {
        let rest = nodes.drop_first();
        match nodes[0] {
            SpecNode::Instruction(instruction) => {
                lemma_instruction_twin(lib, reached, scope, cache, callset, instruction, cold);
                lemma_alike_after_instruction(
                    lib,
                    reached,
                    scope,
                    cache,
                    callset,
                    instruction,
                    cold,
                );
                let cold = lib.instruction(scope, cold, callset, instruction).0;
                match lib.instruction(scope, cache, callset, instruction) {
                    (_, Err(_)) => {},
                    (cache, Ok((effect, callset))) => {
                        let next = progress.after(effect, callset);
                        lemma_nodes_twin(lib, reached, scope, cache, next, rest, cold);
                    },
                }
            },
            SpecNode::IfElse(on_true, on_false) => {
                lemma_body_twin(lib, reached, scope, cache, callset, none, on_true, none, cold);
                lemma_alike_after_body(lib, reached, scope, cache, callset, on_true, cold);
                let cold = lib.body(scope, cold, callset, none, on_true, none).0;
                match lib.body(scope, cache, callset, none, on_true, none) {
                    (_, Err(_)) => {},
                    (cache, Ok((true_block, callset))) => {
                        if on_false.len() == 0 {
                            let split = Mast::Split(Box::new(true_block), Box::new(Mast::noop()));
                            let next = progress.followed_by(split, callset);
                            lemma_nodes_twin(lib, reached, scope, cache, next, rest, cold);
                        } else {
                            lemma_body_twin(
                                lib,
                                reached,
                                scope,
                                cache,
                                callset,
                                none,
                                on_false,
                                none,
                                cold,
                            );
                            lemma_alike_after_body(
                                lib,
                                reached,
                                scope,
                                cache,
                                callset,
                                on_false,
                                cold,
                            );
                            let cold = lib.body(scope, cold, callset, none, on_false, none).0;
                            match lib.body(scope, cache, callset, none, on_false, none) {
                                (_, Err(_)) => {},
                                (cache, Ok((false_block, callset))) => {
                                    let split = Mast::Split(
                                        Box::new(true_block),
                                        Box::new(false_block),
                                    );
                                    let next = progress.followed_by(split, callset);
                                    lemma_nodes_twin(lib, reached, scope, cache, next, rest, cold);
                                },
                            }
                        }
                    },
                }
            },
            SpecNode::Repeat(count, body) => {
                lemma_body_twin(lib, reached, scope, cache, callset, none, body, none, cold);
                lemma_alike_after_body(lib, reached, scope, cache, callset, body, cold);
                let cold = lib.body(scope, cold, callset, none, body, none).0;
                match lib.body(scope, cache, callset, none, body, none) {
                    (_, Err(_)) => {},
                    (cache, Ok((block, callset))) => {
                        let next = progress.repeated(block, count as nat, callset);
                        lemma_nodes_twin(lib, reached, scope, cache, next, rest, cold);
                    },
                }
            },
            SpecNode::While(body) => {
                lemma_body_twin(lib, reached, scope, cache, callset, none, body, none, cold);
                lemma_alike_after_body(lib, reached, scope, cache, callset, body, cold);
                let cold = lib.body(scope, cold, callset, none, body, none).0;
                match lib.body(scope, cache, callset, none, body, none) {
                    (_, Err(_)) => {},
                    (cache, Ok((block, callset))) => {
                        let next = progress.followed_by(Mast::Loop(Box::new(block)), callset);
                        lemma_nodes_twin(lib, reached, scope, cache, next, rest, cold);
                    },
                }
            },
        }
    }
}

/// A body compiles alike from less.
proof fn lemma_body_twin(
    lib: Catalogue,
    reached: Set<Seq<char>>,
    scope: Scope,
    cache: Map<ProcId, SpecProc>,
    callset: Seq<ProcId>,
    prologue: Seq<Operation>,
    nodes: Seq<SpecNode>,
    epilogue: Seq<Operation>,
    cold: Map<ProcId, SpecProc>,
)
    requires
        alike(lib, reached, scope, cache, cold),
        lib.answers_all(reached, nodes),
    ensures
        twins(
            lib,
            cold,
            lib.body(scope, cache, callset, prologue, nodes, epilogue),
            lib.body(scope, cold, callset, prologue, nodes, epilogue),
        ),
    decreases lib.remaining(scope.active), 4nat, nodes, 1nat,
{
    let start = Progress { blocks: Seq::empty(), ops: prologue, callset };
    lemma_nodes_twin(lib, reached, scope, cache, start, nodes, cold);
}

/// An instruction compiles alike from less.
proof fn lemma_instruction_twin(
    lib: Catalogue,
    reached: Set<Seq<char>>,
    scope: Scope,
    cache: Map<ProcId, SpecProc>,
    callset: Seq<ProcId>,
    instruction: SpecInstruction,
    cold: Map<ProcId, SpecProc>,
)
    requires
        alike(lib, reached, scope, cache, cold),
        lib.answers_to(reached, instruction),
    ensures
        twins(
            lib,
            cold,
            lib.instruction(scope, cache, callset, instruction),
            lib.instruction(scope, cold, callset, instruction),
        ),
    decreases lib.remaining(scope.active), 3nat, Seq::<SpecNode>::empty(), 0nat,
{
    assert(steady::within(lib, cold, cache)) by {
        reveal(alike);
    }
    match instruction {
        SpecInstruction::ExecImported(id) => {
            lemma_imported_twin(lib, reached, scope, cache, id, cold);
        },
        SpecInstruction::CallImported(id) => {
            lemma_imported_twin(lib, reached, scope, cache, id, cold);
        },
        SpecInstruction::SysCall(name) => {
            reveal(alike);
            reveal(steady::steady);
            let id = ProcId { module: ProcedureId::KERNEL_PATH@, name };
            steady::lemma_kernel_is_not_served(lib, id);
            assert(cache.contains_key(id) == cold.contains_key(id));
        },
        _ => {},
    }
}

/// A procedure of another module is found alike from less.
proof fn lemma_imported_twin(
    lib: Catalogue,
    reached: Set<Seq<char>>,
    scope: Scope,
    cache: Map<ProcId, SpecProc>,
    id: ProcId,
    cold: Map<ProcId, SpecProc>,
)
    requires
        alike(lib, reached, scope, cache, cold),
        lib.answers(reached, id),
    ensures
        twins(lib, cold, lib.imported(scope, cache, id), lib.imported(scope, cold, id)),
    decreases lib.remaining(scope.active), 2nat, Seq::<SpecNode>::empty(), 0nat,
{
    reveal(alike);
    if cold.contains_key(id) {
    } else if cache.contains_key(id) {
        let rerun = steady::Rerun { scope, later: cache, reached, unused: None };
        assert(rerun.can_follow(lib, cold, cache)) by {
            reveal(steady::Rerun::can_follow);
        }
        steady::lemma_cold_import(lib, cache, rerun, id, cold);
    } else {
        match (lib.lookup)(id) {
            None => {},
            Some(module) => {
                let path = module.path;
                lib.lemma_remaining(scope.active, path);
                lemma_nothing_at_path(lib, reached, cache, id);
                lemma_module_twin(lib, reached, scope, cache, id, cold);
                catalogues::lemma_module_exports(
                    lib,
                    false,
                    scope.active,
                    cache,
                    path,
                    module.procs,
                );
                catalogues::lemma_module_exports(
                    lib,
                    false,
                    scope.active,
                    cold,
                    path,
                    module.procs,
                );
                assert(module.exports(id.name));
            },
        }
    }
}

/// If a procedure which is served is not in the cache, nothing of its module is.
proof fn lemma_nothing_at_path(
    lib: Catalogue,
    reached: Set<Seq<char>>,
    cache: Map<ProcId, SpecProc>,
    id: ProcId,
)
    requires
        lib.is_dependable(reached),
        steady::traced(lib, cache),
        !cache.contains_key(id),
        (lib.lookup)(id) is Some,
        reached.contains((lib.lookup)(id)->0.path),
    ensures
        forall|other: ProcId| #[trigger]
            cache.contains_key(other) ==> other.module != (lib.lookup)(id)->0.path,
{
    let module = (lib.lookup)(id)->0;
    if exists|other: ProcId| #[trigger]
        cache.contains_key(other) && other.module == module.path {
        reveal(steady::traced);
        let kept = steady::without(lib.unused_at(module.path), cache);
        assert(lib.is_dependable_at(module.path));
        assert(steady::recorded(lib, module, kept));
        let before = choose|before: Map<ProcId, SpecProc>|
            linking::grows(before, kept) && #[trigger] steady::reproduces(lib, module, before);
        let none = Seq::<Seq<char>>::empty();
        reveal(steady::reproduces);
        assert(steady::within(lib, before, before));
        assert(lib.module(false, none, before, module.path, module.procs).1 is Ok);
        catalogues::lemma_module_exports(lib, false, none, before, module.path, module.procs);
        assert(module.exports(id.name));
    }
}

/// A module compiles alike from less.
proof fn lemma_module_twin(
    lib: Catalogue,
    reached: Set<Seq<char>>,
    outer: Scope,
    cache: Map<ProcId, SpecProc>,
    id: ProcId,
    cold: Map<ProcId, SpecProc>,
)
    requires
        alike(lib, reached, outer, cache, cold),
        (lib.lookup)(id) is Some,
        reached.contains((lib.lookup)(id)->0.path),
        forall|other: ProcId| #[trigger]
            cache.contains_key(other) ==> other.module != (lib.lookup)(id)->0.path,
    ensures
        ({
            let module = (lib.lookup)(id)->0;
            twins(
                lib,
                cold,
                lib.module(false, outer.active, cache, module.path, module.procs),
                lib.module(false, outer.active, cold, module.path, module.procs),
            )
        }),
    decreases
            if outer.active.contains((lib.lookup)(id)->0.path) {
                lib.remaining(outer.active)
            } else {
                lib.remaining(outer.active.push((lib.lookup)(id)->0.path))
            },
            if outer.active.contains((lib.lookup)(id)->0.path) {
                1nat
            } else {
                7nat
            },
            Seq::<SpecNode>::empty(),
            0nat,
{
    let active = outer.active;
    let path = (lib.lookup)(id)->0.path;
    let procs = (lib.lookup)(id)->0.procs;
    assert(steady::within(lib, cold, cache)) by {
        reveal(alike);
    }
    if !active.contains(path) {
        let none = Seq::<ProcId>::empty();
        let scope = Scope { in_kernel: false, active: active.push(path), procs: Seq::empty() };
        assert(alike(lib, reached, scope, cache, cold) && lib.answers_procs(reached, procs)) by {
            reveal(alike);
            steady::lemma_avoids(cache, active, path);
        }
        lemma_procedures_twin(lib, reached, scope, cache, none, procs, cold);
        match lib.procedures(scope, cache, none, procs) {
            (_, Err(_)) => {},
            (inner, Ok((compiled, callset))) => {
                let cold_inner = lib.procedures(scope, cold, none, procs).0;
                steady::lemma_published_new(lib, scope, cache, procs);
                lemma_publish_twin(lib, inner, compiled, callset, cold_inner);
            },
        }
    }
}

/// The procedures of a module are put alike into a cache which has less.
proof fn lemma_publish_twin(
    lib: Catalogue,
    cache: Map<ProcId, SpecProc>,
    compiled: Seq<SpecProc>,
    callset: Seq<ProcId>,
    cold: Map<ProcId, SpecProc>,
)
    requires
        steady::within(lib, cold, cache),
        steady::distinct(compiled),
        linking::grows(cache, Catalogue::published(cache, compiled, callset)),
    ensures
        steady::within(
            lib,
            Catalogue::published(cold, compiled, callset),
            Catalogue::published(cache, compiled, callset),
        ),
        linking::grows(cold, Catalogue::published(cold, compiled, callset)),
{
    let after = Catalogue::published(cache, compiled, callset);
    steady::lemma_published_values(cache, compiled, callset);
    steady::lemma_publish_between(cold, after, compiled, callset);
    catalogues::lemma_published(cold, compiled, callset);
    catalogues::lemma_published(cache, compiled, callset);
}

/// The procedures of a module compile alike from less.
proof fn lemma_procedures_twin(
    lib: Catalogue,
    reached: Set<Seq<char>>,
    scope: Scope,
    cache: Map<ProcId, SpecProc>,
    callset: Seq<ProcId>,
    procs: Seq<SpecProcAst>,
    cold: Map<ProcId, SpecProc>,
)
    requires
        alike(lib, reached, scope, cache, cold),
        lib.answers_procs(reached, procs),
    ensures
        twins(
            lib,
            cold,
            lib.procedures(scope, cache, callset, procs),
            lib.procedures(scope, cold, callset, procs),
        ),
    decreases lib.remaining(scope.active), 6nat, Seq::<SpecNode>::empty(), procs.len(),
{
    assert(steady::within(lib, cold, cache)) by {
        reveal(alike);
    }
    if procs.len() > 0 {
        lemma_procedure_twin(lib, reached, scope, cache, procs[0], cold);
        lemma_alike_after_procedure(lib, reached, scope, cache, procs[0], cold);
        match lib.procedure(scope, cache, procs[0]) {
            (_, Err(_)) => {},
            (cache, Ok(proc)) => {
                lemma_answers_rest(lib, reached, procs);
                lemma_procedures_twin(
                    lib,
                    reached,
                    scope.with(proc),
                    cache,
                    CallSet::merging(callset, proc.callset),
                    procs.drop_first(),
                    lib.procedure(scope, cold, procs[0]).0,
                );
            },
        }
    }
}

/// What answers procedures answers all but the first of them.
proof fn lemma_answers_rest(lib: Catalogue, reached: Set<Seq<char>>, procs: Seq<SpecProcAst>)
    requires
        procs.len() > 0,
        lib.answers_procs(reached, procs),
    ensures
        lib.answers_procs(reached, procs.drop_first()),
{
    let rest = procs.drop_first();
    assert forall|i: int| 0 <= i < rest.len() implies lib.answers_all(
        reached,
        (#[trigger] rest[i]).body,
    ) by {
        assert(rest[i] == procs[i + 1]);
    }
}

/// A procedure compiles alike from less.
proof fn lemma_procedure_twin(
    lib: Catalogue,
    reached: Set<Seq<char>>,
    scope: Scope,
    cache: Map<ProcId, SpecProc>,
    proc: SpecProcAst,
    cold: Map<ProcId, SpecProc>,
)
    requires
        alike(lib, reached, scope, cache, cold),
        lib.answers_all(reached, proc.body),
    ensures
        twins(lib, cold, lib.procedure(scope, cache, proc), lib.procedure(scope, cold, proc)),
    decreases lib.remaining(scope.active), 5nat, Seq::<SpecNode>::empty(), 0nat,
{
    assert(steady::within(lib, cold, cache)) by {
        reveal(alike);
    }
    lemma_body_twin(
        lib,
        reached,
        scope,
        cache,
        Seq::empty(),
        proc.prologue(),
        proc.body,
        proc.epilogue(),
        cold,
    );
}

/// The procedures of a program compile alike from less.
proof fn lemma_program_procedures_twin(
    lib: Catalogue,
    reached: Set<Seq<char>>,
    scope: Scope,
    cache: Map<ProcId, SpecProc>,
    callset: Seq<ProcId>,
    procs: Seq<SpecProcAst>,
    cold: Map<ProcId, SpecProc>,
)
    requires
        alike(lib, reached, scope, cache, cold),
        lib.answers_procs(reached, procs),
    ensures
        twins(
            lib,
            cold,
            lib.program_procedures(scope, cache, callset, procs),
            lib.program_procedures(scope, cold, callset, procs),
        ),
        lib.program_procedures(scope, cache, callset, procs).1 matches Ok((compiled, _)) ==> alike(
            lib,
            reached,
            Scope { procs: compiled, ..scope },
            lib.program_procedures(scope, cache, callset, procs).0,
            lib.program_procedures(scope, cold, callset, procs).0,
        ),
    decreases procs.len(),
{
    assert(steady::within(lib, cold, cache)) by {
        reveal(alike);
    }
    lib.lemma_program_procedures(scope, cache, callset, procs);
    lib.lemma_program_procedures(scope, cold, callset, procs);
    if procs.len() > 0 && !procs[0].is_export {
        lemma_procedure_twin(lib, reached, scope, cache, procs[0], cold);
        lemma_alike_after_procedure(lib, reached, scope, cache, procs[0], cold);
        match lib.procedure(scope, cache, procs[0]) {
            (_, Err(_)) => {},
            (cache, Ok(proc)) => {
                lemma_answers_rest(lib, reached, procs);
                lemma_program_procedures_twin(
                    lib,
                    reached,
                    scope.with(proc),
                    cache,
                    CallSet::merging(callset, proc.callset),
                    procs.drop_first(),
                    lib.procedure(scope, cold, procs[0]).0,
                );
            },
        }
    }
}

/// A program compiles alike from less.
proof fn lemma_program_twin(
    lib: Catalogue,
    reached: Set<Seq<char>>,
    kernel: Seq<Digest>,
    cache: Map<ProcId, SpecProc>,
    program: SpecProgramAst,
    cold: Map<ProcId, SpecProc>,
)
    requires
        alike(lib, reached, Scope::of_program(), cache, cold),
        lib.is_consistent(),
        soundness::settled(kernel, cold),
        steady::complete(lib, cold),
        lib.answers_procs(reached, program.procs),
        lib.answers_all(reached, program.body),
    ensures
        lib.program(cold, kernel, program).1 == lib.program(cache, kernel, program).1,
{
    let start = Scope::of_program();
    let none = Seq::<ProcId>::empty();
    let no_ops = Seq::<Operation>::empty();
    programs::lemma_program_is_ready(lib, kernel, cold);
    soundness::lemma_empty_callset(start, cold);
    programs::lemma_program_procedures(lib, kernel, start, cold, none, program.procs);
    lemma_program_procedures_twin(lib, reached, start, cache, none, program.procs, cold);
    match lib.program_procedures(start, cache, none, program.procs) {
        (_, Err(_)) => {},
        (first, Ok((procs, callset))) => {
            let cold_first = lib.program_procedures(start, cold, none, program.procs).0;
            let scope = Scope { procs, ..start };
            soundness::lemma_empty_callset(scope, cold_first);
            lemma_body_twin(
                lib,
                reached,
                scope,
                first,
                none,
                no_ops,
                program.body,
                no_ops,
                cold_first,
            );
            soundness::lemma_body(
                lib,
                kernel,
                scope,
                cold_first,
                none,
                no_ops,
                program.body,
                no_ops,
            );
            let second = lib.body(scope, first, none, no_ops, program.body, no_ops);
            let cold_second = lib.body(scope, cold_first, none, no_ops, program.body, no_ops);
            match second.1 {
                Err(_) => {},
                Ok((_, main_callset)) => {
                    soundness::lemma_callset_grows(scope, cold_first, cold_second.0, callset);
                    replay::lemma_called_again(
                        scope,
                        cold_second.0,
                        second.0,
                        callset,
                        main_callset,
                    );
                },
            }
        },
    }
}

impl SpecAssembler {
    /// True if the source asks only for procedures for which a module at one of the given paths
    /// is served, and for procedures which no module that is served exports or calls.
    pub open spec fn answers_source(self, reached: Set<Seq<char>>, source: Seq<char>) -> bool {
        SpecReader::program(source) matches Some(program) ==> {
            &&& self.catalogue.answers_procs(reached, program.procs)
            &&& self.catalogue.answers_all(reached, program.body)
        }
    }
}

/// Two sound assemblers with the same kernel and the same modules compile a source alike, with
/// the same program or the same error, if the one differs from the other only in what it has
/// compiled. The modules which the source reaches are dependable; what the other modules hold
/// does not matter.
pub proof fn lemma_cache_plays_no_part(
    first: SpecAssembler,
    second: SpecAssembler,
    reached: Set<Seq<char>>,
    source: Seq<char>,
)
    requires
        first.is_sound(),
        first.is_traceable(),
        second.is_sound(),
        first.kernel == second.kernel,
        first.catalogue == second.catalogue,
        first.catalogue.is_dependable(reached),
        first.answers_source(reached, source),
        steady::within(first.catalogue, second.cache, first.cache),
    ensures
        second.program(source).1 == first.program(source).1,
{
    match SpecReader::program(source) {
        None => {},
        Some(program) => {
            let scope = Scope::of_program();
            assert(alike(first.catalogue, reached, scope, first.cache, second.cache)) by {
                reveal(alike);
                reveal(steady::steady);
                assert(steady::avoids(first.cache, scope.active));
            }
            lemma_program_twin(
                first.catalogue,
                reached,
                first.kernel,
                first.cache,
                program,
                second.cache,
            );
        },
    }
}

/// A sound assembler compiles a source alike, with the same program or the same error, whether or
/// not it was used for another source before, whatever that was. The modules which the source
/// reaches are dependable, and the source asks for nothing which a module calls within itself but
/// does not export.
pub proof fn lemma_earlier_programs_play_no_part(
    assembler: SpecAssembler,
    earlier: Seq<char>,
    reached: Set<Seq<char>>,
    source: Seq<char>,
)
    requires
        assembler.is_sound(),
        assembler.is_traceable(),
        assembler.catalogue.is_dependable(reached),
        assembler.answers_source(reached, source),
    ensures
        assembler.after_program(earlier).program(source).1 == assembler.program(source).1,
{
    let after = assembler.after_program(earlier);
    programs::lemma_compiling_keeps_sound(assembler, earlier);
    calls::lemma_programs_add_what_modules_give(assembler, earlier);
    lemma_cache_plays_no_part(after, assembler, reached, source);
}

} // verus!
