//! Assembling with a well-behaved catalogue never gets stuck.
use vstd::prelude::*;

use crate::ast::{SpecInstruction, SpecNode, SpecProcAst, SpecProgramAst};
use crate::code_block::Mast;
use crate::hasher::Digest;
use crate::operation::Operation;
use crate::procedure::{CallSet, ProcId, ProcedureId, SpecProc};
use crate::program::SpecProgram;
use crate::semantics::{Catalogue, Fault, Progress, Scope};

verus! {

/// A module gives its procedures to the cache exactly if they are exported or called; what the
/// cache held before stays, except for procedures which are replaced.
pub proof fn lemma_published(
    cache: Map<ProcId, SpecProc>,
    procs: Seq<SpecProc>,
    callset: Seq<ProcId>,
)
    ensures
        forall|id: ProcId| #[trigger]
            Catalogue::published(cache, procs, callset).contains_key(id) <==> {
                ||| cache.contains_key(id)
                ||| exists|i: int|
                    0 <= i < procs.len() && (#[trigger] procs[i]).id == id && (procs[i].is_export
                        || callset.contains(id))
            },
        forall|id: ProcId| #[trigger]
            Catalogue::published(cache, procs, callset).contains_key(id) ==> {
                ||| cache.contains_key(id) && Catalogue::published(cache, procs, callset)[id]
                    == cache[id]
                ||| exists|i: int|
                    0 <= i < procs.len() && (#[trigger] procs[i]).id == id && (procs[i].is_export
                        || callset.contains(id)) && Catalogue::published(cache, procs, callset)[id]
                        == procs[i]
            },
    decreases procs.len(),
{
    if procs.len() > 0 {
        let rest = procs.drop_last();
        let last = procs.last();
        let before = Catalogue::published(cache, rest, callset);
        let after = Catalogue::published(cache, procs, callset);
        lemma_published(cache, rest, callset);
        assert(procs[procs.len() - 1] == last);
        assert forall|id: ProcId| #[trigger] after.contains_key(id) <==> {
            ||| cache.contains_key(id)
            ||| exists|i: int|
                0 <= i < procs.len() && (#[trigger] procs[i]).id == id && (procs[i].is_export
                    || callset.contains(id))
        } by {
            if exists|i: int|
                0 <= i < procs.len() && (#[trigger] procs[i]).id == id && (procs[i].is_export
                    || callset.contains(id)) {
                let i = choose|i: int|
                    0 <= i < procs.len() && (#[trigger] procs[i]).id == id && (procs[i].is_export
                        || callset.contains(id));
                if i < rest.len() {
                    assert(rest[i] == procs[i]);
                    assert(before.contains_key(id));
                }
            }
            if before.contains_key(id) && !cache.contains_key(id) {
                let i = choose|i: int|
                    0 <= i < rest.len() && (#[trigger] rest[i]).id == id && (rest[i].is_export
                        || callset.contains(id));
                assert(procs[i] == rest[i]);
            }
        }
        assert forall|id: ProcId| #[trigger] after.contains_key(id) implies {
            ||| cache.contains_key(id) && after[id] == cache[id]
            ||| exists|i: int|
                0 <= i < procs.len() && (#[trigger] procs[i]).id == id && (procs[i].is_export
                    || callset.contains(id)) && after[id] == procs[i]
        } by {
            if !((last.is_export || callset.contains(last.id)) && id == last.id) {
                assert(before.contains_key(id));
                assert(after[id] == before[id]);
                if !(cache.contains_key(id) && before[id] == cache[id]) {
                    let i = choose|i: int|
                        0 <= i < rest.len() && (#[trigger] rest[i]).id == id && (rest[i].is_export
                            || callset.contains(id)) && before[id] == rest[i];
                    assert(procs[i] == rest[i]);
                }
            }
        }
    }
}

/// True if `compiled` holds the procedures in `before`, and behind them a procedure for each one
/// in `procs`, under its name and exported as its source says.
pub open spec fn follows(
    compiled: Seq<SpecProc>,
    before: Seq<SpecProc>,
    path: Seq<char>,
    procs: Seq<SpecProcAst>,
) -> bool {
    &&& compiled.len() == before.len() + procs.len()
    &&& compiled.take(before.len() as int) == before
    &&& forall|j: int|
        before.len() <= j < compiled.len() ==> {
            &&& (#[trigger] compiled[j]).id.module == path
            &&& compiled[j].id.name == procs[j - before.len()].name
            &&& compiled[j].is_export == procs[j - before.len()].is_export
        }
}

/// What follows some procedures and one more follows those procedures, if that one is the first.
proof fn lemma_follows(
    compiled: Seq<SpecProc>,
    before: Seq<SpecProc>,
    path: Seq<char>,
    procs: Seq<SpecProcAst>,
    proc: SpecProc,
)
    requires
        procs.len() > 0,
        follows(compiled, before.push(proc), path, procs.drop_first()),
        proc.id.module == path,
        proc.id.name == procs[0].name,
        proc.is_export == procs[0].is_export,
    ensures
        follows(compiled, before, path, procs),
{
    let n = before.len() as int;
    let rest = procs.drop_first();
    assert(compiled.take(n) =~= before) by {
        assert(compiled.take(n + 1).take(n) =~= compiled.take(n));
        assert(before.push(proc).take(n) =~= before);
    }
    assert forall|j: int| n <= j < compiled.len() implies {
        &&& (#[trigger] compiled[j]).id.module == path
        &&& compiled[j].id.name == procs[j - n].name
        &&& compiled[j].is_export == procs[j - n].is_export
    } by {
        if j > n {
            assert(rest[j - (n + 1)] == procs[j - n]);
        } else {
            assert(compiled[n] == compiled.take(n + 1)[n]);
        }
    }
}

/// Each procedure of a module is compiled under its name, and exported as its source says.
pub proof fn lemma_procedure_ids(
    lib: Catalogue,
    scope: Scope,
    cache: Map<ProcId, SpecProc>,
    callset: Seq<ProcId>,
    procs: Seq<SpecProcAst>,
)
    ensures
        lib.procedures(scope, cache, callset, procs).1 matches Ok((compiled, _)) ==> follows(
            compiled,
            scope.procs,
            scope.active.last(),
            procs,
        ),
    decreases procs.len(),
{
    if procs.len() == 0 {
        assert(scope.procs.take(scope.procs.len() as int) =~= scope.procs);
    } else {
        match lib.procedure(scope, cache, procs[0]) {
            (_, Err(_)) => {},
            (next, Ok(proc)) => {
                let merged = CallSet::merging(callset, proc.callset);
                lemma_procedure_ids(lib, scope.with(proc), next, merged, procs.drop_first());
                match lib.procedures(scope.with(proc), next, merged, procs.drop_first()).1 {
                    Err(_) => {},
                    Ok((compiled, _)) => {
                        lemma_follows(
                            compiled,
                            scope.procs,
                            scope.active.last(),
                            procs,
                            proc,
                        );
                    },
                }
            },
        }
    }
}

/// A module which has been compiled has its exported procedures in the cache.
pub proof fn lemma_module_exports(
    lib: Catalogue,
    in_kernel: bool,
    active: Seq<Seq<char>>,
    cache: Map<ProcId, SpecProc>,
    path: Seq<char>,
    procs: Seq<SpecProcAst>,
)
    ensures
        lib.module(in_kernel, active, cache, path, procs) matches (after, Ok(_)) ==> forall|i: int|
            0 <= i < procs.len() && (#[trigger] procs[i]).is_export ==> after.contains_key(
                ProcId { module: path, name: procs[i].name },
            ),
{
    if !active.contains(path) {
        let scope = Scope { in_kernel, active: active.push(path), procs: Seq::empty() };
        lemma_procedure_ids(lib, scope, cache, Seq::empty(), procs);
        match lib.procedures(scope, cache, Seq::empty(), procs) {
            (_, Err(_)) => {},
            (inner, Ok((compiled, callset))) => {
                lemma_published(inner, compiled, callset);
                let after = Catalogue::published(inner, compiled, callset);
                assert forall|i: int|
                    0 <= i < procs.len() && (#[trigger] procs[i]).is_export implies
                    after.contains_key(ProcId { module: path, name: procs[i].name }) by {
                    assert(compiled[i].is_export);
                    assert(compiled[i].id == (ProcId { module: path, name: procs[i].name }));
                }
            },
        }
    }
}

/// Compiling the nodes of a body does not get stuck.
proof fn lemma_nodes_not_stuck(
    lib: Catalogue,
    scope: Scope,
    cache: Map<ProcId, SpecProc>,
    progress: Progress,
    nodes: Seq<SpecNode>,
)
    requires
        lib.well_behaved(),
    ensures
        !(lib.nodes(scope, cache, progress, nodes).1 matches Err(Fault::Stuck)),
    decreases lib.remaining(scope.active), 4nat, nodes, 0nat,
{
    let none = Seq::<Operation>::empty();
    if nodes.len() > 0 {
        let rest = nodes.drop_first();
        match nodes[0] {
            SpecNode::Instruction(instruction) => {
                lemma_instruction_not_stuck(lib, scope, cache, progress.callset, instruction);
                match lib.instruction(scope, cache, progress.callset, instruction) {
                    (_, Err(_)) => {},
                    (cache, Ok((effect, callset))) => {
                        lemma_nodes_not_stuck(
                            lib,
                            scope,
                            cache,
                            progress.after(effect, callset),
                            rest,
                        );
                    },
                }
            },
            SpecNode::IfElse(on_true, on_false) => {
                lemma_body_not_stuck(lib, scope, cache, progress.callset, none, on_true, none);
                match lib.body(scope, cache, progress.callset, none, on_true, none) {
                    (_, Err(_)) => {},
                    (cache, Ok((true_block, callset))) => {
                        lemma_body_not_stuck(lib, scope, cache, callset, none, on_false, none);
                        if on_false.len() == 0 {
                            let split = Mast::Split(
                                Box::new(true_block),
                                Box::new(Mast::noop()),
                            );
                            lemma_nodes_not_stuck(
                                lib,
                                scope,
                                cache,
                                progress.followed_by(split, callset),
                                rest,
                            );
                        } else {
                            match lib.body(scope, cache, callset, none, on_false, none) {
                                (_, Err(_)) => {},
                                (cache, Ok((false_block, callset))) => {
                                    let split = Mast::Split(
                                        Box::new(true_block),
                                        Box::new(false_block),
                                    );
                                    lemma_nodes_not_stuck(
                                        lib,
                                        scope,
                                        cache,
                                        progress.followed_by(split, callset),
                                        rest,
                                    );
                                },
                            }
                        }
                    },
                }
            },
            SpecNode::Repeat(count, body) => {
                lemma_body_not_stuck(lib, scope, cache, progress.callset, none, body, none);
                match lib.body(scope, cache, progress.callset, none, body, none) {
                    (_, Err(_)) => {},
                    (cache, Ok((block, callset))) => {
                        lemma_nodes_not_stuck(
                            lib,
                            scope,
                            cache,
                            progress.repeated(block, count as nat, callset),
                            rest,
                        );
                    },
                }
            },
            SpecNode::While(body) => {
                lemma_body_not_stuck(lib, scope, cache, progress.callset, none, body, none);
                match lib.body(scope, cache, progress.callset, none, body, none) {
                    (_, Err(_)) => {},
                    (cache, Ok((block, callset))) => {
                        lemma_nodes_not_stuck(
                            lib,
                            scope,
                            cache,
                            progress.followed_by(
                                Mast::Loop(Box::new(block)),
                                callset,
                            ),
                            rest,
                        );
                    },
                }
            },
        }
    }
}

/// Compiling a body does not get stuck.
proof fn lemma_body_not_stuck(
    lib: Catalogue,
    scope: Scope,
    cache: Map<ProcId, SpecProc>,
    callset: Seq<ProcId>,
    prologue: Seq<Operation>,
    nodes: Seq<SpecNode>,
    epilogue: Seq<Operation>,
)
    requires
        lib.well_behaved(),
    ensures
        !(lib.body(scope, cache, callset, prologue, nodes, epilogue).1 matches Err(Fault::Stuck)),
    decreases lib.remaining(scope.active), 4nat, nodes, 1nat,
{
    let start = Progress { blocks: Seq::empty(), ops: prologue, callset };
    lemma_nodes_not_stuck(lib, scope, cache, start, nodes);
}

/// Compiling an instruction does not get stuck.
proof fn lemma_instruction_not_stuck(
    lib: Catalogue,
    scope: Scope,
    cache: Map<ProcId, SpecProc>,
    callset: Seq<ProcId>,
    instruction: SpecInstruction,
)
    requires
        lib.well_behaved(),
    ensures
        !(lib.instruction(scope, cache, callset, instruction).1 matches Err(Fault::Stuck)),
    decreases lib.remaining(scope.active), 3nat, Seq::<SpecNode>::empty(), 0nat,
{
    match instruction {
        SpecInstruction::ExecImported(id) => {
            lemma_imported_not_stuck(lib, scope, cache, id);
        },
        SpecInstruction::CallImported(id) => {
            lemma_imported_not_stuck(lib, scope, cache, id);
        },
        _ => {},
    }
}

/// Looking for a procedure of another module does not get stuck.
proof fn lemma_imported_not_stuck(
    lib: Catalogue,
    scope: Scope,
    cache: Map<ProcId, SpecProc>,
    id: ProcId,
)
    requires
        lib.well_behaved(),
    ensures
        !(lib.imported(scope, cache, id).1 matches Err(Fault::Stuck)),
    decreases lib.remaining(scope.active), 2nat, Seq::<SpecNode>::empty(), 0nat,
{
    if !cache.contains_key(id) {
        match (lib.lookup)(id) {
            None => {},
            Some(module) => {
                lib.lemma_remaining(scope.active, module.path);
                lemma_module_not_stuck(
                    lib,
                    scope.in_kernel,
                    scope.active,
                    cache,
                    module.path,
                    module.procs,
                );
                lemma_module_exports(
                    lib,
                    scope.in_kernel,
                    scope.active,
                    cache,
                    module.path,
                    module.procs,
                );
            },
        }
    }
}

/// Compiling a module does not get stuck.
proof fn lemma_module_not_stuck(
    lib: Catalogue,
    in_kernel: bool,
    active: Seq<Seq<char>>,
    cache: Map<ProcId, SpecProc>,
    path: Seq<char>,
    procs: Seq<SpecProcAst>,
)
    requires
        lib.well_behaved(),
    ensures
        !(lib.module(in_kernel, active, cache, path, procs).1 matches Err(Fault::Stuck)),
    decreases
            if active.contains(path) {
                lib.remaining(active)
            } else {
                lib.remaining(active.push(path))
            },
            if active.contains(path) {
                1nat
            } else {
                7nat
            },
            Seq::<SpecNode>::empty(),
            0nat,
{
    if !active.contains(path) {
        let scope = Scope { in_kernel, active: active.push(path), procs: Seq::empty() };
        lemma_procedures_not_stuck(lib, scope, cache, Seq::empty(), procs);
    }
}

/// Compiling the procedures of a module does not get stuck.
proof fn lemma_procedures_not_stuck(
    lib: Catalogue,
    scope: Scope,
    cache: Map<ProcId, SpecProc>,
    callset: Seq<ProcId>,
    procs: Seq<SpecProcAst>,
)
    requires
        lib.well_behaved(),
    ensures
        !(lib.procedures(scope, cache, callset, procs).1 matches Err(Fault::Stuck)),
    decreases lib.remaining(scope.active), 6nat, Seq::<SpecNode>::empty(), procs.len(),
{
    if procs.len() > 0 {
        lemma_procedure_not_stuck(lib, scope, cache, procs[0]);
        match lib.procedure(scope, cache, procs[0]) {
            (_, Err(_)) => {},
            (cache, Ok(proc)) => {
                lemma_procedures_not_stuck(
                    lib,
                    scope.with(proc),
                    cache,
                    CallSet::merging(callset, proc.callset),
                    procs.drop_first(),
                );
            },
        }
    }
}

/// Compiling a procedure does not get stuck.
proof fn lemma_procedure_not_stuck(
    lib: Catalogue,
    scope: Scope,
    cache: Map<ProcId, SpecProc>,
    proc: SpecProcAst,
)
    requires
        lib.well_behaved(),
    ensures
        !(lib.procedure(scope, cache, proc).1 matches Err(Fault::Stuck)),
    decreases lib.remaining(scope.active), 5nat, Seq::<SpecNode>::empty(), 0nat,
{
    lemma_body_not_stuck(
        lib,
        scope,
        cache,
        Seq::empty(),
        proc.prologue(),
        proc.body,
        proc.epilogue(),
    );
}

/// Compiling the procedures of a program does not get stuck.
proof fn lemma_program_procedures_not_stuck(
    lib: Catalogue,
    scope: Scope,
    cache: Map<ProcId, SpecProc>,
    callset: Seq<ProcId>,
    procs: Seq<SpecProcAst>,
)
    requires
        lib.well_behaved(),
    ensures
        !(lib.program_procedures(scope, cache, callset, procs).1 matches Err(Fault::Stuck)),
    decreases procs.len(),
{
    lib.lemma_program_procedures(scope, cache, callset, procs);
    if procs.len() > 0 && !procs[0].is_export {
        lemma_procedure_not_stuck(lib, scope, cache, procs[0]);
        match lib.procedure(scope, cache, procs[0]) {
            (_, Err(_)) => {},
            (cache, Ok(proc)) => {
                lemma_program_procedures_not_stuck(
                    lib,
                    scope.with(proc),
                    cache,
                    CallSet::merging(callset, proc.callset),
                    procs.drop_first(),
                );
            },
        }
    }
}

/// With a well-behaved catalogue, compiling a program always comes to a program or to an error
/// of the source.
pub proof fn lemma_program_not_stuck(
    lib: Catalogue,
    cache: Map<ProcId, SpecProc>,
    kernel: Seq<Digest>,
    program: SpecProgramAst,
)
    requires
        lib.well_behaved(),
    ensures
        lib.program(cache, kernel, program).1 != Err::<SpecProgram, Fault>(Fault::Stuck),
{
    lemma_program_procedures_not_stuck(
        lib,
        Scope::of_program(),
        cache,
        Seq::empty(),
        program.procs,
    );
    match lib.program_procedures(Scope::of_program(), cache, Seq::empty(), program.procs) {
        (_, Err(_)) => {},
        (cache, Ok((procs, _))) => {
            let scope = Scope { procs, ..Scope::of_program() };
            lemma_body_not_stuck(
                lib,
                scope,
                cache,
                Seq::empty(),
                Seq::empty(),
                program.body,
                Seq::empty(),
            );
        },
    }
}

/// With a well-behaved catalogue, compiling a kernel always comes to a kernel or to an error of
/// the source.
pub proof fn lemma_kernel_not_stuck(
    lib: Catalogue,
    cache: Map<ProcId, SpecProc>,
    procs: Seq<SpecProcAst>,
)
    requires
        lib.well_behaved(),
    ensures
        lib.kernel(cache, procs).1 != Err::<Seq<Digest>, Fault>(Fault::Stuck),
{
    lemma_module_not_stuck(lib, true, Seq::empty(), cache, ProcedureId::KERNEL_PATH@, procs);
}

} // verus!
