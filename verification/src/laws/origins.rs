//! Where the procedures in the cache come from.
use vstd::prelude::*;

use crate::assembler::SpecAssembler;
use crate::ast::{SpecInstruction, SpecModule, SpecNode, SpecProcAst};
use crate::code_block::Mast;
use crate::laws::{catalogues, steady};
use crate::operation::Operation;
use crate::parsers::parser::SpecReader;
use crate::procedure::{CallSet, ProcId, ProcedureId, SpecProc};
use crate::semantics::{Catalogue, Fault, Progress, Scope};

verus! {

impl SpecModule {
    /// True if the procedure belongs to the module.
    pub open spec fn holds(self, id: ProcId) -> bool {
        &&& id.module == self.path
        &&& exists|i: int| 0 <= i < self.procs.len() && (#[trigger] self.procs[i]).name == id.name
    }
}

impl Catalogue {
    /// True if the procedure belongs to a module which is served.
    pub open spec fn holds(self, id: ProcId) -> bool {
        exists|other: ProcId|
            (#[trigger] (self.lookup)(other)) is Some && (self.lookup)(other)->0.holds(id)
    }
}

/// True if no procedure has been taken out of the first cache to make the second.
pub open spec fn keeps_keys(
    first: Map<ProcId, SpecProc>,
    second: Map<ProcId, SpecProc>,
) -> bool {
    forall|id: ProcId| #[trigger] first.contains_key(id) ==> second.contains_key(id)
}

/// True if the second cache has each procedure from the first, except for those which belong to
/// modules which the catalogue serves, and those which belong to the given module.
pub open spec fn adds_at(
    lib: Catalogue,
    module: Option<SpecModule>,
    first: Map<ProcId, SpecProc>,
    second: Map<ProcId, SpecProc>,
) -> bool {
    forall|id: ProcId| #[trigger]
        second.contains_key(id) ==> {
            ||| first.contains_key(id) && second[id] == first[id]
            ||| lib.holds(id)
            ||| module matches Some(own) && own.holds(id)
        }
}

/// True if the second cache has the same procedures at the given path as the first.
pub open spec fn leaves(
    path: Seq<char>,
    first: Map<ProcId, SpecProc>,
    second: Map<ProcId, SpecProc>,
) -> bool {
    forall|id: ProcId|
        id.module == path ==> {
            &&& #[trigger] second.contains_key(id) == first.contains_key(id)
            &&& first.contains_key(id) ==> second[id] == first[id]
        }
}

/// True if each procedure in the cache is there under its own identifier.
pub open spec fn labelled(cache: Map<ProcId, SpecProc>) -> bool {
    forall|id: ProcId| #[trigger] cache.contains_key(id) ==> cache[id].id == id
}

/// How a cache changes while the modules at the paths in `active` are compiled, or the given one
/// is compiled inside of them.
#[verifier::opaque]
pub open spec fn evolves(
    lib: Catalogue,
    active: Seq<Seq<char>>,
    module: Option<SpecModule>,
    first: Map<ProcId, SpecProc>,
    second: Map<ProcId, SpecProc>,
) -> bool {
    &&& keeps_keys(first, second)
    &&& adds_at(lib, module, first, second)
    &&& forall|i: int| 0 <= i < active.len() ==> leaves(#[trigger] active[i], first, second)
    &&& labelled(first) ==> labelled(second)
}

/// A cache which does not change evolves.
proof fn lemma_stays(
    lib: Catalogue,
    active: Seq<Seq<char>>,
    module: Option<SpecModule>,
    cache: Map<ProcId, SpecProc>,
)
    ensures
        evolves(lib, active, module, cache, cache),
{
    reveal(evolves);
}

/// A cache evolves from step to step.
proof fn lemma_evolves(
    lib: Catalogue,
    active: Seq<Seq<char>>,
    first: Map<ProcId, SpecProc>,
    second: Map<ProcId, SpecProc>,
    third: Map<ProcId, SpecProc>,
)
    requires
        evolves(lib, active, None, first, second),
        evolves(lib, active, None, second, third),
    ensures
        evolves(lib, active, None, first, third),
{
    reveal(evolves);
    assert forall|i: int| 0 <= i < active.len() implies leaves(
        #[trigger] active[i],
        first,
        third,
    ) by {
        assert(leaves(active[i], first, second));
        assert(leaves(active[i], second, third));
        assert forall|id: ProcId| id.module == active[i] implies {
            &&& #[trigger] third.contains_key(id) == first.contains_key(id)
            &&& first.contains_key(id) ==> third[id] == first[id]
        } by {
            assert(second.contains_key(id) == first.contains_key(id));
        }
    }
    assert forall|id: ProcId| #[trigger] third.contains_key(id) implies {
        ||| first.contains_key(id) && third[id] == first[id]
        ||| lib.holds(id)
    } by {
        if second.contains_key(id) {
        }
    }
}

/// How the cache evolves while the nodes of a body are compiled.
proof fn lemma_nodes_origins(
    lib: Catalogue,
    scope: Scope,
    cache: Map<ProcId, SpecProc>,
    progress: Progress,
    nodes: Seq<SpecNode>,
)
    ensures
        evolves(lib, scope.active, None, cache, lib.nodes(scope, cache, progress, nodes).0),
    decreases lib.remaining(scope.active), 4nat, nodes, 0nat,
{
    let none = Seq::<Operation>::empty();
    let start = cache;
    let end = lib.nodes(scope, cache, progress, nodes).0;
    lemma_stays(lib, scope.active, None, cache);
    if nodes.len() > 0 {
        let rest = nodes.drop_first();
        match nodes[0] {
            SpecNode::Instruction(instruction) => {
                lemma_instruction_origins(lib, scope, cache, progress.callset, instruction);
                match lib.instruction(scope, cache, progress.callset, instruction) {
                    (_, Err(_)) => {},
                    (cache, Ok((effect, callset))) => {
                        lemma_nodes_origins(
                            lib,
                            scope,
                            cache,
                            progress.after(effect, callset),
                            rest,
                        );
                        lemma_evolves(lib, scope.active, start, cache, end);
                    },
                }
            },
            SpecNode::IfElse(on_true, on_false) => {
                lemma_body_origins(lib, scope, cache, progress.callset, none, on_true, none);
                match lib.body(scope, cache, progress.callset, none, on_true, none) {
                    (_, Err(_)) => {},
                    (cache, Ok((true_block, callset))) => {
                        let middle = cache;
                        if on_false.len() == 0 {
                            let split = Mast::Split(
                                Box::new(true_block),
                                Box::new(Mast::noop()),
                            );
                            lemma_nodes_origins(
                                lib,
                                scope,
                                cache,
                                progress.followed_by(split, callset),
                                rest,
                            );
                            lemma_evolves(lib, scope.active, start, cache, end);
                        } else {
                            lemma_body_origins(lib, scope, cache, callset, none, on_false, none);
                            let second = lib.body(scope, cache, callset, none, on_false, none).0;
                            lemma_evolves(lib, scope.active, start, middle, second);
                            match lib.body(scope, cache, callset, none, on_false, none) {
                                (_, Err(_)) => {},
                                (cache, Ok((false_block, callset))) => {
                                    let split = Mast::Split(
                                        Box::new(true_block),
                                        Box::new(false_block),
                                    );
                                    lemma_nodes_origins(
                                        lib,
                                        scope,
                                        cache,
                                        progress.followed_by(split, callset),
                                        rest,
                                    );
                                    lemma_evolves(lib, scope.active, start, cache, end);
                                },
                            }
                        }
                    },
                }
            },
            SpecNode::Repeat(count, body) => {
                lemma_body_origins(lib, scope, cache, progress.callset, none, body, none);
                match lib.body(scope, cache, progress.callset, none, body, none) {
                    (_, Err(_)) => {},
                    (cache, Ok((block, callset))) => {
                        lemma_nodes_origins(
                            lib,
                            scope,
                            cache,
                            progress.repeated(block, count as nat, callset),
                            rest,
                        );
                        lemma_evolves(lib, scope.active, start, cache, end);
                    },
                }
            },
            SpecNode::While(body) => {
                lemma_body_origins(lib, scope, cache, progress.callset, none, body, none);
                match lib.body(scope, cache, progress.callset, none, body, none) {
                    (_, Err(_)) => {},
                    (cache, Ok((block, callset))) => {
                        lemma_nodes_origins(
                            lib,
                            scope,
                            cache,
                            progress.followed_by(
                                Mast::Loop(Box::new(block)),
                                callset,
                            ),
                            rest,
                        );
                        lemma_evolves(lib, scope.active, start, cache, end);
                    },
                }
            },
        }
    }
}

/// How the cache evolves while a body is compiled.
pub(crate) proof fn lemma_body_origins(
    lib: Catalogue,
    scope: Scope,
    cache: Map<ProcId, SpecProc>,
    callset: Seq<ProcId>,
    prologue: Seq<Operation>,
    nodes: Seq<SpecNode>,
    epilogue: Seq<Operation>,
)
    ensures
        evolves(
            lib,
            scope.active,
            None,
            cache,
            lib.body(scope, cache, callset, prologue, nodes, epilogue).0,
        ),
    decreases lib.remaining(scope.active), 4nat, nodes, 1nat,
{
    let start = Progress { blocks: Seq::empty(), ops: prologue, callset };
    lemma_nodes_origins(lib, scope, cache, start, nodes);
}

/// How the cache evolves while an instruction is compiled.
pub(crate) proof fn lemma_instruction_origins(
    lib: Catalogue,
    scope: Scope,
    cache: Map<ProcId, SpecProc>,
    callset: Seq<ProcId>,
    instruction: SpecInstruction,
)
    ensures
        evolves(
            lib,
            scope.active,
            None,
            cache,
            lib.instruction(scope, cache, callset, instruction).0,
        ),
    decreases lib.remaining(scope.active), 3nat, Seq::<SpecNode>::empty(), 0nat,
{
    lemma_stays(lib, scope.active, None, cache);
    match instruction {
        SpecInstruction::ExecImported(id) => {
            lemma_imported_origins(lib, scope, cache, id);
        },
        SpecInstruction::CallImported(id) => {
            lemma_imported_origins(lib, scope, cache, id);
        },
        _ => {},
    }
}

/// How the cache evolves while a procedure of another module is looked for.
proof fn lemma_imported_origins(
    lib: Catalogue,
    scope: Scope,
    cache: Map<ProcId, SpecProc>,
    id: ProcId,
)
    ensures
        evolves(lib, scope.active, None, cache, lib.imported(scope, cache, id).0),
    decreases lib.remaining(scope.active), 2nat, Seq::<SpecNode>::empty(), 0nat,
{
    lemma_stays(lib, scope.active, None, cache);
    if !cache.contains_key(id) {
        match (lib.lookup)(id) {
            None => {},
            Some(module) => {
                let served = lib.paths.finite() && lib.paths.contains(module.path);
                if scope.active.contains(module.path) || served {
                    lib.lemma_remaining(scope.active, module.path);
                    lemma_module_origins(
                        lib,
                        scope.in_kernel,
                        scope.active,
                        cache,
                        module.path,
                        module.procs,
                    );
                    lemma_evolves_outside(
                        lib,
                        scope.active,
                        id,
                        cache,
                        lib.module(
                            scope.in_kernel,
                            scope.active,
                            cache,
                            module.path,
                            module.procs,
                        ).0,
                    );
                }
            },
        }
    }
}

/// How the cache evolves while a module is compiled.
proof fn lemma_module_origins(
    lib: Catalogue,
    in_kernel: bool,
    active: Seq<Seq<char>>,
    cache: Map<ProcId, SpecProc>,
    path: Seq<char>,
    procs: Seq<SpecProcAst>,
)
    ensures
        evolves(
            lib,
            active,
            Some(SpecModule { path, procs }),
            cache,
            lib.module(in_kernel, active, cache, path, procs).0,
        ),
        lib.module(in_kernel, active, cache, path, procs).1 is Err ==> leaves(
            path,
            cache,
            lib.module(in_kernel, active, cache, path, procs).0,
        ),
    decreases
            if active.contains(path) {
                lib.remaining(active)
            } else {
                lib.remaining(active.push(path))
            },
            if active.contains(path) {
                1nat
            } else {
                7nat
            },
            Seq::<SpecNode>::empty(),
            0nat,
{
    lemma_stays(lib, active, Some(SpecModule { path, procs }), cache);
    if !active.contains(path) {
        let scope = Scope { in_kernel, active: active.push(path), procs: Seq::empty() };
        lemma_procedures_origins(lib, scope, cache, Seq::empty(), procs);
        catalogues::lemma_procedure_ids(lib, scope, cache, Seq::empty(), procs);
        match lib.procedures(scope, cache, Seq::empty(), procs) {
            (inner, Err(_)) => {
                lemma_module_fails(lib, active, path, procs, cache, inner);
            },
            (inner, Ok((compiled, callset))) => {
                lemma_module_publishes(lib, active, path, cache, inner, procs, compiled, callset);
            },
        }
    }
}

/// What belongs to a module of the catalogue belongs to what the catalogue serves.
proof fn lemma_evolves_outside(
    lib: Catalogue,
    active: Seq<Seq<char>>,
    id: ProcId,
    first: Map<ProcId, SpecProc>,
    second: Map<ProcId, SpecProc>,
)
    requires
        (lib.lookup)(id) is Some,
        evolves(lib, active, Some((lib.lookup)(id)->0), first, second),
    ensures
        evolves(lib, active, None, first, second),
{
    reveal(evolves);
    let module = (lib.lookup)(id)->0;
    assert forall|other: ProcId| #[trigger] second.contains_key(other) implies {
        ||| first.contains_key(other) && second[other] == first[other]
        ||| lib.holds(other)
    } by {
        if module.holds(other) {
            assert((lib.lookup)(id)->0.holds(other));
        }
    }
}

/// The cache after the compilation of a module has failed.
proof fn lemma_module_fails(
    lib: Catalogue,
    active: Seq<Seq<char>>,
    path: Seq<char>,
    procs: Seq<SpecProcAst>,
    first: Map<ProcId, SpecProc>,
    second: Map<ProcId, SpecProc>,
)
    requires
        evolves(lib, active.push(path), None, first, second),
    ensures
        evolves(lib, active, Some(SpecModule { path, procs }), first, second),
        leaves(path, first, second),
{
    reveal(evolves);
    let longer = active.push(path);
    assert(longer[active.len() as int] == path);
    assert forall|i: int| 0 <= i < active.len() implies leaves(
        #[trigger] active[i],
        first,
        second,
    ) by {
        assert(longer[i] == active[i]);
    }
}

/// The cache after the procedures of a module have been put into it.
proof fn lemma_module_publishes(
    lib: Catalogue,
    active: Seq<Seq<char>>,
    path: Seq<char>,
    first: Map<ProcId, SpecProc>,
    second: Map<ProcId, SpecProc>,
    procs: Seq<SpecProcAst>,
    compiled: Seq<SpecProc>,
    callset: Seq<ProcId>,
)
    requires
        !active.contains(path),
        evolves(lib, active.push(path), None, first, second),
        catalogues::follows(compiled, Seq::empty(), path, procs),
    ensures
        evolves(
            lib,
            active,
            Some(SpecModule { path, procs }),
            first,
            Catalogue::published(second, compiled, callset),
        ),
{
    let third = Catalogue::published(second, compiled, callset);
    let module = SpecModule { path, procs };
    lemma_module_fails(lib, active, path, procs, first, second);
    reveal(evolves);
    catalogues::lemma_published(second, compiled, callset);
    assert forall|i: int| 0 <= i < compiled.len() implies module.holds(
        (#[trigger] compiled[i]).id,
    ) by {
        assert(module.procs[i].name == compiled[i].id.name);
    }
    assert forall|id: ProcId| #[trigger] third.contains_key(id) implies {
        ||| first.contains_key(id) && third[id] == first[id]
        ||| lib.holds(id)
        ||| module.holds(id)
    } by {
        if second.contains_key(id) && third[id] == second[id] {
        }
    }
    assert forall|i: int| 0 <= i < active.len() implies leaves(
        #[trigger] active[i],
        first,
        third,
    ) by {
        assert(leaves(active[i], first, second));
        assert forall|id: ProcId| id.module == active[i] implies {
            &&& #[trigger] third.contains_key(id) == first.contains_key(id)
            &&& first.contains_key(id) ==> third[id] == first[id]
        } by {
            assert(second.contains_key(id) == first.contains_key(id));
            assert(active.contains(id.module));
        }
    }
}

/// How the cache evolves while the procedures of a module are compiled.
proof fn lemma_procedures_origins(
    lib: Catalogue,
    scope: Scope,
    cache: Map<ProcId, SpecProc>,
    callset: Seq<ProcId>,
    procs: Seq<SpecProcAst>,
)
    ensures
        evolves(lib, scope.active, None, cache, lib.procedures(scope, cache, callset, procs).0),
    decreases lib.remaining(scope.active), 6nat, Seq::<SpecNode>::empty(), procs.len(),
{
    let start = cache;
    let end = lib.procedures(scope, cache, callset, procs).0;
    lemma_stays(lib, scope.active, None, cache);
    if procs.len() > 0 {
        lemma_procedure_origins(lib, scope, cache, procs[0]);
        match lib.procedure(scope, cache, procs[0]) {
            (_, Err(_)) => {},
            (cache, Ok(proc)) => {
                lemma_procedures_origins(
                    lib,
                    scope.with(proc),
                    cache,
                    CallSet::merging(callset, proc.callset),
                    procs.drop_first(),
                );
                lemma_evolves(lib, scope.active, start, cache, end);
            },
        }
    }
}

/// How the cache evolves while a procedure is compiled.
pub(crate) proof fn lemma_procedure_origins(
    lib: Catalogue,
    scope: Scope,
    cache: Map<ProcId, SpecProc>,
    proc: SpecProcAst,
)
    ensures
        evolves(lib, scope.active, None, cache, lib.procedure(scope, cache, proc).0),
    decreases lib.remaining(scope.active), 5nat, Seq::<SpecNode>::empty(), 0nat,
{
    lemma_stays(lib, scope.active, None, cache);
    lemma_body_origins(
        lib,
        scope,
        cache,
        Seq::empty(),
        proc.prologue(),
        proc.body,
        proc.epilogue(),
    );
}

/// How the cache evolves while the procedures of a program are compiled.
proof fn lemma_program_procedures_origins(
    lib: Catalogue,
    scope: Scope,
    cache: Map<ProcId, SpecProc>,
    callset: Seq<ProcId>,
    procs: Seq<SpecProcAst>,
)
    ensures
        evolves(
            lib,
            scope.active,
            None,
            cache,
            lib.program_procedures(scope, cache, callset, procs).0,
        ),
    decreases procs.len(),
{
    let start = cache;
    let end = lib.program_procedures(scope, cache, callset, procs).0;
    lib.lemma_program_procedures(scope, cache, callset, procs);
    lemma_stays(lib, scope.active, None, cache);
    if procs.len() > 0 && !procs[0].is_export {
        lemma_procedure_origins(lib, scope, cache, procs[0]);
        match lib.procedure(scope, cache, procs[0]) {
            (_, Err(_)) => {},
            (cache, Ok(proc)) => {
                lemma_program_procedures_origins(
                    lib,
                    scope.with(proc),
                    cache,
                    CallSet::merging(callset, proc.callset),
                    procs.drop_first(),
                );
                lemma_evolves(lib, scope.active, start, cache, end);
            },
        }
    }
}

/// A cache which has no procedures of the modules in progress gets none.
pub(crate) proof fn lemma_avoids_evolves(
    lib: Catalogue,
    active: Seq<Seq<char>>,
    first: Map<ProcId, SpecProc>,
    second: Map<ProcId, SpecProc>,
)
    requires
        evolves(lib, active, None, first, second),
        steady::avoids(first, active),
    ensures
        steady::avoids(second, active),
{
    reveal(evolves);
    assert forall|id: ProcId| #[trigger] second.contains_key(id) implies !active.contains(
        id.module,
    ) by {
        if active.contains(id.module) {
            let i = choose|i: int| 0 <= i < active.len() && active[i] == id.module;
            assert(leaves(active[i], first, second));
        }
    }
}

/// While the procedures of a module are compiled, nothing changes at its path.
pub(crate) proof fn lemma_nothing_published_yet(
    lib: Catalogue,
    scope: Scope,
    cache: Map<ProcId, SpecProc>,
    callset: Seq<ProcId>,
    procs: Seq<SpecProcAst>,
)
    requires
        scope.active.len() > 0,
    ensures
        leaves(scope.active.last(), cache, lib.procedures(scope, cache, callset, procs).0),
{
    lemma_procedures_origins(lib, scope, cache, callset, procs);
    reveal(evolves);
    let last = scope.active.len() - 1;
    assert(leaves(scope.active[last], cache, lib.procedures(scope, cache, callset, procs).0));
}

/// Compiling a program, whether or not it succeeds, takes no procedure out of the cache. Whatever
/// it adds or replaces belongs to modules which the catalogue serves; its own procedures are not
/// kept. Procedures stay under their own identifiers.
pub proof fn lemma_programs_keep_the_cache(assembler: SpecAssembler, source: Seq<char>)
    ensures
        ({
            let after = assembler.after_program(source).cache;
            &&& keeps_keys(assembler.cache, after)
            &&& adds_at(assembler.catalogue, None, assembler.cache, after)
            &&& leaves(ProcedureId::PROGRAM_PATH@, assembler.cache, after)
            &&& labelled(assembler.cache) ==> labelled(after)
        }),
{
    let lib = assembler.catalogue;
    let start = Scope::of_program();
    let none = Seq::<ProcId>::empty();
    lemma_stays(lib, start.active, None, assembler.cache);
    match SpecReader::program(source) {
        None => {},
        Some(program) => {
            lemma_program_procedures_origins(lib, start, assembler.cache, none, program.procs);
            match lib.program_procedures(start, assembler.cache, none, program.procs) {
                (_, Err(_)) => {},
                (cache, Ok((procs, _))) => {
                    let scope = Scope { procs, ..start };
                    lemma_body_origins(
                        lib,
                        scope,
                        cache,
                        none,
                        Seq::empty(),
                        program.body,
                        Seq::empty(),
                    );
                    lemma_evolves(
                        lib,
                        start.active,
                        assembler.cache,
                        cache,
                        lib.body(
                            scope,
                            cache,
                            none,
                            Seq::empty(),
                            program.body,
                            Seq::empty(),
                        ).0,
                    );
                },
            }
        },
    }
    reveal(evolves);
    assert(start.active[0] == ProcedureId::PROGRAM_PATH@);
}

/// Compiling a module, whether or not it succeeds, takes no procedure out of the cache. Whatever
/// it adds or replaces belongs to it or to modules which the catalogue serves, but not to modules
/// which are being compiled. If it fails, the procedures at its own path are those from before.
/// Procedures stay under their own identifiers.
pub proof fn lemma_modules_keep_the_cache(
    lib: Catalogue,
    in_kernel: bool,
    active: Seq<Seq<char>>,
    cache: Map<ProcId, SpecProc>,
    path: Seq<char>,
    procs: Seq<SpecProcAst>,
)
    ensures
        ({
            let outcome = lib.module(in_kernel, active, cache, path, procs);
            &&& keeps_keys(cache, outcome.0)
            &&& adds_at(lib, Some(SpecModule { path, procs }), cache, outcome.0)
            &&& forall|i: int|
                0 <= i < active.len() ==> leaves(#[trigger] active[i], cache, outcome.0)
            &&& outcome.1 is Err ==> leaves(path, cache, outcome.0)
            &&& labelled(cache) ==> labelled(outcome.0)
        }),
{
    lemma_module_origins(lib, in_kernel, active, cache, path, procs);
    reveal(evolves);
}

/// Compiling a kernel, whether or not it succeeds, takes no procedure out of the cache. Whatever
/// it adds or replaces belongs to it or to modules which the catalogue serves. If it fails, the
/// cache has the same procedures of a kernel as before.
pub proof fn lemma_kernels_keep_the_cache(assembler: SpecAssembler, procs: Seq<SpecProcAst>)
    ensures
        ({
            let path = ProcedureId::KERNEL_PATH@;
            let outcome = assembler.catalogue.kernel(assembler.cache, procs);
            &&& keeps_keys(assembler.cache, outcome.0)
            &&& adds_at(
                assembler.catalogue,
                Some(SpecModule { path, procs }),
                assembler.cache,
                outcome.0,
            )
            &&& outcome.1 is Err ==> leaves(path, assembler.cache, outcome.0)
            &&& labelled(assembler.cache) ==> labelled(outcome.0)
        }),
{
    lemma_modules_keep_the_cache(
        assembler.catalogue,
        true,
        Seq::empty(),
        assembler.cache,
        ProcedureId::KERNEL_PATH@,
        procs,
    );
}

/// A procedure which has been found is in the cache, and is found there ever after: from any
/// place, and without another look at the modules.
pub proof fn lemma_found_procedures_stay_found(
    lib: Catalogue,
    scope: Scope,
    cache: Map<ProcId, SpecProc>,
    id: ProcId,
    other: Scope,
    later: Map<ProcId, SpecProc>,
)
    ensures
        lib.imported(scope, cache, id) matches (after, Ok(proc)) ==> {
            &&& after.contains_key(id)
            &&& after[id] == proc
            &&& later.contains_key(id) && later[id] == proc ==> lib.imported(other, later, id) == (
                later,
                Ok::<SpecProc, Fault>(proc),
            )
        },
{
}

} // verus!
