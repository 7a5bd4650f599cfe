//! Compiling a program again gives the same program.
use vstd::prelude::*;

use crate::assembler::SpecAssembler;
use crate::ast::{SpecProcAst, SpecProgramAst};
use crate::hasher::Digest;
use crate::laws::{catalogues, linking, programs, soundness, steady};
use crate::parsers::parser::SpecReader;
use crate::procedure::{CallSet, ProcId, ProcedureId, SpecProc};
use crate::semantics::{Catalogue, Fault, Scope};

verus! {

/// The compilation of a program once more, with a cache which has grown.
spec fn rerun_of(scope: Scope, later: Map<ProcId, SpecProc>) -> steady::Rerun {
    steady::Rerun { scope, later, reached: Set::empty(), unused: None }
}

/// Code of a program can be compiled once more when the cache has grown.
proof fn lemma_rerun(
    lib: Catalogue,
    scope: Scope,
    end: Map<ProcId, SpecProc>,
    later: Map<ProcId, SpecProc>,
)
    requires
        linking::grows(end, later),
    ensures
        rerun_of(scope, later).can_follow(lib, later, end),
{
    assert(steady::without(None, end) =~= end);
    steady::lemma_can_follow_warm(lib, rerun_of(scope, later), end);
}

/// Compiling the procedures of a program once more comes to the same result.
proof fn lemma_program_procedures_again(
    lib: Catalogue,
    scope: Scope,
    cache: Map<ProcId, SpecProc>,
    callset: Seq<ProcId>,
    procs: Seq<SpecProcAst>,
    later: Map<ProcId, SpecProc>,
)
    requires
        steady::steady(lib, cache),
        lib.program_procedures(scope, cache, callset, procs).1 is Ok,
        linking::grows(lib.program_procedures(scope, cache, callset, procs).0, later),
    ensures
        lib.program_procedures(scope, later, callset, procs) == (
            later,
            lib.program_procedures(scope, cache, callset, procs).1,
        ),
    decreases procs.len(),
{
    lib.lemma_program_procedures(scope, cache, callset, procs);
    lib.lemma_program_procedures(scope, later, callset, procs);
    if procs.len() > 0 {
        let start = cache;
        let end = lib.program_procedures(scope, cache, callset, procs).0;
        steady::lemma_procedure_steady(lib, scope, cache, procs[0]);
        match lib.procedure(scope, cache, procs[0]) {
            (_, Err(_)) => {},
            (cache, Ok(proc)) => {
                let next = scope.with(proc);
                let merged = CallSet::merging(callset, proc.callset);
                let rest = procs.drop_first();
                let rerun = rerun_of(scope, later);
                steady::lemma_advances_means(lib, start, cache);
                steady::lemma_program_procedures_steady(lib, next, cache, merged, rest);
                steady::lemma_advances_means(lib, cache, end);
                lemma_rerun(lib, scope, cache, later);
                steady::lemma_procedure_again(lib, scope, start, procs[0], rerun, later);
                steady::lemma_between(lib.procedure(scope, later, procs[0]).0, later);
                lemma_program_procedures_again(lib, next, cache, merged, rest, later);
            },
        }
    }
}

/// A table does not change when its procedures stay what they are.
proof fn lemma_table_again(
    first: Map<ProcId, SpecProc>,
    second: Map<ProcId, SpecProc>,
    callset: Seq<ProcId>,
)
    requires
        linking::grows(first, second),
        forall|id: ProcId| #[trigger] callset.contains(id) ==> first.contains_key(id),
    ensures
        Catalogue::table(first, callset) == Catalogue::table(second, callset),
    decreases callset.len(),
{
    if callset.len() > 0 {
        let rest = callset.drop_last();
        assert forall|id: ProcId| #[trigger] rest.contains(id) implies first.contains_key(id) by {
            let i = choose|i: int| 0 <= i < rest.len() && rest[i] == id;
            assert(callset[i] == id);
            assert(callset.contains(id));
        }
        lemma_table_again(first, second, rest);
        assert(callset[callset.len() - 1] == callset.last());
        assert(callset.contains(callset.last()));
    }
}

/// Compiling a program once more comes to the same result.
proof fn lemma_program_again(
    lib: Catalogue,
    kernel: Seq<Digest>,
    cache: Map<ProcId, SpecProc>,
    program: SpecProgramAst,
    later: Map<ProcId, SpecProc>,
)
    requires
        lib.is_consistent(),
        soundness::settled(kernel, cache),
        steady::complete(lib, cache),
        lib.program(cache, kernel, program).1 is Ok,
        linking::grows(lib.program(cache, kernel, program).0, later),
    ensures
        lib.program(later, kernel, program) == (later, lib.program(cache, kernel, program).1),
{
    let scope = Scope::of_program();
    let none = Seq::<ProcId>::empty();
    programs::lemma_program_is_ready(lib, kernel, cache);
    soundness::lemma_empty_callset(scope, cache);
    programs::lemma_program_procedures(lib, kernel, scope, cache, none, program.procs);
    match lib.program_procedures(scope, cache, none, program.procs) {
        (_, Err(_)) => {},
        (first, Ok((procs, callset))) => {
            let scope = Scope { procs, ..Scope::of_program() };
            soundness::lemma_empty_callset(scope, first);
            soundness::lemma_body(
                lib,
                kernel,
                scope,
                first,
                none,
                Seq::empty(),
                program.body,
                Seq::empty(),
            );
            steady::lemma_program_procedures_steady(
                lib,
                Scope::of_program(),
                cache,
                none,
                program.procs,
            );
            steady::lemma_advances_means(lib, cache, first);
            match lib.body(scope, first, none, Seq::empty(), program.body, Seq::empty()) {
                (_, Err(_)) => {},
                (second, Ok((_, main_callset))) => {
                    let called = CallSet::merging(callset, main_callset);
                    lemma_program_procedures_again(
                        lib,
                        Scope::of_program(),
                        cache,
                        none,
                        program.procs,
                        later,
                    );
                    lemma_rerun(lib, scope, second, later);
                    steady::lemma_body_again(
                        lib,
                        scope,
                        first,
                        none,
                        Seq::empty(),
                        program.body,
                        Seq::empty(),
                        rerun_of(scope, later),
                        later,
                    );
                    steady::lemma_between(
                        lib.body(
                            scope,
                            later,
                            none,
                            Seq::empty(),
                            program.body,
                            Seq::empty(),
                        ).0,
                        later,
                    );
                    soundness::lemma_callset_grows(scope, first, second, callset);
                    lemma_called_again(scope, second, later, callset, main_callset);
                },
            }
        },
    }
}

/// The table of a program does not change when the cache grows.
pub(crate) proof fn lemma_called_again(
    scope: Scope,
    first: Map<ProcId, SpecProc>,
    second: Map<ProcId, SpecProc>,
    callset: Seq<ProcId>,
    main_callset: Seq<ProcId>,
)
    requires
        !scope.in_kernel,
        linking::grows(first, second),
        soundness::callset_fits(scope, first, callset),
        soundness::callset_fits(scope, first, main_callset),
    ensures
        ({
            let called = CallSet::merging(callset, main_callset);
            Catalogue::table(scope.known(first), called) == Catalogue::table(
                scope.known(second),
                called,
            )
        }),
{
    reveal(soundness::callset_fits);
    linking::lemma_merging(callset, main_callset);
    lemma_table_again(
        scope.known(first),
        scope.known(second),
        CallSet::merging(callset, main_callset),
    );
}

/// A source which a sound assembler has compiled once compiles to the same program ever after,
/// whatever has been compiled in between, and adds nothing to the cache.
pub proof fn lemma_compiling_again(
    assembler: SpecAssembler,
    source: Seq<char>,
    later: SpecAssembler,
)
    requires
        assembler.is_sound(),
        assembler.program(source).1 is Ok,
        later.kernel == assembler.kernel,
        later.catalogue == assembler.catalogue,
        linking::grows(assembler.after_program(source).cache, later.cache),
    ensures
        later.program(source) == (later.cache, assembler.program(source).1),
{
    match SpecReader::program(source) {
        None => {},
        Some(program) => {
            lemma_program_again(
                assembler.catalogue,
                assembler.kernel,
                assembler.cache,
                program,
                later.cache,
            );
        },
    }
}

/// A module which has been compiled comes to the same procedures when it is compiled again,
/// whatever has been compiled in between, and adds nothing to the cache. The cache may have held
/// procedures at the path of the module before, if the module asks for none of them. Only in a
/// kernel the same need not come of a module which was compiled outside of one.
pub proof fn lemma_module_again(
    lib: Catalogue,
    in_kernel: bool,
    active: Seq<Seq<char>>,
    cache: Map<ProcId, SpecProc>,
    path: Seq<char>,
    procs: Seq<SpecProcAst>,
    other_kernel: bool,
    other_active: Seq<Seq<char>>,
    later: Map<ProcId, SpecProc>,
)
    requires
        lib.is_consistent(),
        steady::complete(lib, cache),
        !steady::procs_ask(procs, path),
        lib.module(in_kernel, active, cache, path, procs).1 is Ok,
        linking::grows(lib.module(in_kernel, active, cache, path, procs).0, later),
        !other_active.contains(path),
        other_kernel ==> in_kernel,
    ensures
        lib.module(other_kernel, other_active, later, path, procs) == (
            later,
            lib.module(in_kernel, active, cache, path, procs).1,
        ),
{
    let none = Seq::<ProcId>::empty();
    let scope = Scope { in_kernel, active: active.push(path), procs: Seq::empty() };
    let rerun = steady::Rerun {
        scope: Scope {
            in_kernel: other_kernel,
            active: other_active.push(path),
            procs: Seq::empty(),
        },
        later,
        reached: Set::empty(),
        unused: Some(path),
    };
    assert(steady::steady(lib, cache)) by {
        reveal(steady::steady);
    }
    steady::lemma_distinct(lib, scope, cache, none, procs);
    catalogues::lemma_procedure_ids(lib, scope, cache, none, procs);
    match lib.procedures(scope, cache, none, procs) {
        (_, Err(_)) => {},
        (inner, Ok((compiled, callset))) => {
            let after = Catalogue::published(inner, compiled, callset);
            let kept = steady::without(Some(path), inner);
            catalogues::lemma_published(inner, compiled, callset);
            steady::lemma_published_values(inner, compiled, callset);
            assert forall|id: ProcId| #[trigger] kept.contains_key(id) implies later.contains_key(
                id,
            ) && later[id] == kept[id] by {
                assert(after.contains_key(id));
            }
            steady::lemma_can_follow_warm(lib, rerun, inner);
            steady::lemma_procedures_again(lib, scope, cache, none, procs, rerun, later);
            steady::lemma_between(lib.procedures(rerun.scope, later, none, procs).0, later);
            steady::lemma_publish_between(later, later, compiled, callset);
            steady::lemma_between(Catalogue::published(later, compiled, callset), later);
        },
    }
}

/// Setting the same kernel again changes nothing, even if it has replaced another one.
pub proof fn lemma_kernel_again(assembler: SpecAssembler, procs: Seq<SpecProcAst>)
    requires
        assembler.catalogue.is_consistent(),
        steady::complete(assembler.catalogue, assembler.cache),
        !steady::procs_ask(procs, ProcedureId::KERNEL_PATH@),
    ensures
        assembler.with_kernel_procs(procs) matches Ok(after) ==> after.with_kernel_procs(procs)
            == Ok::<SpecAssembler, Fault>(after),
{
    let lib = assembler.catalogue;
    let active = Seq::<Seq<char>>::empty();
    let path = ProcedureId::KERNEL_PATH@;
    match assembler.with_kernel_procs(procs) {
        Err(_) => {},
        Ok(after) => {
            lemma_module_again(
                lib,
                true,
                active,
                assembler.cache,
                path,
                procs,
                true,
                active,
                after.cache,
            );
        },
    }
}

} // verus!
