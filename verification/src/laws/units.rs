//! What procedures, modules, kernels and programs compile to.
use vstd::prelude::*;

use crate::assembler::SpecAssembler;
use crate::ast::{SpecProcAst, SpecProgramAst};
use crate::code_block::Mast;
use crate::error::SpecError;
use crate::felt::{Felt, MODULUS};
use crate::hasher::Digest;
use crate::laws::{catalogues, linking, programs, rows, steady};
use crate::operation::Operation;
use crate::parsers::parser::SpecReader;
use crate::procedure::{self, CallSet, ProcId, ProcedureCache, SpecProc};
use crate::program::SpecProgram;
use crate::semantics::{Catalogue, Fault, Outcome, Scope};

verus! {

/// The operations which move the free memory pointer by the given element.
pub open spec fn moves(value: u64) -> Seq<Operation> {
    seq![Operation::Push(Felt { value }), Operation::FmpUpdate]
}

/// The operations before the body of a procedure with `n` locals.
pub open spec fn reserving(n: u32) -> Seq<Operation> {
    if n == 0 {
        Seq::empty()
    } else {
        moves(n as u64)
    }
}

/// The operations behind the body of a procedure with `n` locals.
pub open spec fn releasing(n: u32) -> Seq<Operation> {
    if n == 0 {
        Seq::empty()
    } else {
        moves((MODULUS - n) as u64)
    }
}

/// True if one of the procedures has the given identifier.
pub open spec fn has_id(procs: Seq<SpecProc>, id: ProcId) -> bool {
    exists|i: int| 0 <= i < procs.len() && (#[trigger] procs[i]).id == id
}

/// A procedure with locals pushes their number and moves the free memory pointer by it before
/// its body, and pushes the negation of their number, which is the modulus less that number, and
/// moves the pointer by it behind its body; a procedure without locals does neither.
pub proof fn lemma_locals(proc: SpecProcAst)
    ensures
        proc.prologue() == reserving(proc.num_locals),
        proc.epilogue() == releasing(proc.num_locals),
{
    reveal(SpecProcAst::prologue);
    reveal(SpecProcAst::epilogue);
    let n = proc.num_locals as int;
    let m = MODULUS as int;
    if n > 0 {
        vstd::arithmetic::div_mod::lemma_small_mod(n as nat, m as nat);
        vstd::arithmetic::div_mod::lemma_fundamental_div_mod_converse(-n, m, -1, m - n);
        assert(Felt::of(n) == Felt { value: n as u64 });
        assert(Felt::of(-n) == Felt { value: (m - n) as u64 });
    }
}

/// True if a procedure whose body has the first outcome has the second: it gets the identifier,
/// is exported as its source says, and has the block and the callset of its body. The number of
/// its locals is kept in 16 bits, which is all of it for every procedure which a source defines.
pub open spec fn finishes(
    proc: SpecProcAst,
    id: ProcId,
    body: Outcome<(Mast, Seq<ProcId>)>,
    outcome: Outcome<SpecProc>,
) -> bool {
    &&& outcome.0 == body.0
    &&& match body.1 {
        Err(fault) => outcome.1 == Err::<SpecProc, Fault>(fault),
        Ok((block, called)) => {
            &&& outcome.1 matches Ok(compiled)
            &&& compiled.id == id
            &&& compiled.is_export == proc.is_export
            &&& compiled.root == block
            &&& compiled.callset == called
            &&& compiled.num_locals as int == proc.num_locals as int % 0x1_0000
        },
    }
}

/// The outcome of a procedure whose body has the given outcome.
spec fn finished(
    proc: SpecProcAst,
    id: ProcId,
    body: Outcome<(Mast, Seq<ProcId>)>,
) -> Outcome<SpecProc> {
    match body {
        (cache, Err(fault)) => (cache, Err(fault)),
        (cache, Ok((root, callset))) => (
            cache,
            Ok(
                SpecProc {
                    id,
                    is_export: proc.is_export,
                    num_locals: (proc.num_locals as int % 0x1_0000) as u16,
                    root,
                    callset,
                },
            ),
        ),
    }
}

/// The outcome of a procedure.
proof fn lemma_finished(proc: SpecProcAst, id: ProcId, body: Outcome<(Mast, Seq<ProcId>)>)
    ensures
        finishes(proc, id, body, finished(proc, id, body)),
{
}

/// How the outcome of a procedure depends on that of its body.
proof fn lemma_finishes(
    lib: Catalogue,
    scope: Scope,
    cache: Map<ProcId, SpecProc>,
    proc: SpecProcAst,
)
    ensures
        ({
            let id = ProcId { module: scope.active.last(), name: proc.name };
            !has_id(scope.procs, id) ==> finishes(
                proc,
                id,
                lib.body(
                    scope,
                    cache,
                    Seq::empty(),
                    proc.prologue(),
                    proc.body,
                    proc.epilogue(),
                ),
                lib.procedure(scope, cache, proc),
            )
        }),
{
    let id = ProcId { module: scope.active.last(), name: proc.name };
    assert(has_id(scope.procs, id) == scope.defines(id));
    if !scope.defines(id) {
        let body = lib.body(
            scope,
            cache,
            Seq::empty(),
            proc.prologue(),
            proc.body,
            proc.epilogue(),
        );
        lemma_finished(proc, id, body);
        assert(lib.procedure(scope, cache, proc) == finished(proc, id, body));
    }
}

/// A procedure is compiled under its name and the path of its module, and is exported as its
/// source says; its code is that of its body between the operations for its locals. Its name has
/// to differ from those of the procedures before it.
pub proof fn lemma_procedure(
    lib: Catalogue,
    scope: Scope,
    cache: Map<ProcId, SpecProc>,
    proc: SpecProcAst,
)
    ensures
        ({
            let id = ProcId { module: scope.active.last(), name: proc.name };
            let up = reserving(proc.num_locals);
            let down = releasing(proc.num_locals);
            let outcome = lib.procedure(scope, cache, proc);
            if has_id(scope.procs, id) {
                outcome == (
                    cache,
                    Err::<SpecProc, Fault>(Fault::Error(SpecError::DuplicateProcName(proc.name))),
                )
            } else {
                let body = lib.body(scope, cache, Seq::empty(), up, proc.body, down);
                finishes(proc, id, body, outcome)
            }
        }),
{
    let id = ProcId { module: scope.active.last(), name: proc.name };
    lemma_locals(proc);
    lemma_finishes(lib, scope, cache, proc);
    assert(has_id(scope.procs, id) == scope.defines(id));
}

/// The procedures of a module are compiled one after another: each one sees those in front of
/// it, and what was compiled for them; what they call is united in order. An error ends it all.
pub proof fn lemma_procedures_in_turn(
    lib: Catalogue,
    scope: Scope,
    cache: Map<ProcId, SpecProc>,
    callset: Seq<ProcId>,
    proc: SpecProcAst,
    first: Seq<SpecProcAst>,
    second: Seq<SpecProcAst>,
)
    ensures
        lib.procedures(scope, cache, callset, Seq::empty()) == (
            cache,
            Ok::<(Seq<SpecProc>, Seq<ProcId>), Fault>((scope.procs, callset)),
        ),
        lib.procedures(scope, cache, callset, seq![proc]) == (match lib.procedure(
            scope,
            cache,
            proc,
        ) {
            (after, Ok(compiled)) => (
                after,
                Ok(
                    (
                        scope.procs.push(compiled),
                        CallSet::merging(callset, compiled.callset),
                    ),
                ),
            ),
            (after, Err(fault)) => (after, Err(fault)),
        }),
        lib.procedures(scope, cache, callset, first + second) == (match lib.procedures(
            scope,
            cache,
            callset,
            first,
        ) {
            (after, Ok((procs, called))) => lib.procedures(
                Scope { procs, ..scope },
                after,
                called,
                second,
            ),
            (after, Err(fault)) => (after, Err(fault)),
        }),
    decreases first.len(),
{
    reveal_with_fuel(Catalogue::procedures, 2);
    assert(seq![proc].drop_first() =~= Seq::empty());
    let all = first + second;
    if first.len() == 0 {
        assert(all =~= second);
        assert((Scope { procs: scope.procs, ..scope }) =~= scope);
    } else {
        assert(all[0] == first[0]);
        assert(all.drop_first() =~= first.drop_first() + second);
        match lib.procedure(scope, cache, first[0]) {
            (_, Err(_)) => {},
            (after, Ok(compiled)) => {
                lemma_procedures_in_turn(
                    lib,
                    scope.with(compiled),
                    after,
                    CallSet::merging(callset, compiled.callset),
                    proc,
                    first.drop_first(),
                    second,
                );
            },
        }
    }
}

/// The procedures of a program are compiled one after another, as those of a module are; but
/// none of them may be exported.
pub proof fn lemma_program_procedures_in_turn(
    lib: Catalogue,
    scope: Scope,
    cache: Map<ProcId, SpecProc>,
    callset: Seq<ProcId>,
    proc: SpecProcAst,
    first: Seq<SpecProcAst>,
    second: Seq<SpecProcAst>,
)
    ensures
        lib.program_procedures(scope, cache, callset, Seq::empty()) == (
            cache,
            Ok::<(Seq<SpecProc>, Seq<ProcId>), Fault>((scope.procs, callset)),
        ),
        lib.program_procedures(scope, cache, callset, seq![proc]) == (if proc.is_export {
            (cache, Err(Fault::Error(SpecError::ProcExportInProgram(proc.name))))
        } else {
            lib.procedures(scope, cache, callset, seq![proc])
        }),
        lib.program_procedures(scope, cache, callset, first + second) == (
        match lib.program_procedures(scope, cache, callset, first) {
            (after, Ok((procs, called))) => lib.program_procedures(
                Scope { procs, ..scope },
                after,
                called,
                second,
            ),
            (after, Err(fault)) => (after, Err(fault)),
        }),
{
    lib.lemma_program_procedures(scope, cache, callset, Seq::empty());
    lemma_program_procedure(lib, scope, cache, callset, proc);
    lemma_program_procedures_append(lib, scope, cache, callset, first, second);
}

/// A single procedure of a program.
proof fn lemma_program_procedure(
    lib: Catalogue,
    scope: Scope,
    cache: Map<ProcId, SpecProc>,
    callset: Seq<ProcId>,
    proc: SpecProcAst,
)
    ensures
        lib.program_procedures(scope, cache, callset, seq![proc]) == (if proc.is_export {
            (cache, Err(Fault::Error(SpecError::ProcExportInProgram(proc.name))))
        } else {
            lib.procedures(scope, cache, callset, seq![proc])
        }),
{
    let one = seq![proc];
    assert(one.drop_first() =~= Seq::empty());
    assert(one[0] == proc);
    lib.lemma_program_procedures(scope, cache, callset, one);
    lemma_procedures_in_turn(lib, scope, cache, callset, proc, Seq::empty(), Seq::empty());
    match lib.procedure(scope, cache, proc) {
        (after, Ok(compiled)) => {
            lib.lemma_program_procedures(
                scope.with(compiled),
                after,
                CallSet::merging(callset, compiled.callset),
                Seq::empty(),
            );
        },
        _ => {},
    }
}

/// Procedures of a program which stand behind others.
proof fn lemma_program_procedures_append(
    lib: Catalogue,
    scope: Scope,
    cache: Map<ProcId, SpecProc>,
    callset: Seq<ProcId>,
    first: Seq<SpecProcAst>,
    second: Seq<SpecProcAst>,
)
    ensures
        lib.program_procedures(scope, cache, callset, first + second) == (
        match lib.program_procedures(scope, cache, callset, first) {
            (after, Ok((procs, called))) => lib.program_procedures(
                Scope { procs, ..scope },
                after,
                called,
                second,
            ),
            (after, Err(fault)) => (after, Err(fault)),
        }),
    decreases first.len(),
{
    let all = first + second;
    lib.lemma_program_procedures(scope, cache, callset, first);
    if first.len() == 0 {
        assert(all =~= second);
        assert((Scope { procs: scope.procs, ..scope }) =~= scope);
    } else {
        lib.lemma_program_procedures(scope, cache, callset, all);
        assert(all[0] == first[0]);
        assert(all.drop_first() =~= first.drop_first() + second);
        if !first[0].is_export {
            match lib.procedure(scope, cache, first[0]) {
                (_, Err(_)) => {},
                (after, Ok(compiled)) => {
                    let merged = CallSet::merging(callset, compiled.callset);
                    let rest = first.drop_first();
                    let next = scope.with(compiled);
                    lemma_program_procedures_append(lib, next, after, merged, rest, second);
                },
            }
        }
    }
}

/// True if the procedure is put into the cache when its module is compiled.
pub open spec fn is_given(proc: SpecProc, callset: Seq<ProcId>) -> bool {
    proc.is_export || callset.contains(proc.id)
}

/// True if the cache `after` is the cache `before` with those procedures put into it which are
/// exported or called.
pub open spec fn gives(
    before: Map<ProcId, SpecProc>,
    procs: Seq<SpecProc>,
    callset: Seq<ProcId>,
    after: Map<ProcId, SpecProc>,
) -> bool {
    &&& forall|i: int|
        0 <= i < procs.len() && is_given(#[trigger] procs[i], callset) ==> {
            &&& after.contains_key(procs[i].id)
            &&& after[procs[i].id] == procs[i]
        }
    &&& forall|id: ProcId|
        (forall|i: int|
            0 <= i < procs.len() && is_given(#[trigger] procs[i], callset) ==> procs[i].id != id)
            ==> {
            &&& (#[trigger] after.contains_key(id)) == before.contains_key(id)
            &&& before.contains_key(id) ==> after[id] == before[id]
        }
}

/// A module which is being compiled already cannot be compiled again inside of itself. Any other
/// module comes to its procedures, compiled in turn at its path; those which are exported or
/// called are put into the cache, and nothing else in the cache changes.
pub proof fn lemma_module(
    lib: Catalogue,
    in_kernel: bool,
    active: Seq<Seq<char>>,
    cache: Map<ProcId, SpecProc>,
    path: Seq<char>,
    procs: Seq<SpecProcAst>,
)
    ensures
        ({
            let outcome = lib.module(in_kernel, active, cache, path, procs);
            let scope = Scope { in_kernel, active: active.push(path), procs: Seq::empty() };
            if active.contains(path) {
                outcome == (
                    cache,
                    Err::<Seq<SpecProc>, Fault>(
                        Fault::Error(SpecError::CircularModuleDependency(path)),
                    ),
                )
            } else {
                match lib.procedures(scope, cache, Seq::empty(), procs) {
                    (after, Err(fault)) => outcome == (after, Err::<Seq<SpecProc>, Fault>(fault)),
                    (middle, Ok((compiled, callset))) => {
                        &&& outcome.1 == Ok::<Seq<SpecProc>, Fault>(compiled)
                        &&& gives(middle, compiled, callset, outcome.0)
                    },
                }
            }
        }),
{
    let scope = Scope { in_kernel, active: active.push(path), procs: Seq::empty() };
    if !active.contains(path) {
        match lib.procedures(scope, cache, Seq::empty(), procs) {
            (_, Err(_)) => {},
            (middle, Ok((compiled, callset))) => {
                steady::lemma_distinct(lib, scope, cache, Seq::empty(), procs);
                lemma_gives(middle, compiled, callset);
            },
        }
    }
}

/// What is put into a cache.
proof fn lemma_gives(
    before: Map<ProcId, SpecProc>,
    procs: Seq<SpecProc>,
    callset: Seq<ProcId>,
)
    requires
        steady::distinct(procs),
    ensures
        gives(before, procs, callset, Catalogue::published(before, procs, callset)),
{
    let after = Catalogue::published(before, procs, callset);
    steady::lemma_published_values(before, procs, callset);
    catalogues::lemma_published(before, procs, callset);
    assert forall|id: ProcId|
        (forall|i: int|
            0 <= i < procs.len() && is_given(#[trigger] procs[i], callset) ==> procs[i].id != id)
        implies {
        &&& (#[trigger] after.contains_key(id)) == before.contains_key(id)
        &&& before.contains_key(id) ==> after[id] == before[id]
    } by {
        assert forall|i: int| 0 <= i < procs.len() implies !((#[trigger] procs[i]).id == id && (
        procs[i].is_export || callset.contains(id))) by {
            assert(is_given(procs[i], callset) ==> procs[i].id != id);
        }
    }
}

/// A catalogue is well-behaved if it serves finitely many modules, and serves for a procedure only
/// the module at the path in its identifier, and only if that module exports it.
pub proof fn lemma_well_behaved(lib: Catalogue)
    ensures
        lib.well_behaved() <==> {
            &&& lib.paths.finite()
            &&& forall|id: ProcId| #[trigger]
                (lib.lookup)(id) matches Some(module) ==> {
                    &&& module.path == id.module
                    &&& lib.paths.contains(id.module)
                    &&& exists|i: int|
                        0 <= i < module.procs.len() && (#[trigger] module.procs[i]).name == id.name
                            && module.procs[i].is_export
                }
        },
{
    assert forall|id: ProcId| #[trigger] (lib.lookup)(id) matches Some(module) implies {
        let module = (lib.lookup)(id)->0;
        module.exports(id.name) <==> exists|i: int|
            0 <= i < module.procs.len() && (#[trigger] module.procs[i]).name == id.name
                && module.procs[i].is_export
    } by {
        let module = (lib.lookup)(id)->0;
        if module.exports(id.name) {
            let i = choose|i: int|
                0 <= i < module.procs.len() && (#[trigger] module.procs[i]).is_export
                    && module.procs[i].name == id.name;
            assert(module.procs[i].name == id.name);
        }
    }
}

/// A procedure of another module is taken from the cache if it is there. If it is not, the module
/// which the catalogue serves for it is compiled in the same way as the one which asks for it,
/// and the procedure is what that module has put into the cache for it; where the catalogue
/// serves nothing, the procedure is undefined. A catalogue is at fault if it serves a module
/// which is not among its modules, or one which does not give the procedure.
pub proof fn lemma_imported(
    lib: Catalogue,
    scope: Scope,
    cache: Map<ProcId, SpecProc>,
    id: ProcId,
)
    ensures
        ({
            let outcome = lib.imported(scope, cache, id);
            if cache.contains_key(id) {
                outcome == (cache, Ok::<SpecProc, Fault>(cache[id]))
            } else {
                match (lib.lookup)(id) {
                    None => outcome == (
                        cache,
                        Err::<SpecProc, Fault>(Fault::Error(SpecError::UndefinedImportedProc(id))),
                    ),
                    Some(module) => if scope.active.contains(module.path) || (lib.paths.finite()
                        && lib.paths.contains(module.path)) {
                        match lib.module(
                            scope.in_kernel,
                            scope.active,
                            cache,
                            module.path,
                            module.procs,
                        ) {
                            (after, Err(fault)) => {
                                outcome == (after, Err::<SpecProc, Fault>(fault))
                            },
                            (after, Ok(_)) => if after.contains_key(id) {
                                outcome == (after, Ok::<SpecProc, Fault>(after[id]))
                            } else {
                                outcome == (after, Err::<SpecProc, Fault>(Fault::Stuck))
                            },
                        }
                    } else {
                        outcome == (cache, Err::<SpecProc, Fault>(Fault::Stuck))
                    },
                }
            }
        }),
{
}

/// A module which a well-behaved catalogue serves for a procedure gives that procedure, once it
/// has been compiled.
pub proof fn lemma_served(
    lib: Catalogue,
    scope: Scope,
    cache: Map<ProcId, SpecProc>,
    id: ProcId,
)
    requires
        lib.well_behaved(),
    ensures
        (lib.lookup)(id) matches Some(module) ==> lib.module(
            scope.in_kernel,
            scope.active,
            cache,
            module.path,
            module.procs,
        ) matches (after, Ok(_)) ==> after.contains_key(id),
{
    match (lib.lookup)(id) {
        None => {},
        Some(module) => {
            let procs = module.procs;
            catalogues::lemma_module_exports(
                lib,
                scope.in_kernel,
                scope.active,
                cache,
                id.module,
                procs,
            );
            let i = choose|i: int|
                0 <= i < procs.len() && (#[trigger] procs[i]).is_export && procs[i].name
                    == id.name;
            assert(procs[i].is_export);
            assert((ProcId { module: id.module, name: procs[i].name }) =~= id);
        },
    }
}

/// True if the identifier stands for the procedure: for the one among `procs` which has it, or,
/// where none has it, for the one in the cache.
pub open spec fn stands_for(
    procs: Seq<SpecProc>,
    cache: Map<ProcId, SpecProc>,
    id: ProcId,
    proc: SpecProc,
) -> bool {
    if has_id(procs, id) {
        exists|i: int| 0 <= i < procs.len() && #[trigger] procs[i] == proc && proc.id == id
    } else {
        cache.contains_key(id) && cache[id] == proc
    }
}

/// True if the procedure is called, and the digest is that of its code.
pub open spec fn is_target(
    procs: Seq<SpecProc>,
    cache: Map<ProcId, SpecProc>,
    called: Seq<ProcId>,
    digest: Digest,
    id: ProcId,
    proc: SpecProc,
) -> bool {
    &&& called.contains(id)
    &&& stands_for(procs, cache, id, proc)
    &&& proc.root.digest() == digest
}

/// True if the table holds the code of the procedures which are called, each under its digest,
/// and nothing else.
pub open spec fn tabulates(
    procs: Seq<SpecProc>,
    cache: Map<ProcId, SpecProc>,
    called: Seq<ProcId>,
    table: Map<Digest, Mast>,
) -> bool {
    &&& forall|digest: Digest, id: ProcId, proc: SpecProc| #[trigger]
        is_target(procs, cache, called, digest, id, proc) ==> table.contains_key(digest)
    &&& forall|digest: Digest| #[trigger]
        table.contains_key(digest) ==> exists|id: ProcId, proc: SpecProc| #[trigger]
            is_target(procs, cache, called, digest, id, proc) && table[digest] == proc.root
}

/// A program comes to the code of its main body, which sees the procedures of the program, at
/// the path `#exec`, and starts with nothing called. The program keeps the kernel for which it is
/// compiled. Its table holds the code of all procedures which its procedures or its main body
/// call, directly or not; errors in a procedure come before those in the main body.
pub proof fn lemma_program(
    lib: Catalogue,
    cache: Map<ProcId, SpecProc>,
    kernel: Seq<Digest>,
    program: SpecProgramAst,
)
    ensures
        ({
            let outcome = lib.program(cache, kernel, program);
            let start = Scope {
                in_kernel: false,
                active: seq!["#exec"@],
                procs: Seq::empty(),
            };
            match lib.program_procedures(start, cache, Seq::empty(), program.procs) {
                (after, Err(fault)) => outcome == (after, Err::<SpecProgram, Fault>(fault)),
                (middle, Ok((procs, callset))) => {
                    let scope = Scope { procs, ..start };
                    match rows::plain_body(lib, scope, middle, Seq::empty(), program.body) {
                        (after, Err(fault)) => outcome == (after, Err::<SpecProgram, Fault>(fault)),
                        (after, Ok((block, main_callset))) => {
                            let called = CallSet::merging(callset, main_callset);
                            &&& outcome.0 == after
                            &&& outcome.1 matches Ok(compiled)
                            &&& compiled.root == block
                            &&& compiled.kernel == kernel
                            &&& tabulates(procs, after, called, compiled.table)
                        },
                    }
                },
            }
        }),
{
    let start = Scope::of_program();
    match lib.program_procedures(start, cache, Seq::empty(), program.procs) {
        (_, Err(_)) => {},
        (middle, Ok((procs, callset))) => {
            let scope = Scope { procs, ..start };
            match lib.body(scope, middle, Seq::empty(), Seq::empty(), program.body, Seq::empty()) {
                (_, Err(_)) => {},
                (after, Ok((_, main_callset))) => {
                    let called = CallSet::merging(callset, main_callset);
                    lemma_program_distinct(lib, start, cache, Seq::empty(), program.procs);
                    lemma_tabulates(scope, after, called);
                },
            }
        },
    }
}

/// The procedures of a program have different identifiers.
proof fn lemma_program_distinct(
    lib: Catalogue,
    scope: Scope,
    cache: Map<ProcId, SpecProc>,
    callset: Seq<ProcId>,
    procs: Seq<SpecProcAst>,
)
    requires
        steady::distinct(scope.procs),
    ensures
        lib.program_procedures(scope, cache, callset, procs).1 matches Ok((compiled, _))
            ==> steady::distinct(compiled),
    decreases procs.len(),
{
    lib.lemma_program_procedures(scope, cache, callset, procs);
    if procs.len() > 0 && !procs[0].is_export {
        match lib.procedure(scope, cache, procs[0]) {
            (_, Err(_)) => {},
            (next, Ok(proc)) => {
                let merged = CallSet::merging(callset, proc.callset);
                let longer = scope.with(proc).procs;
                assert forall|i: int, j: int| 0 <= i < j < longer.len() implies (
                #[trigger] longer[i]).id != (#[trigger] longer[j]).id by {
                    assert(longer[i] == scope.procs[i]);
                    if j < scope.procs.len() {
                        assert(longer[j] == scope.procs[j]);
                    }
                }
                lemma_program_distinct(lib, scope.with(proc), next, merged, procs.drop_first());
            },
        }
    }
}

/// What an identifier stands for is what a body can refer to by it.
proof fn lemma_known(scope: Scope, cache: Map<ProcId, SpecProc>)
    requires
        steady::distinct(scope.procs),
    ensures
        forall|id: ProcId, proc: SpecProc| #[trigger]
            stands_for(scope.procs, cache, id, proc) <==> (scope.known(cache).contains_key(id)
                && scope.known(cache)[id] == proc),
{
    let procs = scope.procs;
    let local = ProcedureCache::map_of(procs);
    procedure::lemma_map_of(procs);
    assert forall|id: ProcId, proc: SpecProc| #[trigger]
        stands_for(procs, cache, id, proc) <==> (scope.known(cache).contains_key(id)
            && scope.known(cache)[id] == proc) by {
        if has_id(procs, id) {
            let i = choose|i: int| 0 <= i < procs.len() && (#[trigger] procs[i]).id == id;
            assert forall|j: int| i < j < procs.len() implies (#[trigger] procs[j]).id
                != procs[i].id by {
                assert(procs[i].id != procs[j].id);
            }
            assert(local.contains_key(id) && local[id] == procs[i]);
            if stands_for(procs, cache, id, proc) {
                let j = choose|j: int|
                    0 <= j < procs.len() && #[trigger] procs[j] == proc && proc.id == id;
                assert(i == j) by {
                    if i < j {
                        assert(procs[i].id != procs[j].id);
                    }
                    if j < i {
                        assert(procs[j].id != procs[i].id);
                    }
                }
            }
        } else {
            assert(!local.contains_key(id));
        }
    }
}

/// What a table holds.
proof fn lemma_tabulates(scope: Scope, cache: Map<ProcId, SpecProc>, called: Seq<ProcId>)
    requires
        steady::distinct(scope.procs),
    ensures
        tabulates(scope.procs, cache, called, Catalogue::table(scope.known(cache), called)),
{
    let procs = scope.procs;
    let known = scope.known(cache);
    let table = Catalogue::table(known, called);
    lemma_known(scope, cache);
    programs::lemma_table(known, called);
    assert forall|digest: Digest, id: ProcId, proc: SpecProc| #[trigger]
        is_target(procs, cache, called, digest, id, proc) implies table.contains_key(digest) by {
        assert(called.contains(id) && known.contains_key(id) && known[id].root.digest() == digest);
        assert(linking::targets(known, called).contains(digest));
        assert(table.dom().contains(digest));
    }
    assert forall|digest: Digest| #[trigger] table.contains_key(digest) implies exists|
        id: ProcId,
        proc: SpecProc,
    | #[trigger]
        is_target(procs, cache, called, digest, id, proc) && table[digest] == proc.root by {
        let id = choose|id: ProcId| #[trigger]
            called.contains(id) && known.contains_key(id) && known[id].root.digest() == digest
                && known[id].root == table[digest];
        assert(stands_for(procs, cache, id, known[id]));
        assert(is_target(procs, cache, called, digest, id, known[id]));
    }
}

/// The digests of the exported procedures are taken one after another; a procedure which is not
/// exported gives none.
pub proof fn lemma_exported_digests_in_turn(
    proc: SpecProc,
    first: Seq<SpecProc>,
    second: Seq<SpecProc>,
)
    ensures
        Catalogue::exported_digests(Seq::empty()) == Seq::<Digest>::empty(),
        proc.is_export ==> Catalogue::exported_digests(seq![proc]) == seq![proc.root.digest()],
        !proc.is_export ==> Catalogue::exported_digests(seq![proc]) == Seq::<Digest>::empty(),
        Catalogue::exported_digests(first + second) == Catalogue::exported_digests(first)
            + Catalogue::exported_digests(second),
    decreases second.len(),
{
    reveal_with_fuel(Catalogue::exported_digests, 2);
    assert(seq![proc].drop_last() =~= Seq::empty());
    assert(Seq::<Digest>::empty().push(proc.root.digest()) =~= seq![proc.root.digest()]);
    let all = first + second;
    if second.len() == 0 {
        assert(all =~= first);
        assert(Catalogue::exported_digests(first) + Catalogue::exported_digests(second)
            =~= Catalogue::exported_digests(first));
    } else {
        lemma_exported_digests_in_turn(proc, first, second.drop_last());
        assert(all.drop_last() =~= first + second.drop_last());
        assert(all.last() == second.last());
        assert(Catalogue::exported_digests(all) =~= Catalogue::exported_digests(first)
            + Catalogue::exported_digests(second));
    }
}

/// A kernel is a module at the path `#sys`, compiled as a kernel and inside of no other module.
/// Setting it gives an assembler whose kernel has the digests of the exported procedures, in
/// order, and which has in its cache what compiling that module has put there; nothing else in
/// the assembler changes. What is wrong with the module is wrong with the kernel.
pub proof fn lemma_kernel(assembler: SpecAssembler, procs: Seq<SpecProcAst>)
    ensures
        match assembler.catalogue.module(true, Seq::empty(), assembler.cache, "#sys"@, procs) {
            (_, Err(fault)) => assembler.with_kernel_procs(procs) == Err::<SpecAssembler, Fault>(
                fault,
            ),
            (after, Ok(compiled)) => {
                &&& assembler.with_kernel_procs(procs) matches Ok(next)
                &&& next.kernel == Catalogue::exported_digests(compiled)
                &&& next.cache == after
                &&& next.catalogue == assembler.catalogue
                &&& next.in_debug_mode == assembler.in_debug_mode
                &&& next.has_compiled == assembler.has_compiled
            },
        },
{
}

/// A source which is no program is an invalid source, and so is a source of a kernel which is no
/// module. Any other source comes to what the program or the module comes to for which it stands,
/// with the modules, the kernel and the compiled procedures of the assembler.
pub proof fn lemma_sources(assembler: SpecAssembler, source: Seq<char>)
    ensures
        match SpecReader::program(source) {
            None => assembler.program(source) == (
                assembler.cache,
                Err::<SpecProgram, Fault>(Fault::Error(SpecError::InvalidSource)),
            ),
            Some(program) => assembler.program(source) == assembler.catalogue.program(
                assembler.cache,
                assembler.kernel,
                program,
            ),
        },
        match SpecReader::module(source) {
            None => assembler.with_kernel_source(source) == Err::<SpecAssembler, Fault>(
                Fault::Error(SpecError::InvalidSource),
            ),
            Some(procs) => assembler.with_kernel_source(source) == assembler.with_kernel_procs(
                procs,
            ),
        },
{
}

/// Compiling a program changes an assembler only in that the assembler has compiled something,
/// and has in its cache what was compiled on the way. A new assembler has no kernel, serves no
/// modules, has compiled nothing, and is not in debug mode.
pub proof fn lemma_assembler(assembler: SpecAssembler, source: Seq<char>, id: ProcId)
    ensures
        ({
            let next = assembler.after_program(source);
            &&& next.cache == assembler.program(source).0
            &&& next.has_compiled
            &&& next.kernel == assembler.kernel
            &&& next.catalogue == assembler.catalogue
            &&& next.in_debug_mode == assembler.in_debug_mode
        }),
        ({
            let new = SpecAssembler::empty();
            &&& new.kernel == Seq::<Digest>::empty()
            &&& new.cache == Map::<ProcId, SpecProc>::empty()
            &&& (new.catalogue.lookup)(id) is None
            &&& new.catalogue.well_behaved()
            &&& !new.in_debug_mode
            &&& !new.has_compiled
        }),
{
}

} // verus!
