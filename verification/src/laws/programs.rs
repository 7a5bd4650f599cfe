//! An assembler which has been set up properly compiles programs which find whatever they invoke.
use vstd::prelude::*;

use crate::assembler::SpecAssembler;
use crate::ast::{SpecInstruction, SpecModule, SpecNode, SpecProcAst, SpecProgramAst};
use crate::code_block::Mast;
use crate::hasher::Digest;
use crate::laws::{catalogues, linking, origins, soundness, steady};
use crate::parsers::parser::SpecReader;
use crate::procedure::{CallSet, ProcId, ProcedureId, SpecProc};
use crate::program::SpecProgram;
use crate::semantics::{Catalogue, Outcome, Scope};

verus! {

/// True if the cache holds a procedure of the kernel whose code has the given digest.
pub open spec fn holds_kernel_proc(cache: Map<ProcId, SpecProc>, digest: Digest) -> bool {
    exists|id: ProcId| #[trigger]
        cache.contains_key(id) && id.module == ProcedureId::KERNEL_PATH@
            && cache[id].root.digest() == digest
}

/// True if one of the procedures is exported and its code has the given digest.
pub open spec fn exports_digest(procs: Seq<SpecProc>, digest: Digest) -> bool {
    exists|i: int|
        0 <= i < procs.len() && (#[trigger] procs[i]).is_export && procs[i].root.digest() == digest
}

impl SpecProc {
    /// True if the procedure invokes a kernel, directly or through procedures which it calls.
    pub open spec fn invokes_kernel(self) -> bool {
        ||| !self.root.resolves(Set::full(), Seq::empty())
        ||| exists|id: ProcId| #[trigger]
            self.callset.contains(id) && id.module == ProcedureId::KERNEL_PATH@
    }
}

impl SpecAssembler {
    /// True if the cache of the assembler agrees with itself, with the kernel, and with the
    /// modules which are served.
    pub open spec fn is_sound(self) -> bool {
        &&& self.catalogue.is_consistent()
        &&& soundness::settled(self.kernel, self.cache)
        &&& steady::complete(self.catalogue, self.cache)
        &&& forall|i: int|
            0 <= i < self.kernel.len() ==> holds_kernel_proc(self.cache, #[trigger] self.kernel[i])
    }

    /// True if the modules of which the assembler has procedures can be compiled again, as far as
    /// they are dependable, and whatever they import is in the cache.
    pub open spec fn is_traceable(self) -> bool {
        &&& steady::traced(self.catalogue, self.cache)
        &&& steady::supplied(self.catalogue, self.cache)
    }

    /// True if no procedure in the cache of the assembler invokes a kernel.
    pub open spec fn invokes_no_kernel(self) -> bool {
        forall|id: ProcId| #[trigger]
            self.cache.contains_key(id) ==> !self.cache[id].invokes_kernel()
    }

    /// True if the modules of which the assembler has procedures ask nothing of a kernel.
    pub open spec fn asks_no_kernel(self) -> bool {
        forall|a: ProcId, b: ProcId|
            #![trigger self.cache.contains_key(a), (self.catalogue.lookup)(b)]
            self.cache.contains_key(a) && (self.catalogue.lookup)(b) is Some
                && (self.catalogue.lookup)(b)->0.path == a.module ==> !steady::procs_ask(
                (self.catalogue.lookup)(b)->0.procs,
                ProcedureId::KERNEL_PATH@,
            )
    }

    /// True if the given kernel exports a procedure under each name which a procedure of a kernel
    /// has in the cache.
    pub open spec fn has_kernel_names_in(self, procs: Seq<SpecProcAst>) -> bool {
        forall|id: ProcId| #[trigger]
            self.cache.contains_key(id) && id.module == ProcedureId::KERNEL_PATH@ ==> (
            SpecModule { path: id.module, procs }).exports(id.name)
    }

    /// True if the cache of the assembler holds no procedure of a kernel.
    pub open spec fn is_without_kernel(self) -> bool {
        forall|id: ProcId| #[trigger]
            self.cache.contains_key(id) ==> id.module != ProcedureId::KERNEL_PATH@
    }
}

/// The table of a callset holds the code of the procedures in it under their digests.
pub(crate) proof fn lemma_table(known: Map<ProcId, SpecProc>, callset: Seq<ProcId>)
    ensures
        Catalogue::table(known, callset).dom() =~= linking::targets(known, callset),
        forall|digest: Digest| #[trigger]
            Catalogue::table(known, callset).contains_key(digest) ==> exists|id: ProcId| #[trigger]
                callset.contains(id) && known.contains_key(id) && known[id].root.digest() == digest
                    && known[id].root == Catalogue::table(known, callset)[digest],
    decreases callset.len(),
{
    let table = Catalogue::table(known, callset);
    if callset.len() == 0 {
        assert(table.dom() =~= linking::targets(known, callset));
    } else {
        let rest = callset.drop_last();
        let last = callset.last();
        let before = Catalogue::table(known, rest);
        lemma_table(known, rest);
        assert(callset[callset.len() - 1] == last);
        assert forall|id: ProcId| #[trigger] rest.contains(id) implies callset.contains(id) by {
            let i = choose|i: int| 0 <= i < rest.len() && rest[i] == id;
            assert(callset[i] == id);
        }
        assert forall|digest: Digest| #[trigger] table.contains_key(digest) implies exists|
            id: ProcId,
        | #[trigger]
            callset.contains(id) && known.contains_key(id) && known[id].root.digest() == digest
                && known[id].root == table[digest] by {
            if known.contains_key(last) && known[last].root.digest() == digest {
                assert(callset.contains(last));
            } else {
                assert(before.contains_key(digest));
                let id = choose|id: ProcId| #[trigger]
                    rest.contains(id) && known.contains_key(id) && known[id].root.digest() == digest
                        && known[id].root == before[digest];
                assert(callset.contains(id));
            }
        }
        assert forall|digest: Digest| linking::targets(known, callset).contains(digest) implies
            #[trigger] table.dom().contains(digest) by {
            let id = choose|id: ProcId| #[trigger]
                callset.contains(id) && known.contains_key(id) && known[id].root.digest()
                    == digest;
            if id != last {
                let i = choose|i: int| 0 <= i < callset.len() && callset[i] == id;
                assert(rest[i] == id);
                assert(rest.contains(id));
                assert(linking::targets(known, rest).contains(digest));
                assert(before.dom().contains(digest));
            }
        }
        assert(table.dom() =~= linking::targets(known, callset));
    }
}

/// The procedures of a program keep what has to be kept.
pub(crate) proof fn lemma_program_procedures(
    lib: Catalogue,
    kernel: Seq<Digest>,
    scope: Scope,
    cache: Map<ProcId, SpecProc>,
    callset: Seq<ProcId>,
    procs: Seq<SpecProcAst>,
)
    requires
        soundness::ready(lib, kernel, scope, cache),
        soundness::callset_fits(scope, cache, callset),
        soundness::collects(scope.procs, callset),
    ensures
        ({
            let outcome = lib.program_procedures(scope, cache, callset, procs);
            &&& soundness::coherent(lib, kernel, scope.active, outcome.0)
            &&& linking::grows(cache, outcome.0)
            &&& outcome.1 matches Ok((compiled, after)) ==> {
                let end = Scope { procs: compiled, ..scope };
                &&& soundness::ready(lib, kernel, end, outcome.0)
                &&& soundness::callset_fits(end, outcome.0, after)
            }
        }),
    decreases procs.len(),
{
    lib.lemma_program_procedures(scope, cache, callset, procs);
    soundness::lemma_ready_is_coherent(lib, kernel, scope, cache);
    if procs.len() > 0 && !procs[0].is_export {
        let start = cache;
        soundness::lemma_procedure(lib, kernel, scope, cache, procs[0]);
        match lib.procedure(scope, cache, procs[0]) {
            (_, Err(_)) => {},
            (cache, Ok(proc)) => {
                soundness::lemma_callset_with(lib, kernel, scope, start, cache, callset, proc);
                lemma_program_procedures(
                    lib,
                    kernel,
                    scope.with(proc),
                    cache,
                    CallSet::merging(callset, proc.callset),
                    procs.drop_first(),
                );
            },
        }
    }
}

/// The code of a program and its table are resolved.
proof fn lemma_resolved(
    lib: Catalogue,
    kernel: Seq<Digest>,
    scope: Scope,
    cache: Map<ProcId, SpecProc>,
    root: Mast,
    callset: Seq<ProcId>,
    main_callset: Seq<ProcId>,
)
    requires
        !scope.in_kernel,
        soundness::ready(lib, kernel, scope, cache),
        soundness::callset_fits(scope, cache, callset),
        soundness::callset_fits(scope, cache, main_callset),
        soundness::block_fits(kernel, scope, cache, root, main_callset),
    ensures
        ({
            let called = CallSet::merging(callset, main_callset);
            let table = Catalogue::table(scope.known(cache), called);
            (SpecProgram { root, kernel, table }).is_resolved()
        }),
{
    reveal(soundness::ready);
    reveal(soundness::coherent);
    reveal(soundness::callset_fits);
    reveal(soundness::block_fits);
    let known = scope.known(cache);
    let called = CallSet::merging(callset, main_callset);
    let table = Catalogue::table(known, called);
    linking::lemma_closed_merging(known, callset, main_callset);
    linking::lemma_linked_more(known, known, kernel, root, main_callset, called);
    lemma_table(known, called);
    assert(steady::avoids(cache, scope.active));
    soundness::lemma_known(kernel, scope, cache);
    assert forall|digest: Digest| #[trigger] table.contains_key(digest) implies {
        &&& table[digest].digest() == digest
        &&& table[digest].resolves(table.dom(), kernel)
    } by {
        let id = choose|id: ProcId| #[trigger]
            called.contains(id) && known.contains_key(id) && known[id].root.digest() == digest
                && known[id].root == table[digest];
        let proc = known[id];
        if cache.contains_key(id) {
            linking::lemma_fits_more(cache, known, kernel, cache[id]);
        } else {
            let i = choose|i: int| 0 <= i < scope.procs.len() && (#[trigger] scope.procs[i]).id
                == id;
            assert(known[scope.procs[i].id] == scope.procs[i]);
        }
        linking::lemma_linked_more(known, known, kernel, proc.root, proc.callset, called);
    }
}

/// The state in which the first procedure of a program is compiled.
pub(crate) proof fn lemma_program_is_ready(
    lib: Catalogue,
    kernel: Seq<Digest>,
    cache: Map<ProcId, SpecProc>,
)
    requires
        lib.is_consistent(),
        soundness::settled(kernel, cache),
        steady::complete(lib, cache),
    ensures
        soundness::ready(lib, kernel, Scope::of_program(), cache),
        steady::steady(lib, cache),
{
    reveal(soundness::ready);
    reveal(soundness::coherent);
    reveal(steady::steady);
    lemma_paths_differ();
    assert(steady::avoids(cache, Scope::of_program().active));
}

/// The paths of kernels and of programs are different.
proof fn lemma_paths_differ()
    ensures
        ProcedureId::KERNEL_PATH@ != ProcedureId::PROGRAM_PATH@,
{
    reveal_strlit("#sys");
    reveal_strlit("#exec");
    assert(ProcedureId::KERNEL_PATH@.len() != ProcedureId::PROGRAM_PATH@.len());
}

/// Compiling a program keeps what has to be kept, and its program is resolved.
proof fn lemma_program(
    lib: Catalogue,
    kernel: Seq<Digest>,
    cache: Map<ProcId, SpecProc>,
    program: SpecProgramAst,
)
    requires
        lib.is_consistent(),
        soundness::settled(kernel, cache),
        steady::complete(lib, cache),
    ensures
        ({
            let outcome = lib.program(cache, kernel, program);
            &&& soundness::settled(kernel, outcome.0)
            &&& steady::complete(lib, outcome.0)
            &&& linking::grows(cache, outcome.0)
            &&& steady::traced(lib, cache) ==> steady::traced(lib, outcome.0)
            &&& steady::supplied(lib, cache) ==> steady::supplied(lib, outcome.0)
            &&& outcome.1 matches Ok(compiled) ==> compiled.is_resolved()
        }),
{
    let scope = Scope::of_program();
    let none = Seq::<ProcId>::empty();
    lemma_program_is_ready(lib, kernel, cache);
    soundness::lemma_empty_callset(scope, cache);
    lemma_program_procedures(lib, kernel, scope, cache, none, program.procs);
    steady::lemma_program_procedures_steady(lib, scope, cache, none, program.procs);
    let first = lib.program_procedures(scope, cache, none, program.procs).0;
    steady::lemma_advances_means(lib, cache, first);
    match lib.program_procedures(scope, cache, none, program.procs).1 {
        Err(_) => {
            lemma_coherent_is_settled(lib, kernel, scope, first);
        },
        Ok((procs, callset)) => {
            let scope = Scope { procs, ..Scope::of_program() };
            soundness::lemma_empty_callset(scope, first);
            soundness::lemma_body(
                lib,
                kernel,
                scope,
                first,
                none,
                Seq::empty(),
                program.body,
                Seq::empty(),
            );
            steady::lemma_body_steady(
                lib,
                scope,
                first,
                none,
                Seq::empty(),
                program.body,
                Seq::empty(),
            );
            let outcome = lib.body(scope, first, none, Seq::empty(), program.body, Seq::empty());
            let second = outcome.0;
            steady::lemma_advances_means(lib, first, second);
            soundness::lemma_ready_is_coherent(lib, kernel, scope, second);
            lemma_coherent_is_settled(lib, kernel, scope, second);
            match outcome.1 {
                Err(_) => {},
                Ok((root, main_callset)) => {
                    soundness::lemma_callset_grows(scope, first, second, callset);
                    lemma_resolved(lib, kernel, scope, second, root, callset, main_callset);
                },
            }
        },
    }
}

/// What holds of the cache when a program has been compiled.
proof fn lemma_coherent_is_settled(
    lib: Catalogue,
    kernel: Seq<Digest>,
    scope: Scope,
    cache: Map<ProcId, SpecProc>,
)
    requires
        scope.active == Scope::of_program().active,
        soundness::coherent(lib, kernel, scope.active, cache),
    ensures
        soundness::settled(kernel, cache),
        steady::complete(lib, cache),
{
    reveal(soundness::coherent);
    reveal(steady::steady);
    lemma_paths_differ();
}

/// A new assembler is sound.
pub proof fn lemma_new_assembler_is_sound()
    ensures
        SpecAssembler::empty().is_sound(),
        SpecAssembler::empty().is_traceable(),
        SpecAssembler::empty().is_without_kernel(),
{
    reveal(steady::traced);
    reveal(steady::supplied);
}

/// A new assembler which is given a consistent module provider is sound.
pub proof fn lemma_module_provider_may_come_first(catalogue: Catalogue)
    requires
        catalogue.is_consistent(),
    ensures
        ({
            let provided = SpecAssembler { catalogue, ..SpecAssembler::empty() };
            &&& provided.is_sound()
            &&& provided.is_traceable()
            &&& provided.is_without_kernel()
        }),
{
    reveal(steady::traced);
    reveal(steady::supplied);
}

/// Debug mode plays no part in whether an assembler is sound, nor in what it compiles.
pub proof fn lemma_debug_mode_changes_nothing(
    assembler: SpecAssembler,
    in_debug_mode: bool,
    source: Seq<char>,
)
    ensures
        ({
            let other = SpecAssembler { in_debug_mode, ..assembler };
            &&& other.is_sound() == assembler.is_sound()
            &&& other.is_traceable() == assembler.is_traceable()
            &&& other.program(source) == assembler.program(source)
        }),
{
}

/// A sound assembler stays sound with another module provider if that is consistent, and if each
/// of its modules of which the cache has procedures already has nothing to add to the cache.
pub proof fn lemma_module_provider_keeps_sound(assembler: SpecAssembler, catalogue: Catalogue)
    requires
        assembler.is_sound(),
        catalogue.is_consistent(),
        steady::complete(catalogue, assembler.cache),
    ensures
        (SpecAssembler { catalogue, ..assembler }).is_sound(),
{
}

/// Whatever source a sound assembler is given, and whether or not it compiles, the assembler
/// stays sound, and no procedure in its cache is lost or replaced. It stays traceable too.
pub proof fn lemma_compiling_keeps_sound(assembler: SpecAssembler, source: Seq<char>)
    requires
        assembler.is_sound(),
    ensures
        assembler.after_program(source).is_sound(),
        assembler.is_traceable() ==> assembler.after_program(source).is_traceable(),
        linking::grows(assembler.cache, assembler.after_program(source).cache),
{
    match SpecReader::program(source) {
        None => {},
        Some(program) => {
            let after = assembler.after_program(source);
            lemma_program(assembler.catalogue, assembler.kernel, assembler.cache, program);
            assert forall|i: int| 0 <= i < after.kernel.len() implies holds_kernel_proc(
                after.cache,
                #[trigger] after.kernel[i],
            ) by {
                assert(holds_kernel_proc(assembler.cache, assembler.kernel[i]));
                let id = choose|id: ProcId| #[trigger]
                    assembler.cache.contains_key(id) && id.module == ProcedureId::KERNEL_PATH@
                        && assembler.cache[id].root.digest() == assembler.kernel[i];
                assert(after.cache.contains_key(id));
            }
        },
    }
}

/// Every program of a sound assembler finds whatever it invokes: called procedures in its table,
/// kernel procedures in the table and in its kernel.
pub proof fn lemma_compiled_programs_are_resolved(assembler: SpecAssembler, source: Seq<char>)
    requires
        assembler.is_sound(),
    ensures
        assembler.program(source).1 matches Ok(program) ==> {
            &&& program.is_resolved()
            &&& program.kernel == assembler.kernel
        },
{
    match SpecReader::program(source) {
        None => {},
        Some(program) => {
            lemma_program(assembler.catalogue, assembler.kernel, assembler.cache, program);
        },
    }
}

/// The digests of a kernel are those of the exported procedures.
proof fn lemma_exported_digests(procs: Seq<SpecProc>)
    ensures
        forall|i: int|
            0 <= i < procs.len() && (#[trigger] procs[i]).is_export
                ==> Catalogue::exported_digests(procs).contains(procs[i].root.digest()),
        forall|k: int|
            0 <= k < Catalogue::exported_digests(procs).len() ==> exports_digest(
                procs,
                #[trigger] Catalogue::exported_digests(procs)[k],
            ),
    decreases procs.len(),
{
    if procs.len() > 0 {
        let rest = procs.drop_last();
        let last = procs.last();
        let before = Catalogue::exported_digests(rest);
        let after = Catalogue::exported_digests(procs);
        lemma_exported_digests(rest);
        assert(procs[procs.len() - 1] == last);
        assert forall|i: int| 0 <= i < procs.len() && (#[trigger] procs[i]).is_export implies
            after.contains(procs[i].root.digest()) by {
            if i < rest.len() {
                assert(rest[i] == procs[i]);
                let k = choose|k: int|
                    0 <= k < before.len() && before[k] == procs[i].root.digest();
                assert(after[k] == before[k]);
            } else {
                assert(after[before.len() as int] == last.root.digest());
            }
        }
        assert forall|k: int| 0 <= k < after.len() implies exports_digest(
            procs,
            #[trigger] after[k],
        ) by {
            if k < before.len() {
                assert(after[k] == before[k]);
                assert(exports_digest(rest, before[k]));
                let i = choose|i: int|
                    0 <= i < rest.len() && (#[trigger] rest[i]).is_export && rest[i].root.digest()
                        == before[k];
                assert(procs[i] == rest[i]);
            } else {
                assert(procs[procs.len() - 1].is_export);
            }
        }
    }
}

/// What is compiled of a kernel before its procedures are put into the cache: the cache, and the
/// procedures with their callset.
pub open spec fn kernel_procedures(
    lib: Catalogue,
    cache: Map<ProcId, SpecProc>,
    procs: Seq<SpecProcAst>,
) -> Outcome<(Seq<SpecProc>, Seq<ProcId>)> {
    lib.procedures(
        Scope {
            in_kernel: true,
            active: Seq::<Seq<char>>::empty().push(ProcedureId::KERNEL_PATH@),
            procs: Seq::empty(),
        },
        cache,
        Seq::empty(),
        procs,
    )
}

/// The procedures of a kernel find what they invoke, if no procedure in the cache invokes a
/// kernel.
proof fn lemma_kernel_procedures(assembler: SpecAssembler, procs: Seq<SpecProcAst>)
    requires
        assembler.is_sound(),
        assembler.invokes_no_kernel(),
    ensures
        ({
            let path = ProcedureId::KERNEL_PATH@;
            let outcome = kernel_procedures(assembler.catalogue, assembler.cache, procs);
            let inner = outcome.0;
            &&& steady::advances(assembler.catalogue, assembler.cache, inner)
            &&& origins::leaves(path, assembler.cache, inner)
            &&& outcome.1 matches Ok((compiled, callset)) ==> {
                let kept = steady::without(Some(path), inner);
                &&& soundness::wired(Seq::empty(), kept, inner)
                &&& forall|i: int|
                    0 <= i < compiled.len() ==> linking::fits(
                        kept,
                        Seq::empty(),
                        #[trigger] compiled[i],
                    )
                &&& forall|id: ProcId| #[trigger] callset.contains(id) ==> id.module != path
                &&& steady::distinct(compiled)
                &&& catalogues::follows(compiled, Seq::empty(), path, procs)
            }
        }),
{
    let lib = assembler.catalogue;
    let cache = assembler.cache;
    let path = ProcedureId::KERNEL_PATH@;
    let no_kernel = Seq::<Digest>::empty();
    let none = Seq::<ProcId>::empty();
    let active = Seq::<Seq<char>>::empty().push(path);
    let scope = Scope { in_kernel: true, active, procs: Seq::empty() };
    let kept = steady::without(Some(path), cache);
    assert(active[0] == path);
    assert(active.contains(path));
    assert forall|id: ProcId| #[trigger] cache.contains_key(id) implies linking::fits(
        kept,
        no_kernel,
        cache[id],
    ) by {
        linking::lemma_fits_elsewhere(cache, kept, assembler.kernel, cache[id]);
        linking::lemma_resolves_without_kernel(
            cache[id].root,
            linking::targets(kept, cache[id].callset),
            assembler.kernel,
        );
    }
    assert(soundness::ready(lib, no_kernel, scope, cache)) by {
        reveal(soundness::ready);
        reveal(soundness::coherent);
        reveal(steady::steady);
    }
    assert(steady::steady(lib, cache)) by {
        reveal(steady::steady);
    }
    soundness::lemma_empty_callset(scope, cache);
    soundness::lemma_procedures(lib, no_kernel, scope, cache, none, procs);
    steady::lemma_procedures_steady(lib, scope, cache, none, procs);
    steady::lemma_distinct(lib, scope, cache, none, procs);
    origins::lemma_nothing_published_yet(lib, scope, cache, none, procs);
    catalogues::lemma_procedure_ids(lib, scope, cache, none, procs);
    reveal(soundness::ready);
    reveal(soundness::coherent);
    reveal(soundness::callset_fits);
}

/// The state after the procedures of a kernel have been put into the cache.
proof fn lemma_kernel_published(assembler: SpecAssembler, procs: Seq<SpecProcAst>)
    requires
        assembler.is_sound(),
        assembler.invokes_no_kernel(),
        assembler.has_kernel_names_in(procs),
    ensures
        assembler.with_kernel_procs(procs) matches Ok(after) ==> {
            let inner = kernel_procedures(assembler.catalogue, assembler.cache, procs).0;
            &&& soundness::settled(after.kernel, after.cache)
            &&& forall|i: int|
                0 <= i < after.kernel.len() ==> holds_kernel_proc(
                    after.cache,
                    #[trigger] after.kernel[i],
                )
            &&& origins::keeps_keys(inner, after.cache)
            &&& forall|id: ProcId|
                id.module != ProcedureId::KERNEL_PATH@ ==> {
                    &&& #[trigger] after.cache.contains_key(id) == inner.contains_key(id)
                    &&& inner.contains_key(id) ==> after.cache[id] == inner[id]
                }
        },
{
    let path = ProcedureId::KERNEL_PATH@;
    let no_kernel = Seq::<Digest>::empty();
    lemma_kernel_procedures(assembler, procs);
    match kernel_procedures(assembler.catalogue, assembler.cache, procs) {
        (_, Err(_)) => {},
        (inner, Ok((compiled, callset))) => {
            let after = Catalogue::published(inner, compiled, callset);
            let digests = Catalogue::exported_digests(compiled);
            let kept = steady::without(Some(path), inner);
            catalogues::lemma_published(inner, compiled, callset);
            steady::lemma_published_values(inner, compiled, callset);
            lemma_exported_digests(compiled);
            lemma_paths_differ();
            assert(linking::grows(kept, after));
            assert forall|id: ProcId| #[trigger] after.contains_key(id) implies {
                &&& after[id].id == id
                &&& linking::fits(after, digests, after[id])
                &&& id.module != ProcedureId::PROGRAM_PATH@
                &&& id.module == path ==> digests.contains(after[id].root.digest())
            } by {
                if id.module == path {
                    lemma_kernel_name(assembler, procs, inner, compiled, callset, id);
                }
                linking::lemma_fits_more(kept, after, no_kernel, after[id]);
                linking::lemma_resolves_larger_kernel(
                    after[id].root,
                    linking::targets(after, after[id].callset),
                    no_kernel,
                    digests,
                );
            }
            assert forall|k: int| 0 <= k < digests.len() implies holds_kernel_proc(
                after,
                #[trigger] digests[k],
            ) by {
                assert(exports_digest(compiled, digests[k]));
                let i = choose|i: int|
                    0 <= i < compiled.len() && (#[trigger] compiled[i]).is_export
                        && compiled[i].root.digest() == digests[k];
                assert(after.contains_key(compiled[i].id));
                assert(compiled[i].id.module == path);
            }
        },
    }
}

/// What the cache has at the path of the kernel is what the kernel exports.
proof fn lemma_kernel_name(
    assembler: SpecAssembler,
    procs: Seq<SpecProcAst>,
    inner: Map<ProcId, SpecProc>,
    compiled: Seq<SpecProc>,
    callset: Seq<ProcId>,
    id: ProcId,
)
    requires
        assembler.has_kernel_names_in(procs),
        origins::leaves(ProcedureId::KERNEL_PATH@, assembler.cache, inner),
        forall|other: ProcId| #[trigger]
            callset.contains(other) ==> other.module != ProcedureId::KERNEL_PATH@,
        steady::distinct(compiled),
        catalogues::follows(compiled, Seq::empty(), ProcedureId::KERNEL_PATH@, procs),
        Catalogue::published(inner, compiled, callset).contains_key(id),
        id.module == ProcedureId::KERNEL_PATH@,
    ensures
        exists|i: int|
            0 <= i < compiled.len() && (#[trigger] compiled[i]).is_export && compiled[i].id == id
                && compiled[i] == Catalogue::published(inner, compiled, callset)[id],
{
    let after = Catalogue::published(inner, compiled, callset);
    catalogues::lemma_published(inner, compiled, callset);
    steady::lemma_published_values(inner, compiled, callset);
    if inner.contains_key(id) {
        assert(assembler.cache.contains_key(id));
        let module = SpecModule { path: id.module, procs };
        let i = choose|i: int|
            0 <= i < module.procs.len() && (#[trigger] module.procs[i]).is_export
                && module.procs[i].name == id.name;
        assert(compiled[i].is_export);
        assert(compiled[i].id == id);
        assert(after[compiled[i].id] == compiled[i]);
    } else {
        let i = choose|i: int|
            0 <= i < compiled.len() && (#[trigger] compiled[i]).id == id && (compiled[i].is_export
                || callset.contains(id)) && after[id] == compiled[i];
        assert(compiled[i].is_export);
    }
}

/// A sound assembler whose cache holds no procedure of a kernel is sound after a kernel has been
/// set, and no procedure in its cache is lost or replaced. It stays traceable too.
pub proof fn lemma_kernel_keeps_sound(assembler: SpecAssembler, procs: Seq<SpecProcAst>)
    requires
        assembler.is_sound(),
        assembler.is_without_kernel(),
    ensures
        assembler.with_kernel_procs(procs) matches Ok(after) ==> {
            &&& after.is_sound()
            &&& linking::grows(assembler.cache, after.cache)
            &&& assembler.is_traceable() ==> after.is_traceable()
        },
{
    let lib = assembler.catalogue;
    let inner = kernel_procedures(lib, assembler.cache, procs).0;
    lemma_without_kernel(assembler);
    lemma_kernel_procedures(assembler, procs);
    lemma_kernel_published(assembler, procs);
    steady::lemma_advances_means(lib, assembler.cache, inner);
    match assembler.with_kernel_procs(procs) {
        Err(_) => {},
        Ok(after) => {
            assert forall|id: ProcId| #[trigger] inner.contains_key(id) implies
                after.cache.contains_key(id) && after.cache[id] == inner[id] by {
                if id.module == ProcedureId::KERNEL_PATH@ {
                    assert(assembler.cache.contains_key(id));
                }
                assert(after.cache.contains_key(id) == inner.contains_key(id));
            }
            lemma_larger_is_steady(lib, inner, after.cache);
        },
    }
}

/// A cache which has got procedures of a kernel keeps what it knows of modules.
proof fn lemma_larger_is_steady(
    lib: Catalogue,
    first: Map<ProcId, SpecProc>,
    second: Map<ProcId, SpecProc>,
)
    requires
        steady::steady(lib, first),
        linking::grows(first, second),
        forall|id: ProcId| #[trigger]
            second.contains_key(id) && !first.contains_key(id) ==> id.module
                == ProcedureId::KERNEL_PATH@,
    ensures
        steady::complete(lib, second),
        steady::traced(lib, first) ==> steady::traced(lib, second),
        steady::supplied(lib, first) ==> steady::supplied(lib, second),
{
    reveal(steady::steady);
    assert forall|a: ProcId, b: ProcId|
        #![trigger second.contains_key(a), (lib.lookup)(b)]
        second.contains_key(a) && (lib.lookup)(b) is Some && (lib.lookup)(b)->0.path
            == a.module implies steady::exhausted(
        lib,
        (lib.lookup)(b)->0,
        steady::without((lib.lookup)(b)->0.unused(), second),
    ) by {
        let module = (lib.lookup)(b)->0;
        assert(first.contains_key(a));
        steady::lemma_exhausted_more(
            lib,
            module,
            steady::without(module.unused(), first),
            steady::without(module.unused(), second),
        );
    }
    if steady::traced(lib, first) {
        reveal(steady::traced);
        assert forall|a: ProcId, b: ProcId|
            #![trigger second.contains_key(a), (lib.lookup)(b)]
            second.contains_key(a) && (lib.lookup)(b) is Some && (lib.lookup)(b)->0.path
                == a.module && lib.is_dependable_at(a.module) implies steady::recorded(
            lib,
            (lib.lookup)(b)->0,
            steady::without(lib.unused_at(a.module), second),
        ) by {
            assert(first.contains_key(a));
            steady::lemma_recorded_more(
                lib,
                (lib.lookup)(b)->0,
                steady::without(lib.unused_at(a.module), first),
                steady::without(lib.unused_at(a.module), second),
            );
        }
    }
    if steady::supplied(lib, first) {
        reveal(steady::supplied);
        assert forall|a: ProcId, b: ProcId, id: ProcId|
            #![trigger
                second.contains_key(a),
                steady::procs_import((lib.lookup)(b)->0.procs, id)]
            second.contains_key(a) && (lib.lookup)(b) is Some && (lib.lookup)(b)->0.path
                == a.module && steady::procs_import((lib.lookup)(b)->0.procs, id) implies
            second.contains_key(id) by {
            assert(first.contains_key(a));
            assert(first.contains_key(id));
        }
    }
}

/// Where there is no kernel, none is invoked.
proof fn lemma_without_kernel(assembler: SpecAssembler)
    requires
        assembler.is_sound(),
        assembler.is_without_kernel(),
    ensures
        assembler.kernel.len() == 0,
        assembler.invokes_no_kernel(),
{
    let cache = assembler.cache;
    if assembler.kernel.len() > 0 {
        assert(holds_kernel_proc(cache, assembler.kernel[0]));
        let id = choose|id: ProcId| #[trigger]
            cache.contains_key(id) && id.module == ProcedureId::KERNEL_PATH@
                && cache[id].root.digest() == assembler.kernel[0];
    }
    assert(assembler.kernel =~= Seq::empty());
    assert forall|id: ProcId| #[trigger]
        cache.contains_key(id) implies !cache[id].invokes_kernel() by {
        linking::lemma_resolves_more(
            cache[id].root,
            linking::targets(cache, cache[id].callset),
            Set::full(),
            assembler.kernel,
        );
    }
}

/// A sound assembler is sound after another kernel has been set instead of its own, if the other
/// kernel exports procedures under all the names of the former one, no procedure in the cache
/// invokes a kernel, and the modules of which there are procedures have nothing more to add to
/// the cache, which is so if they ask nothing of a kernel. In that case the assembler stays
/// traceable too.
pub proof fn lemma_kernel_replaces_kernel(assembler: SpecAssembler, procs: Seq<SpecProcAst>)
    requires
        assembler.is_sound(),
        assembler.invokes_no_kernel(),
        assembler.has_kernel_names_in(procs),
    ensures
        assembler.with_kernel_procs(procs) matches Ok(after) ==> {
            &&& steady::complete(after.catalogue, after.cache) ==> after.is_sound()
            &&& after.asks_no_kernel() ==> {
                &&& after.is_sound()
                &&& assembler.is_traceable() ==> after.is_traceable()
            }
        },
{
    let path = ProcedureId::KERNEL_PATH@;
    let lib = assembler.catalogue;
    let inner = kernel_procedures(lib, assembler.cache, procs).0;
    lemma_kernel_procedures(assembler, procs);
    lemma_kernel_published(assembler, procs);
    steady::lemma_advances_means(lib, assembler.cache, inner);
    match assembler.with_kernel_procs(procs) {
        Err(_) => {},
        Ok(after) => {
            if after.asks_no_kernel() {
                lemma_quiet_is_complete(after, inner);
                if assembler.is_traceable() {
                    lemma_quiet_is_supplied(after, inner);
                    lemma_quiet_is_traced(after, inner);
                }
            }
        },
    }
}

/// True if the cache of the assembler differs from the given one only in procedures of a kernel,
/// of which it has no fewer.
spec fn has_other_kernel(assembler: SpecAssembler, inner: Map<ProcId, SpecProc>) -> bool {
    &&& origins::keeps_keys(inner, assembler.cache)
    &&& forall|id: ProcId|
        id.module != ProcedureId::KERNEL_PATH@ ==> {
            &&& #[trigger] assembler.cache.contains_key(id) == inner.contains_key(id)
            &&& inner.contains_key(id) ==> assembler.cache[id] == inner[id]
        }
}

/// Modules which ask nothing of a kernel have nothing more to add under another one.
proof fn lemma_quiet_is_complete(assembler: SpecAssembler, inner: Map<ProcId, SpecProc>)
    requires
        has_other_kernel(assembler, inner),
        assembler.asks_no_kernel(),
        steady::steady(assembler.catalogue, inner),
    ensures
        steady::complete(assembler.catalogue, assembler.cache),
{
    let path = ProcedureId::KERNEL_PATH@;
    let lib = assembler.catalogue;
    let cache = assembler.cache;
    reveal(steady::steady);
    assert(steady::without(Some(path), cache) =~= steady::without(Some(path), inner));
    assert forall|a: ProcId, b: ProcId|
        #![trigger cache.contains_key(a), (lib.lookup)(b)]
        cache.contains_key(a) && (lib.lookup)(b) is Some && (lib.lookup)(b)->0.path
            == a.module implies steady::exhausted(
        lib,
        (lib.lookup)(b)->0,
        steady::without((lib.lookup)(b)->0.unused(), cache),
    ) by {
        assert((lib.lookup)(b)->0.unused() == Some(path));
        assert((lib.lookup)(b)->0.path != path);
        assert(inner.contains_key(a));
    }
}

/// Modules find what they import under another kernel.
proof fn lemma_quiet_is_supplied(assembler: SpecAssembler, inner: Map<ProcId, SpecProc>)
    requires
        has_other_kernel(assembler, inner),
        assembler.catalogue.is_consistent(),
        steady::supplied(assembler.catalogue, inner),
    ensures
        steady::supplied(assembler.catalogue, assembler.cache),
{
    let lib = assembler.catalogue;
    let cache = assembler.cache;
    reveal(steady::supplied);
    assert forall|a: ProcId, b: ProcId, id: ProcId|
        #![trigger cache.contains_key(a), steady::procs_import((lib.lookup)(b)->0.procs, id)]
        cache.contains_key(a) && (lib.lookup)(b) is Some && (lib.lookup)(b)->0.path == a.module
            && steady::procs_import((lib.lookup)(b)->0.procs, id) implies cache.contains_key(
        id,
    ) by {
        assert((lib.lookup)(b)->0.path != ProcedureId::KERNEL_PATH@);
        assert(inner.contains_key(a));
        assert(inner.contains_key(id));
    }
}

/// Modules which ask nothing of a kernel can be compiled again under another one.
proof fn lemma_quiet_is_traced(assembler: SpecAssembler, inner: Map<ProcId, SpecProc>)
    requires
        has_other_kernel(assembler, inner),
        assembler.asks_no_kernel(),
        assembler.catalogue.is_consistent(),
        steady::supplied(assembler.catalogue, assembler.cache),
        steady::traced(assembler.catalogue, inner),
    ensures
        steady::traced(assembler.catalogue, assembler.cache),
{
    let path = ProcedureId::KERNEL_PATH@;
    let lib = assembler.catalogue;
    let cache = assembler.cache;
    reveal(steady::traced);
    assert(steady::without(Some(path), cache) =~= steady::without(Some(path), inner));
    assert forall|a: ProcId, b: ProcId|
        #![trigger cache.contains_key(a), (lib.lookup)(b)]
        cache.contains_key(a) && (lib.lookup)(b) is Some && (lib.lookup)(b)->0.path == a.module
            && lib.is_dependable_at(a.module) implies steady::recorded(
        lib,
        (lib.lookup)(b)->0,
        steady::without(lib.unused_at(a.module), cache),
    ) by {
        let reached = choose|reached: Set<Seq<char>>| #[trigger]
            lib.is_dependable(reached) && reached.contains(a.module);
        lemma_quiet(assembler, reached, a);
        assert((lib.lookup)(b)->0.path != path);
        assert(inner.contains_key(a));
    }
}

/// What a module of which there are procedures reaches asks nothing of a kernel, if no module of
/// which there are procedures does.
proof fn lemma_quiet(assembler: SpecAssembler, reached: Set<Seq<char>>, id: ProcId)
    requires
        assembler.asks_no_kernel(),
        steady::supplied(assembler.catalogue, assembler.cache),
        assembler.catalogue.is_dependable(reached),
        reached.contains(id.module),
        assembler.cache.contains_key(id),
    ensures
        assembler.catalogue.unused_at(id.module) == Some(ProcedureId::KERNEL_PATH@),
{
    let lib = assembler.catalogue;
    let cache = assembler.cache;
    let compiled = Set::new(
        |path: Seq<char>|
            reached.contains(path) && exists|other: ProcId| #[trigger]
                cache.contains_key(other) && other.module == path,
    );
    assert forall|b: ProcId|
        (#[trigger] (lib.lookup)(b)) is Some && compiled.contains(
            (lib.lookup)(b)->0.path,
        ) implies {
        let module = (lib.lookup)(b)->0;
        &&& lib.answers_procs(compiled, module.procs)
        &&& module.unused() is Some
    } by {
        let module = (lib.lookup)(b)->0;
        let a = choose|a: ProcId| #[trigger] cache.contains_key(a) && a.module == module.path;
        assert forall|i: int| 0 <= i < module.procs.len() implies lib.answers_all(
            compiled,
            (#[trigger] module.procs[i]).body,
        ) by {
            assert forall|other: ProcId| #[trigger]
                steady::nodes_import(module.procs[i].body, other) implies cache.contains_key(
                other,
            ) by {
                reveal(steady::supplied);
                assert(steady::procs_import((lib.lookup)(b)->0.procs, other));
            }
            lemma_answers_compiled(lib, cache, reached, compiled, module.procs[i].body);
        }
    }
    assert(lib.is_dependable(compiled));
    assert(lib.is_quiet(compiled));
}

/// Nodes whose imports are in the cache ask only modules of which there are procedures.
proof fn lemma_answers_compiled(
    lib: Catalogue,
    cache: Map<ProcId, SpecProc>,
    reached: Set<Seq<char>>,
    compiled: Set<Seq<char>>,
    nodes: Seq<SpecNode>,
)
    requires
        lib.is_dependable(reached),
        lib.answers_all(reached, nodes),
        forall|id: ProcId| #[trigger]
            steady::nodes_import(nodes, id) ==> cache.contains_key(id),
        forall|id: ProcId| #[trigger]
            cache.contains_key(id) && reached.contains(id.module) ==> compiled.contains(id.module),
    ensures
        lib.answers_all(compiled, nodes),
    decreases nodes,
{
    if nodes.len() > 0 {
        let rest = nodes.drop_first();
        assert forall|id: ProcId| #[trigger] steady::nodes_import(rest, id) implies
            cache.contains_key(id) by {
            assert(steady::nodes_import(nodes, id));
        }
        lemma_answers_compiled(lib, cache, reached, compiled, rest);
        match nodes[0] {
            SpecNode::Instruction(instruction) => match instruction {
                SpecInstruction::ExecImported(id) => {
                    assert(steady::nodes_import(nodes, id));
                },
                SpecInstruction::CallImported(id) => {
                    assert(steady::nodes_import(nodes, id));
                },
                _ => {},
            },
            SpecNode::IfElse(on_true, on_false) => {
                assert forall|id: ProcId| #[trigger] steady::nodes_import(on_true, id) implies
                    cache.contains_key(id) by {
                    assert(steady::nodes_import(nodes, id));
                }
                assert forall|id: ProcId| #[trigger] steady::nodes_import(on_false, id) implies
                    cache.contains_key(id) by {
                    assert(steady::nodes_import(nodes, id));
                }
                lemma_answers_compiled(lib, cache, reached, compiled, on_true);
                lemma_answers_compiled(lib, cache, reached, compiled, on_false);
            },
            SpecNode::Repeat(_, body) => {
                assert forall|id: ProcId| #[trigger] steady::nodes_import(body, id) implies
                    cache.contains_key(id) by {
                    assert(steady::nodes_import(nodes, id));
                }
                lemma_answers_compiled(lib, cache, reached, compiled, body);
            },
            SpecNode::While(body) => {
                assert forall|id: ProcId| #[trigger] steady::nodes_import(body, id) implies
                    cache.contains_key(id) by {
                    assert(steady::nodes_import(nodes, id));
                }
                lemma_answers_compiled(lib, cache, reached, compiled, body);
            },
        }
    }
}

/// A sound assembler whose cache holds no procedure of a kernel is sound after a kernel has been
/// set from its source, and no procedure in its cache is lost or replaced. It stays traceable too.
pub proof fn lemma_kernel_source_keeps_sound(assembler: SpecAssembler, source: Seq<char>)
    requires
        assembler.is_sound(),
        assembler.is_without_kernel(),
    ensures
        assembler.with_kernel_source(source) matches Ok(after) ==> {
            &&& after.is_sound()
            &&& linking::grows(assembler.cache, after.cache)
            &&& assembler.is_traceable() ==> after.is_traceable()
        },
{
    match SpecReader::module(source) {
        None => {},
        Some(procs) => {
            lemma_kernel_keeps_sound(assembler, procs);
        },
    }
}

/// What holds of a kernel which replaces another one holds of a kernel which does so from its
/// source.
pub proof fn lemma_kernel_source_replaces_kernel(assembler: SpecAssembler, source: Seq<char>)
    requires
        assembler.is_sound(),
        assembler.invokes_no_kernel(),
        SpecReader::module(source) matches Some(procs) ==> assembler.has_kernel_names_in(procs),
    ensures
        assembler.with_kernel_source(source) matches Ok(after) ==> {
            &&& steady::complete(after.catalogue, after.cache) ==> after.is_sound()
            &&& after.asks_no_kernel() ==> {
                &&& after.is_sound()
                &&& assembler.is_traceable() ==> after.is_traceable()
            }
        },
{
    match SpecReader::module(source) {
        None => {},
        Some(procs) => {
            lemma_kernel_replaces_kernel(assembler, procs);
        },
    }
}

/// A new assembler which is given a kernel, and any consistent module provider after that, is
/// sound and traceable.
pub proof fn lemma_module_provider_may_follow_kernel(
    procs: Seq<SpecProcAst>,
    catalogue: Catalogue,
)
    requires
        catalogue.is_consistent(),
    ensures
        SpecAssembler::empty().with_kernel_procs(procs) matches Ok(assembler) ==> {
            let provided = SpecAssembler { catalogue, ..assembler };
            provided.is_sound() && provided.is_traceable()
        },
{
    let new = SpecAssembler::empty();
    lemma_new_assembler_is_sound();
    lemma_kernel_keeps_sound(new, procs);
    origins::lemma_kernels_keep_the_cache(new, procs);
    match new.with_kernel_procs(procs) {
        Err(_) => {},
        Ok(assembler) => {
            reveal(steady::traced);
            reveal(steady::supplied);
            assert forall|a: ProcId, b: ProcId|
                #![trigger assembler.cache.contains_key(a), (catalogue.lookup)(b)]
                assembler.cache.contains_key(a) && (catalogue.lookup)(b) is Some implies (
            catalogue.lookup)(b)->0.path != a.module by {
                assert(a.module == ProcedureId::KERNEL_PATH@);
            }
            lemma_module_provider_keeps_sound(assembler, catalogue);
        },
    }
}

} // verus!
