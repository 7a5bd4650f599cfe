//! What has been compiled stays what it is, and compiles once more to the same.
use vstd::prelude::*;

use crate::ast::{SpecInstruction, SpecModule, SpecNode, SpecProcAst};
use crate::code_block::Mast;
use crate::laws::{catalogues, linking, origins};
use crate::operation::Operation;
use crate::procedure::{CallSet, ProcId, ProcedureId, SpecProc};
use crate::semantics::{Catalogue, Fault, Outcome, Progress, Scope};

verus! {

impl SpecInstruction {
    /// True if the instruction asks for a procedure at the given path.
    pub open spec fn asks(self, path: Seq<char>) -> bool {
        match self {
            SpecInstruction::ExecImported(id) => id.module == path,
            SpecInstruction::CallImported(id) => id.module == path,
            SpecInstruction::SysCall(_) => path == ProcedureId::KERNEL_PATH@,
            _ => false,
        }
    }
}

/// True if some of the nodes ask for a procedure at the given path.
pub open spec fn nodes_ask(nodes: Seq<SpecNode>, path: Seq<char>) -> bool
    decreases nodes,
{
    nodes.len() > 0 && {
        ||| match nodes[0] {
            SpecNode::Instruction(instruction) => instruction.asks(path),
            SpecNode::IfElse(on_true, on_false) => nodes_ask(on_true, path) || nodes_ask(
                on_false,
                path,
            ),
            SpecNode::Repeat(_, body) => nodes_ask(body, path),
            SpecNode::While(body) => nodes_ask(body, path),
        }
        ||| nodes_ask(nodes.drop_first(), path)
    }
}

/// True if some of the procedures ask for a procedure at the given path.
pub open spec fn procs_ask(procs: Seq<SpecProcAst>, path: Seq<char>) -> bool {
    exists|i: int| 0 <= i < procs.len() && nodes_ask((#[trigger] procs[i]).body, path)
}

/// True if some of the nodes import the procedure.
pub open spec fn nodes_import(nodes: Seq<SpecNode>, id: ProcId) -> bool
    decreases nodes,
{
    nodes.len() > 0 && {
        ||| match nodes[0] {
            SpecNode::Instruction(instruction) => {
                ||| instruction == SpecInstruction::ExecImported(id)
                ||| instruction == SpecInstruction::CallImported(id)
            },
            SpecNode::IfElse(on_true, on_false) => nodes_import(on_true, id) || nodes_import(
                on_false,
                id,
            ),
            SpecNode::Repeat(_, body) => nodes_import(body, id),
            SpecNode::While(body) => nodes_import(body, id),
        }
        ||| nodes_import(nodes.drop_first(), id)
    }
}

/// True if some of the procedures import the given one.
pub open spec fn procs_import(procs: Seq<SpecProcAst>, id: ProcId) -> bool {
    exists|i: int| 0 <= i < procs.len() && nodes_import((#[trigger] procs[i]).body, id)
}

/// True if some of the nodes call the procedure of their own module with the given index.
pub open spec fn nodes_call(nodes: Seq<SpecNode>, index: u16) -> bool
    decreases nodes,
{
    nodes.len() > 0 && {
        ||| match nodes[0] {
            SpecNode::Instruction(instruction) => instruction == SpecInstruction::CallLocal(index),
            SpecNode::IfElse(on_true, on_false) => nodes_call(on_true, index) || nodes_call(
                on_false,
                index,
            ),
            SpecNode::Repeat(_, body) => nodes_call(body, index),
            SpecNode::While(body) => nodes_call(body, index),
        }
        ||| nodes_call(nodes.drop_first(), index)
    }
}

impl SpecModule {
    /// True if a procedure of the module calls the one with the given index.
    pub open spec fn calls(self, index: u16) -> bool {
        exists|i: int|
            0 <= i < self.procs.len() && nodes_call((#[trigger] self.procs[i]).body, index)
    }

    /// True if a procedure of the module calls one with the given name.
    pub open spec fn calls_name(self, name: Seq<char>) -> bool {
        exists|index: u16|
            index < self.procs.len() && #[trigger] self.calls(index)
                && self.procs[index as int].name == name
    }

    /// True if the procedure is one which the module exports or calls, so that it is in the cache
    /// once the module has been compiled.
    pub open spec fn gives(self, id: ProcId) -> bool {
        id.module == self.path && (self.exports(id.name) || self.calls_name(id.name))
    }

    /// The path of the kernel, if the module asks nothing of a kernel.
    pub open spec fn unused(self) -> Option<Seq<char>> {
        if procs_ask(self.procs, ProcedureId::KERNEL_PATH@) {
            None
        } else {
            Some(ProcedureId::KERNEL_PATH@)
        }
    }
}

impl Catalogue {
    /// True if the catalogue serves one module at each path, and none at the paths of the kernel
    /// and of programs.
    pub open spec fn is_consistent(self) -> bool {
        forall|a: ProcId, b: ProcId|
            match (#[trigger] (self.lookup)(a), #[trigger] (self.lookup)(b)) {
                (Some(m), Some(n)) => {
                    &&& m.path == n.path ==> m == n
                    &&& m.path != ProcedureId::KERNEL_PATH@
                    &&& m.path != ProcedureId::PROGRAM_PATH@
                },
                _ => true,
            }
    }

    /// True if the procedure is one which a module that is served exports or calls.
    pub open spec fn gives(self, id: ProcId) -> bool {
        exists|other: ProcId|
            (#[trigger] (self.lookup)(other)) is Some && (self.lookup)(other)->0.gives(id)
    }

    /// True if the catalogue serves a module at one of the given paths for the procedure, or no
    /// module which is served gives the procedure.
    pub open spec fn answers(self, reached: Set<Seq<char>>, id: ProcId) -> bool {
        match (self.lookup)(id) {
            Some(module) => reached.contains(module.path),
            None => !self.gives(id),
        }
    }

    /// True if the catalogue answers whatever the instruction asks for.
    pub open spec fn answers_to(
        self,
        reached: Set<Seq<char>>,
        instruction: SpecInstruction,
    ) -> bool {
        match instruction {
            SpecInstruction::ExecImported(id) => self.answers(reached, id),
            SpecInstruction::CallImported(id) => self.answers(reached, id),
            _ => true,
        }
    }

    /// True if the catalogue answers whatever the nodes ask for.
    pub open spec fn answers_all(self, reached: Set<Seq<char>>, nodes: Seq<SpecNode>) -> bool
        decreases nodes,
    {
        nodes.len() == 0 || {
            &&& match nodes[0] {
                SpecNode::Instruction(instruction) => self.answers_to(reached, instruction),
                SpecNode::IfElse(on_true, on_false) => {
                    &&& self.answers_all(reached, on_true)
                    &&& self.answers_all(reached, on_false)
                },
                SpecNode::Repeat(_, body) => self.answers_all(reached, body),
                SpecNode::While(body) => self.answers_all(reached, body),
            }
            &&& self.answers_all(reached, nodes.drop_first())
        }
    }

    /// True if the catalogue answers whatever the procedures ask for.
    pub open spec fn answers_procs(
        self,
        reached: Set<Seq<char>>,
        procs: Seq<SpecProcAst>,
    ) -> bool {
        forall|i: int|
            0 <= i < procs.len() ==> self.answers_all(reached, (#[trigger] procs[i]).body)
    }

    /// True if the modules at the given paths are served for the procedures which they export,
    /// and reach no other modules.
    pub open spec fn is_dependable(self, reached: Set<Seq<char>>) -> bool {
        forall|id: ProcId|
            (#[trigger] (self.lookup)(id) matches Some(module) && reached.contains(module.path))
                ==> {
                let module = (self.lookup)(id)->0;
                &&& self.paths.finite()
                &&& self.paths.contains(module.path)
                &&& module.path == id.module
                &&& module.exports(id.name)
                &&& self.answers_procs(reached, module.procs)
            }
    }

    /// True if the module at the given path is dependable, with whatever it reaches.
    pub open spec fn is_dependable_at(self, path: Seq<char>) -> bool {
        exists|reached: Set<Seq<char>>| #[trigger]
            self.is_dependable(reached) && reached.contains(path)
    }
}

impl Catalogue {
    /// True if the modules at the given paths ask nothing of a kernel.
    pub open spec fn is_quiet(self, reached: Set<Seq<char>>) -> bool {
        forall|id: ProcId|
            (#[trigger] (self.lookup)(id)) is Some && reached.contains((self.lookup)(id)->0.path)
                ==> (self.lookup)(id)->0.unused() is Some
    }

    /// The path of the kernel, if neither the dependable module at the given path nor what it
    /// reaches asks anything of a kernel.
    pub open spec fn unused_at(self, path: Seq<char>) -> Option<Seq<char>> {
        if exists|reached: Set<Seq<char>>|
            self.is_dependable(reached) && #[trigger] self.is_quiet(reached) && reached.contains(
                path,
            ) {
            Some(ProcedureId::KERNEL_PATH@)
        } else {
            None
        }
    }
}

/// True if the cache has no procedure of the modules at the given paths.
pub open spec fn avoids(cache: Map<ProcId, SpecProc>, paths: Seq<Seq<char>>) -> bool {
    forall|id: ProcId| #[trigger] cache.contains_key(id) ==> !paths.contains(id.module)
}

/// The cache without the procedures at the path, if one is given.
pub open spec fn without(
    path: Option<Seq<char>>,
    cache: Map<ProcId, SpecProc>,
) -> Map<ProcId, SpecProc> {
    Map::new(
        |id: ProcId| cache.contains_key(id) && path != Some(id.module),
        |id: ProcId| cache[id],
    )
}

/// True if the first cache is the second without some procedures which modules that are served
/// give.
pub open spec fn within(
    lib: Catalogue,
    first: Map<ProcId, SpecProc>,
    second: Map<ProcId, SpecProc>,
) -> bool {
    &&& linking::grows(first, second)
    &&& forall|id: ProcId| #[trigger]
        second.contains_key(id) ==> first.contains_key(id) || lib.gives(id)
}

/// True if compiling the module succeeds, and adds only what a cache holds that has grown from
/// the given one, whatever part of that is there before. Only the modules of which the given
/// cache has procedures must not be in progress.
#[verifier::opaque]
pub open spec fn reproduces(
    lib: Catalogue,
    module: SpecModule,
    cache: Map<ProcId, SpecProc>,
) -> bool {
    forall|active: Seq<Seq<char>>, cold: Map<ProcId, SpecProc>, later: Map<ProcId, SpecProc>|
        #![trigger
            within(lib, cold, later),
            lib.module(false, active, cold, module.path, module.procs)]
        linking::grows(cache, later) && within(lib, cold, later) && avoids(cache, active)
            && !active.contains(module.path) ==> {
            let outcome = lib.module(false, active, cold, module.path, module.procs);
            &&& outcome.1 is Ok
            &&& linking::grows(cold, outcome.0)
            &&& linking::grows(outcome.0, later)
        }
}

/// True if the module can be compiled again from what the cache held at some time.
pub open spec fn recorded(
    lib: Catalogue,
    module: SpecModule,
    cache: Map<ProcId, SpecProc>,
) -> bool {
    exists|before: Map<ProcId, SpecProc>|
        linking::grows(before, cache) && #[trigger] reproduces(lib, module, before)
}

/// True if compiling the module adds nothing to the cache, however much the cache has grown.
#[verifier::opaque]
pub open spec fn exhausted(
    lib: Catalogue,
    module: SpecModule,
    cache: Map<ProcId, SpecProc>,
) -> bool {
    forall|in_kernel: bool, active: Seq<Seq<char>>, later: Map<ProcId, SpecProc>|
        linking::grows(cache, later) ==> (#[trigger] lib.module(
            in_kernel,
            active,
            later,
            module.path,
            module.procs,
        )).0 == later
}

/// True if the modules of the catalogue of which some procedure is in the cache have nothing more
/// to add to it. Procedures of a kernel count only for modules which ask for them.
pub open spec fn complete(lib: Catalogue, cache: Map<ProcId, SpecProc>) -> bool {
    forall|a: ProcId, b: ProcId|
        #![trigger cache.contains_key(a), (lib.lookup)(b)]
        cache.contains_key(a) && (lib.lookup)(b) is Some && (lib.lookup)(b)->0.path == a.module
            ==> exhausted(lib, (lib.lookup)(b)->0, without((lib.lookup)(b)->0.unused(), cache))
}

/// True if the dependable modules of the catalogue of which some procedure is in the cache can be
/// compiled again. Procedures of a kernel count only if modules ask for them.
#[verifier::opaque]
pub open spec fn traced(lib: Catalogue, cache: Map<ProcId, SpecProc>) -> bool {
    forall|a: ProcId, b: ProcId|
        #![trigger cache.contains_key(a), (lib.lookup)(b)]
        cache.contains_key(a) && (lib.lookup)(b) is Some && (lib.lookup)(b)->0.path == a.module
            && lib.is_dependable_at(a.module) ==> recorded(
            lib,
            (lib.lookup)(b)->0,
            without(lib.unused_at(a.module), cache),
        )
}

/// True if the modules of the catalogue of which some procedure is in the cache find there
/// whatever they import.
#[verifier::opaque]
pub open spec fn supplied(lib: Catalogue, cache: Map<ProcId, SpecProc>) -> bool {
    forall|a: ProcId, b: ProcId, id: ProcId|
        #![trigger cache.contains_key(a), procs_import((lib.lookup)(b)->0.procs, id)]
        cache.contains_key(a) && (lib.lookup)(b) is Some && (lib.lookup)(b)->0.path == a.module
            && procs_import((lib.lookup)(b)->0.procs, id) ==> cache.contains_key(id)
}

/// What holds of the cache at any time.
#[verifier::opaque]
pub open spec fn steady(lib: Catalogue, cache: Map<ProcId, SpecProc>) -> bool {
    lib.is_consistent() && complete(lib, cache)
}

/// How the cache changes from one time to another: only procedures are added, and modules which
/// could be compiled again still can.
#[verifier::opaque]
pub open spec fn advances(
    lib: Catalogue,
    first: Map<ProcId, SpecProc>,
    second: Map<ProcId, SpecProc>,
) -> bool {
    &&& steady(lib, second)
    &&& linking::grows(first, second)
    &&& traced(lib, first) ==> traced(lib, second)
    &&& supplied(lib, first) ==> supplied(lib, second)
}

/// Another compilation of code which has been compiled.
pub struct Rerun {
    /// The scope of that compilation.
    pub scope: Scope,
    /// A cache which holds whatever that compilation adds.
    pub later: Map<ProcId, SpecProc>,
    /// Paths of the modules which the code reaches.
    pub reached: Set<Seq<char>>,
    /// A path at which the code asks for nothing, if there is one: what the cache has there may
    /// have changed.
    pub unused: Option<Seq<char>>,
}

impl Rerun {
    /// The compilation after a procedure of the module.
    pub open spec fn with(self, proc: SpecProc) -> Rerun {
        Rerun { scope: self.scope.with(proc), ..self }
    }

    /// True if the code leaves out the path at which things may have changed.
    pub open spec fn spares(self, nodes: Seq<SpecNode>) -> bool {
        self.unused matches Some(path) ==> !nodes_ask(nodes, path)
    }

    /// True if the procedures leave out the path at which things may have changed.
    pub open spec fn spares_procs(self, procs: Seq<SpecProcAst>) -> bool {
        self.unused matches Some(path) ==> !procs_ask(procs, path)
    }

    /// True if code that has been compiled, with the cache as it was in the end, can be compiled
    /// once more with the cache at hand: either that has grown from the former, or it lacks only
    /// what the catalogue serves.
    #[verifier::opaque]
    pub open spec fn can_follow(
        self,
        lib: Catalogue,
        cold: Map<ProcId, SpecProc>,
        end: Map<ProcId, SpecProc>,
    ) -> bool {
        &&& linking::grows(without(self.unused, end), self.later)
        &&& linking::grows(cold, self.later)
        &&& cold == self.later || {
            &&& self.unused is Some ==> {
                &&& self.unused == Some(ProcedureId::KERNEL_PATH@)
                &&& lib.is_quiet(self.reached)
            }
            &&& lib.is_dependable(self.reached)
            &&& !self.scope.in_kernel
            &&& within(lib, cold, self.later)
            &&& avoids(without(self.unused, end), self.scope.active)
        }
    }
}

/// How a result comes out once more: to a cache at hand only such procedures are added as a later
/// one holds, and the result is the same, except that code from outside of a kernel which calls
/// procedures is refused in a kernel.
pub open spec fn repeats<T>(
    first: Result<T, Fault>,
    cold: Map<ProcId, SpecProc>,
    later: Map<ProcId, SpecProc>,
    in_kernel: bool,
    second: Outcome<T>,
) -> bool {
    &&& linking::grows(cold, second.0)
    &&& linking::grows(second.0, later)
    &&& second.1 == first || in_kernel && second.1 matches Err(Fault::Error(_))
}

/// A cache which avoids the paths of some modules avoids the paths of fewer.
pub(crate) proof fn lemma_avoids(
    cache: Map<ProcId, SpecProc>,
    active: Seq<Seq<char>>,
    path: Seq<char>,
)
    ensures
        avoids(cache, active.push(path)) <==> avoids(cache, active) && forall|id: ProcId| #[trigger]
            cache.contains_key(id) ==> id.module != path,
{
    let longer = active.push(path);
    assert(longer[active.len() as int] == path);
    assert forall|id: ProcId| #[trigger] cache.contains_key(id) implies longer.contains(id.module)
        == (active.contains(id.module) || id.module == path) by {
        if active.contains(id.module) {
            let i = choose|i: int| 0 <= i < active.len() && active[i] == id.module;
            assert(longer[i] == id.module);
        }
    }
}

/// Caches between which nothing has been added are the same.
pub(crate) proof fn lemma_between(first: Map<ProcId, SpecProc>, second: Map<ProcId, SpecProc>)
    requires
        linking::grows(first, second),
        linking::grows(second, first),
    ensures
        first == second,
{
    assert(first =~= second);
}

/// A consistent catalogue does not serve a kernel.
pub(crate) proof fn lemma_kernel_is_not_served(lib: Catalogue, id: ProcId)
    requires
        lib.is_consistent(),
        id.module == ProcedureId::KERNEL_PATH@,
    ensures
        !lib.gives(id),
{
    if lib.gives(id) {
        let other = choose|other: ProcId|
            (#[trigger] (lib.lookup)(other)) is Some && (lib.lookup)(other)->0.gives(id);
        assert((lib.lookup)(other) is Some);
    }
}

/// Putting procedures into a cache which another one holds already adds only what is there.
pub(crate) proof fn lemma_publish_between(
    first: Map<ProcId, SpecProc>,
    second: Map<ProcId, SpecProc>,
    procs: Seq<SpecProc>,
    callset: Seq<ProcId>,
)
    requires
        linking::grows(first, second),
        forall|i: int|
            0 <= i < procs.len() && ((#[trigger] procs[i]).is_export || callset.contains(
                procs[i].id,
            )) ==> second.contains_key(procs[i].id) && second[procs[i].id] == procs[i],
    ensures
        linking::grows(first, Catalogue::published(first, procs, callset)),
        linking::grows(Catalogue::published(first, procs, callset), second),
    decreases procs.len(),
{
    if procs.len() > 0 {
        let rest = procs.drop_last();
        assert forall|i: int|
            0 <= i < rest.len() && ((#[trigger] rest[i]).is_export || callset.contains(
                rest[i].id,
            )) implies second.contains_key(rest[i].id) && second[rest[i].id] == rest[i] by {
            assert(rest[i] == procs[i]);
        }
        lemma_publish_between(first, second, rest, callset);
        assert(procs[procs.len() - 1] == procs.last());
    }
}

/// True if no two of the procedures have the same identifier.
pub open spec fn distinct(procs: Seq<SpecProc>) -> bool {
    forall|i: int, j: int|
        0 <= i < j < procs.len() ==> (#[trigger] procs[i]).id != (#[trigger] procs[j]).id
}

/// Procedures which are put into a cache under different identifiers are all there.
pub(crate) proof fn lemma_published_values(
    cache: Map<ProcId, SpecProc>,
    procs: Seq<SpecProc>,
    callset: Seq<ProcId>,
)
    requires
        distinct(procs),
    ensures
        forall|i: int|
            0 <= i < procs.len() && ((#[trigger] procs[i]).is_export || callset.contains(
                procs[i].id,
            )) ==> {
                let after = Catalogue::published(cache, procs, callset);
                after.contains_key(procs[i].id) && after[procs[i].id] == procs[i]
            },
    decreases procs.len(),
{
    if procs.len() > 0 {
        let rest = procs.drop_last();
        let after = Catalogue::published(cache, procs, callset);
        assert forall|i: int, j: int| 0 <= i < j < rest.len() implies (#[trigger] rest[i]).id != (
        #[trigger] rest[j]).id by {
            assert(rest[i] == procs[i] && rest[j] == procs[j]);
        }
        lemma_published_values(cache, rest, callset);
        assert(procs[procs.len() - 1] == procs.last());
        assert forall|i: int|
            0 <= i < procs.len() && ((#[trigger] procs[i]).is_export || callset.contains(
                procs[i].id,
            )) implies after.contains_key(procs[i].id) && after[procs[i].id] == procs[i] by {
            if i < rest.len() {
                assert(rest[i] == procs[i]);
            }
        }
    }
}

/// The procedures of a module are compiled under different names.
pub(crate) proof fn lemma_distinct(
    lib: Catalogue,
    scope: Scope,
    cache: Map<ProcId, SpecProc>,
    callset: Seq<ProcId>,
    procs: Seq<SpecProcAst>,
)
    requires
        distinct(scope.procs),
    ensures
        lib.procedures(scope, cache, callset, procs).1 matches Ok((compiled, _)) ==> distinct(
            compiled,
        ),
    decreases procs.len(),
{
    if procs.len() > 0 {
        match lib.procedure(scope, cache, procs[0]) {
            (_, Err(_)) => {},
            (next, Ok(proc)) => {
                let longer = scope.with(proc).procs;
                assert forall|i: int, j: int| 0 <= i < j < longer.len() implies (
                #[trigger] longer[i]).id != (#[trigger] longer[j]).id by {
                    assert(longer[i] == scope.procs[i]);
                    if j < scope.procs.len() {
                        assert(longer[j] == scope.procs[j]);
                    }
                }
                lemma_distinct(
                    lib,
                    scope.with(proc),
                    next,
                    CallSet::merging(callset, proc.callset),
                    procs.drop_first(),
                );
            },
        }
    }
}

/// A module which has nothing more to add has nothing to add to a larger cache.
pub(crate) proof fn lemma_exhausted_more(
    lib: Catalogue,
    module: SpecModule,
    first: Map<ProcId, SpecProc>,
    second: Map<ProcId, SpecProc>,
)
    requires
        exhausted(lib, module, first),
        linking::grows(first, second),
    ensures
        exhausted(lib, module, second),
{
    reveal(exhausted);
}

/// A module which can be compiled again still can when the cache has grown.
pub(crate) proof fn lemma_recorded_more(
    lib: Catalogue,
    module: SpecModule,
    first: Map<ProcId, SpecProc>,
    second: Map<ProcId, SpecProc>,
)
    requires
        recorded(lib, module, first),
        linking::grows(first, second),
    ensures
        recorded(lib, module, second),
{
    let before = choose|before: Map<ProcId, SpecProc>|
        linking::grows(before, first) && #[trigger] reproduces(lib, module, before);
    assert(linking::grows(before, second) && reproduces(lib, module, before));
}

/// A cache stays what it is.
proof fn lemma_stays(lib: Catalogue, cache: Map<ProcId, SpecProc>)
    requires
        steady(lib, cache),
    ensures
        advances(lib, cache, cache),
{
    reveal(advances);
}

/// What an advance means.
pub(crate) proof fn lemma_advances_means(
    lib: Catalogue,
    first: Map<ProcId, SpecProc>,
    second: Map<ProcId, SpecProc>,
)
    requires
        advances(lib, first, second),
    ensures
        steady(lib, second),
        linking::grows(first, second),
        traced(lib, first) ==> traced(lib, second),
        supplied(lib, first) ==> supplied(lib, second),
{
    reveal(advances);
}

/// A cache advances from step to step.
proof fn lemma_advances(
    lib: Catalogue,
    first: Map<ProcId, SpecProc>,
    second: Map<ProcId, SpecProc>,
    third: Map<ProcId, SpecProc>,
)
    requires
        advances(lib, first, second),
        advances(lib, second, third),
    ensures
        advances(lib, first, third),
{
    reveal(advances);
}

/// The cache advances while the nodes of a body are compiled.
proof fn lemma_nodes_steady(
    lib: Catalogue,
    scope: Scope,
    cache: Map<ProcId, SpecProc>,
    progress: Progress,
    nodes: Seq<SpecNode>,
)
    requires
        steady(lib, cache),
    ensures
        advances(lib, cache, lib.nodes(scope, cache, progress, nodes).0),
    decreases lib.remaining(scope.active), 4nat, nodes, 0nat,
{
    let none = Seq::<Operation>::empty();
    let start = cache;
    let end = lib.nodes(scope, cache, progress, nodes).0;
    lemma_stays(lib, cache);
    if nodes.len() > 0 {
        let rest = nodes.drop_first();
        match nodes[0] {
            SpecNode::Instruction(instruction) => {
                lemma_instruction_steady(lib, scope, cache, progress.callset, instruction);
                match lib.instruction(scope, cache, progress.callset, instruction) {
                    (_, Err(_)) => {},
                    (cache, Ok((effect, callset))) => {
                        lemma_advances_means(lib, start, cache);
                        lemma_nodes_steady(
                            lib,
                            scope,
                            cache,
                            progress.after(effect, callset),
                            rest,
                        );
                        lemma_advances(lib, start, cache, end);
                    },
                }
            },
            SpecNode::IfElse(on_true, on_false) => {
                lemma_body_steady(lib, scope, cache, progress.callset, none, on_true, none);
                match lib.body(scope, cache, progress.callset, none, on_true, none) {
                    (_, Err(_)) => {},
                    (cache, Ok((true_block, callset))) => {
                        lemma_advances_means(lib, start, cache);
                        let middle = cache;
                        if on_false.len() == 0 {
                            let split = Mast::Split(
                                Box::new(true_block),
                                Box::new(Mast::noop()),
                            );
                            lemma_nodes_steady(
                                lib,
                                scope,
                                cache,
                                progress.followed_by(split, callset),
                                rest,
                            );
                            lemma_advances(lib, start, cache, end);
                        } else {
                            lemma_body_steady(lib, scope, cache, callset, none, on_false, none);
                            let second = lib.body(scope, cache, callset, none, on_false, none).0;
                            lemma_advances(lib, start, middle, second);
                            lemma_advances_means(lib, start, second);
                            match lib.body(scope, cache, callset, none, on_false, none) {
                                (_, Err(_)) => {},
                                (cache, Ok((false_block, callset))) => {
                                    let split = Mast::Split(
                                        Box::new(true_block),
                                        Box::new(false_block),
                                    );
                                    lemma_nodes_steady(
                                        lib,
                                        scope,
                                        cache,
                                        progress.followed_by(split, callset),
                                        rest,
                                    );
                                    lemma_advances(lib, start, cache, end);
                                },
                            }
                        }
                    },
                }
            },
            SpecNode::Repeat(count, body) => {
                lemma_body_steady(lib, scope, cache, progress.callset, none, body, none);
                match lib.body(scope, cache, progress.callset, none, body, none) {
                    (_, Err(_)) => {},
                    (cache, Ok((block, callset))) => {
                        lemma_advances_means(lib, start, cache);
                        lemma_nodes_steady(
                            lib,
                            scope,
                            cache,
                            progress.repeated(block, count as nat, callset),
                            rest,
                        );
                        lemma_advances(lib, start, cache, end);
                    },
                }
            },
            SpecNode::While(body) => {
                lemma_body_steady(lib, scope, cache, progress.callset, none, body, none);
                match lib.body(scope, cache, progress.callset, none, body, none) {
                    (_, Err(_)) => {},
                    (cache, Ok((block, callset))) => {
                        lemma_advances_means(lib, start, cache);
                        lemma_nodes_steady(
                            lib,
                            scope,
                            cache,
                            progress.followed_by(
                                Mast::Loop(Box::new(block)),
                                callset,
                            ),
                            rest,
                        );
                        lemma_advances(lib, start, cache, end);
                    },
                }
            },
        }
    }
}

/// The cache advances while a body is compiled.
pub(crate) proof fn lemma_body_steady(
    lib: Catalogue,
    scope: Scope,
    cache: Map<ProcId, SpecProc>,
    callset: Seq<ProcId>,
    prologue: Seq<Operation>,
    nodes: Seq<SpecNode>,
    epilogue: Seq<Operation>,
)
    requires
        steady(lib, cache),
    ensures
        advances(lib, cache, lib.body(scope, cache, callset, prologue, nodes, epilogue).0),
    decreases lib.remaining(scope.active), 4nat, nodes, 1nat,
{
    let start = Progress { blocks: Seq::empty(), ops: prologue, callset };
    lemma_nodes_steady(lib, scope, cache, start, nodes);
}

/// The cache advances while an instruction is compiled.
pub(crate) proof fn lemma_instruction_steady(
    lib: Catalogue,
    scope: Scope,
    cache: Map<ProcId, SpecProc>,
    callset: Seq<ProcId>,
    instruction: SpecInstruction,
)
    requires
        steady(lib, cache),
    ensures
        advances(lib, cache, lib.instruction(scope, cache, callset, instruction).0),
    decreases lib.remaining(scope.active), 3nat, Seq::<SpecNode>::empty(), 0nat,
{
    lemma_stays(lib, cache);
    match instruction {
        SpecInstruction::ExecImported(id) => {
            lemma_imported_steady(lib, scope, cache, id);
        },
        SpecInstruction::CallImported(id) => {
            lemma_imported_steady(lib, scope, cache, id);
        },
        _ => {},
    }
}

/// The cache advances while the procedures of a module are compiled.
pub(crate) proof fn lemma_procedures_steady(
    lib: Catalogue,
    scope: Scope,
    cache: Map<ProcId, SpecProc>,
    callset: Seq<ProcId>,
    procs: Seq<SpecProcAst>,
)
    requires
        steady(lib, cache),
    ensures
        advances(lib, cache, lib.procedures(scope, cache, callset, procs).0),
    decreases lib.remaining(scope.active), 6nat, Seq::<SpecNode>::empty(), procs.len(),
{
    let start = cache;
    let end = lib.procedures(scope, cache, callset, procs).0;
    lemma_stays(lib, cache);
    if procs.len() > 0 {
        lemma_procedure_steady(lib, scope, cache, procs[0]);
        match lib.procedure(scope, cache, procs[0]) {
            (_, Err(_)) => {},
            (cache, Ok(proc)) => {
                lemma_advances_means(lib, start, cache);
                lemma_procedures_steady(
                    lib,
                    scope.with(proc),
                    cache,
                    CallSet::merging(callset, proc.callset),
                    procs.drop_first(),
                );
                lemma_advances(lib, start, cache, end);
            },
        }
    }
}

/// The cache advances while a procedure is compiled.
pub(crate) proof fn lemma_procedure_steady(
    lib: Catalogue,
    scope: Scope,
    cache: Map<ProcId, SpecProc>,
    proc: SpecProcAst,
)
    requires
        steady(lib, cache),
    ensures
        advances(lib, cache, lib.procedure(scope, cache, proc).0),
    decreases lib.remaining(scope.active), 5nat, Seq::<SpecNode>::empty(), 0nat,
{
    lemma_stays(lib, cache);
    lemma_body_steady(
        lib,
        scope,
        cache,
        Seq::empty(),
        proc.prologue(),
        proc.body,
        proc.epilogue(),
    );
}

/// The cache advances while the procedures of a program are compiled.
pub(crate) proof fn lemma_program_procedures_steady(
    lib: Catalogue,
    scope: Scope,
    cache: Map<ProcId, SpecProc>,
    callset: Seq<ProcId>,
    procs: Seq<SpecProcAst>,
)
    requires
        steady(lib, cache),
    ensures
        advances(lib, cache, lib.program_procedures(scope, cache, callset, procs).0),
    decreases procs.len(),
{
    let start = cache;
    let end = lib.program_procedures(scope, cache, callset, procs).0;
    lib.lemma_program_procedures(scope, cache, callset, procs);
    lemma_stays(lib, cache);
    if procs.len() > 0 && !procs[0].is_export {
        lemma_procedure_steady(lib, scope, cache, procs[0]);
        match lib.procedure(scope, cache, procs[0]) {
            (_, Err(_)) => {},
            (cache, Ok(proc)) => {
                lemma_advances_means(lib, start, cache);
                lemma_program_procedures_steady(
                    lib,
                    scope.with(proc),
                    cache,
                    CallSet::merging(callset, proc.callset),
                    procs.drop_first(),
                );
                lemma_advances(lib, start, cache, end);
            },
        }
    }
}

/// What the nodes of a body import is in the cache once they have been compiled.
proof fn lemma_nodes_import(
    lib: Catalogue,
    scope: Scope,
    cache: Map<ProcId, SpecProc>,
    progress: Progress,
    nodes: Seq<SpecNode>,
    id: ProcId,
)
    requires
        steady(lib, cache),
        nodes_import(nodes, id),
    ensures
        lib.nodes(scope, cache, progress, nodes).1 is Ok ==> lib.nodes(
            scope,
            cache,
            progress,
            nodes,
        ).0.contains_key(id),
    decreases lib.remaining(scope.active), 4nat, nodes, 0nat,
{
    let none = Seq::<Operation>::empty();
    let start = cache;
    let end = lib.nodes(scope, cache, progress, nodes).0;
    let callset = progress.callset;
    if nodes.len() > 0 {
        let rest = nodes.drop_first();
        match nodes[0] {
            SpecNode::Instruction(instruction) => {
                lemma_instruction_steady(lib, scope, cache, callset, instruction);
                match lib.instruction(scope, cache, callset, instruction) {
                    (_, Err(_)) => {},
                    (cache, Ok((effect, after))) => {
                        let next = progress.after(effect, after);
                        lemma_advances_means(lib, start, cache);
                        lemma_rest_imports(lib, scope, cache, next, rest, id);
                    },
                }
            },
            SpecNode::IfElse(on_true, on_false) => {
                lemma_body_steady(lib, scope, cache, callset, none, on_true, none);
                if nodes_import(on_true, id) {
                    lemma_body_import(lib, scope, cache, callset, none, on_true, none, id);
                }
                match lib.body(scope, cache, callset, none, on_true, none) {
                    (_, Err(_)) => {},
                    (cache, Ok((true_block, between))) => {
                        lemma_advances_means(lib, start, cache);
                        if on_false.len() == 0 {
                            let split = Mast::Split(Box::new(true_block), Box::new(Mast::noop()));
                            let next = progress.followed_by(split, between);
                            assert(!nodes_import(on_false, id));
                            lemma_rest_imports(lib, scope, cache, next, rest, id);
                        } else {
                            let middle = cache;
                            lemma_body_steady(lib, scope, cache, between, none, on_false, none);
                            if nodes_import(on_false, id) {
                                lemma_body_import(
                                    lib,
                                    scope,
                                    cache,
                                    between,
                                    none,
                                    on_false,
                                    none,
                                    id,
                                );
                            }
                            match lib.body(scope, cache, between, none, on_false, none) {
                                (_, Err(_)) => {},
                                (cache, Ok((false_block, after))) => {
                                    let split = Mast::Split(
                                        Box::new(true_block),
                                        Box::new(false_block),
                                    );
                                    let next = progress.followed_by(split, after);
                                    lemma_advances_means(lib, middle, cache);
                                    lemma_rest_imports(lib, scope, cache, next, rest, id);
                                },
                            }
                        }
                    },
                }
            },
            SpecNode::Repeat(count, body) => {
                lemma_body_steady(lib, scope, cache, callset, none, body, none);
                if nodes_import(body, id) {
                    lemma_body_import(lib, scope, cache, callset, none, body, none, id);
                }
                match lib.body(scope, cache, callset, none, body, none) {
                    (_, Err(_)) => {},
                    (cache, Ok((block, after))) => {
                        let next = progress.repeated(block, count as nat, after);
                        lemma_advances_means(lib, start, cache);
                        lemma_rest_imports(lib, scope, cache, next, rest, id);
                    },
                }
            },
            SpecNode::While(body) => {
                lemma_body_steady(lib, scope, cache, callset, none, body, none);
                if nodes_import(body, id) {
                    lemma_body_import(lib, scope, cache, callset, none, body, none, id);
                }
                match lib.body(scope, cache, callset, none, body, none) {
                    (_, Err(_)) => {},
                    (cache, Ok((block, after))) => {
                        let next = progress.followed_by(Mast::Loop(Box::new(block)), after);
                        lemma_advances_means(lib, start, cache);
                        lemma_rest_imports(lib, scope, cache, next, rest, id);
                    },
                }
            },
        }
    }
}

/// What is in the cache, or is imported by the nodes which remain, is in the cache once these
/// have been compiled.
proof fn lemma_rest_imports(
    lib: Catalogue,
    scope: Scope,
    cache: Map<ProcId, SpecProc>,
    progress: Progress,
    rest: Seq<SpecNode>,
    id: ProcId,
)
    requires
        steady(lib, cache),
        cache.contains_key(id) || nodes_import(rest, id),
    ensures
        lib.nodes(scope, cache, progress, rest).1 is Ok ==> lib.nodes(
            scope,
            cache,
            progress,
            rest,
        ).0.contains_key(id),
    decreases lib.remaining(scope.active), 4nat, rest, 1nat,
{
    lemma_nodes_steady(lib, scope, cache, progress, rest);
    lemma_advances_means(lib, cache, lib.nodes(scope, cache, progress, rest).0);
    if nodes_import(rest, id) {
        lemma_nodes_import(lib, scope, cache, progress, rest, id);
    }
}

/// What a body imports is in the cache once it has been compiled.
proof fn lemma_body_import(
    lib: Catalogue,
    scope: Scope,
    cache: Map<ProcId, SpecProc>,
    callset: Seq<ProcId>,
    prologue: Seq<Operation>,
    nodes: Seq<SpecNode>,
    epilogue: Seq<Operation>,
    id: ProcId,
)
    requires
        steady(lib, cache),
        nodes_import(nodes, id),
    ensures
        lib.body(scope, cache, callset, prologue, nodes, epilogue).1 is Ok ==> lib.body(
            scope,
            cache,
            callset,
            prologue,
            nodes,
            epilogue,
        ).0.contains_key(id),
    decreases lib.remaining(scope.active), 4nat, nodes, 1nat,
{
    let start = Progress { blocks: Seq::empty(), ops: prologue, callset };
    lemma_nodes_import(lib, scope, cache, start, nodes, id);
}

/// What a procedure imports is in the cache once it has been compiled.
proof fn lemma_procedure_import(
    lib: Catalogue,
    scope: Scope,
    cache: Map<ProcId, SpecProc>,
    proc: SpecProcAst,
    id: ProcId,
)
    requires
        steady(lib, cache),
        cache.contains_key(id) || nodes_import(proc.body, id),
    ensures
        lib.procedure(scope, cache, proc).1 is Ok ==> lib.procedure(
            scope,
            cache,
            proc,
        ).0.contains_key(id),
    decreases lib.remaining(scope.active), 5nat, Seq::<SpecNode>::empty(), 1nat,
{
    lemma_procedure_steady(lib, scope, cache, proc);
    lemma_advances_means(lib, cache, lib.procedure(scope, cache, proc).0);
    if nodes_import(proc.body, id) {
        lemma_body_import(
            lib,
            scope,
            cache,
            Seq::empty(),
            proc.prologue(),
            proc.body,
            proc.epilogue(),
            id,
        );
    }
}

/// What procedures import the first of them or the others import.
proof fn lemma_procs_import(procs: Seq<SpecProcAst>, id: ProcId)
    requires
        procs_import(procs, id),
    ensures
        procs.len() > 0,
        nodes_import(procs[0].body, id) || procs_import(procs.drop_first(), id),
{
    let rest = procs.drop_first();
    let i = choose|i: int| 0 <= i < procs.len() && nodes_import((#[trigger] procs[i]).body, id);
    if i > 0 {
        assert(nodes_import(rest[i - 1].body, id));
    }
}

/// What the procedures of a module import is in the cache once they have been compiled.
proof fn lemma_procedures_import(
    lib: Catalogue,
    scope: Scope,
    cache: Map<ProcId, SpecProc>,
    callset: Seq<ProcId>,
    procs: Seq<SpecProcAst>,
    id: ProcId,
)
    requires
        steady(lib, cache),
        cache.contains_key(id) || procs_import(procs, id),
    ensures
        lib.procedures(scope, cache, callset, procs).1 is Ok ==> lib.procedures(
            scope,
            cache,
            callset,
            procs,
        ).0.contains_key(id),
    decreases lib.remaining(scope.active), 6nat, Seq::<SpecNode>::empty(), procs.len(),
{
    if procs_import(procs, id) {
        lemma_procs_import(procs, id);
    }
    if procs.len() > 0 {
        lemma_procedure_steady(lib, scope, cache, procs[0]);
        lemma_advances_means(lib, cache, lib.procedure(scope, cache, procs[0]).0);
        if nodes_import(procs[0].body, id) {
            lemma_procedure_import(lib, scope, cache, procs[0], id);
        }
        match lib.procedure(scope, cache, procs[0]) {
            (_, Err(_)) => {},
            (cache, Ok(proc)) => {
                lemma_procedures_import(
                    lib,
                    scope.with(proc),
                    cache,
                    CallSet::merging(callset, proc.callset),
                    procs.drop_first(),
                    id,
                );
            },
        }
    }
}

/// The cache advances while a procedure of another module is looked for.
proof fn lemma_imported_steady(
    lib: Catalogue,
    scope: Scope,
    cache: Map<ProcId, SpecProc>,
    id: ProcId,
)
    requires
        steady(lib, cache),
    ensures
        advances(lib, cache, lib.imported(scope, cache, id).0),
    decreases lib.remaining(scope.active), 2nat, Seq::<SpecNode>::empty(), 0nat,
{
    lemma_stays(lib, cache);
    if !cache.contains_key(id) {
        match (lib.lookup)(id) {
            None => {},
            Some(module) => {
                let served = lib.paths.finite() && lib.paths.contains(module.path);
                if scope.active.contains(module.path) || served {
                    lib.lemma_remaining(scope.active, module.path);
                    if exists|other: ProcId| #[trigger]
                        cache.contains_key(other) && other.module == module.path {
                        lemma_nothing_to_add(lib, scope.in_kernel, scope.active, cache, id);
                    } else {
                        lemma_module_steady(lib, scope.in_kernel, scope.active, cache, id);
                    }
                }
            },
        }
    }
}

/// A module of which the cache has procedures adds nothing to it.
pub(crate) proof fn lemma_nothing_to_add(
    lib: Catalogue,
    in_kernel: bool,
    active: Seq<Seq<char>>,
    cache: Map<ProcId, SpecProc>,
    id: ProcId,
)
    requires
        steady(lib, cache),
        (lib.lookup)(id) is Some,
        exists|other: ProcId| #[trigger]
            cache.contains_key(other) && other.module == (lib.lookup)(id)->0.path,
    ensures
        ({
            let module = (lib.lookup)(id)->0;
            lib.module(in_kernel, active, cache, module.path, module.procs).0 == cache
        }),
{
    reveal(steady);
    reveal(exhausted);
    let module = (lib.lookup)(id)->0;
    assert(linking::grows(without(module.unused(), cache), cache));
}

/// The cache advances while a module of which it has nothing yet is compiled.
pub(crate) proof fn lemma_module_steady(
    lib: Catalogue,
    in_kernel: bool,
    active: Seq<Seq<char>>,
    cache: Map<ProcId, SpecProc>,
    id: ProcId,
)
    requires
        steady(lib, cache),
        (lib.lookup)(id) is Some,
        forall|other: ProcId| #[trigger]
            cache.contains_key(other) ==> other.module != (lib.lookup)(id)->0.path,
    ensures
        ({
            let module = (lib.lookup)(id)->0;
            advances(
                lib,
                cache,
                lib.module(in_kernel, active, cache, module.path, module.procs).0,
            )
        }),
    decreases
            if active.contains((lib.lookup)(id)->0.path) {
                lib.remaining(active)
            } else {
                lib.remaining(active.push((lib.lookup)(id)->0.path))
            },
            if active.contains((lib.lookup)(id)->0.path) {
                1nat
            } else {
                7nat
            },
            Seq::<SpecNode>::empty(),
            0nat,
{
    let module = (lib.lookup)(id)->0;
    let path = module.path;
    let procs = module.procs;
    lemma_stays(lib, cache);
    if !active.contains(path) {
        let none = Seq::<ProcId>::empty();
        let scope = Scope { in_kernel, active: active.push(path), procs: Seq::empty() };
        lemma_procedures_steady(lib, scope, cache, none, procs);
        match lib.procedures(scope, cache, none, procs) {
            (_, Err(_)) => {},
            (inner, Ok((compiled, callset))) => {
                let after = Catalogue::published(inner, compiled, callset);
                lemma_advances_means(lib, cache, inner);
                lemma_published_new(lib, scope, cache, procs);
                lemma_module_exhausted(lib, scope, cache, id);
                if traced(lib, cache) && lib.is_dependable_at(path) {
                    lemma_module_reproduces(lib, scope, cache, id);
                    let kept = without(lib.unused_at(path), after);
                    assert(linking::grows(kept, kept) && reproduces(lib, module, kept));
                }
                assert forall|other: ProcId| #[trigger] procs_import(
                    procs,
                    other,
                ) implies inner.contains_key(other) by {
                    lemma_procedures_import(lib, scope, cache, none, procs, other);
                }
                lemma_publish_steady(lib, id, cache, inner, compiled, callset);
            },
        }
    }
}

/// What putting the procedures of a module into the cache means when it has none of them.
pub(crate) proof fn lemma_published_new(
    lib: Catalogue,
    scope: Scope,
    cache: Map<ProcId, SpecProc>,
    procs: Seq<SpecProcAst>,
)
    requires
        scope.active.len() > 0,
        scope.procs.len() == 0,
        forall|other: ProcId| #[trigger]
            cache.contains_key(other) ==> other.module != scope.active.last(),
    ensures
        lib.procedures(scope, cache, Seq::empty(), procs) matches (inner, Ok((compiled, callset)))
            ==> {
            let after = Catalogue::published(inner, compiled, callset);
            &&& linking::grows(inner, after)
            &&& forall|other: ProcId| #[trigger]
                inner.contains_key(other) ==> other.module != scope.active.last()
            &&& forall|other: ProcId| #[trigger]
                after.contains_key(other) && !inner.contains_key(other) ==> other.module
                    == scope.active.last()
            &&& distinct(compiled)
            &&& forall|i: int|
                0 <= i < compiled.len() ==> (#[trigger] compiled[i]).id.module
                    == scope.active.last()
            &&& forall|i: int|
                0 <= i < compiled.len() && ((#[trigger] compiled[i]).is_export
                    || callset.contains(compiled[i].id)) ==> {
                    &&& after.contains_key(compiled[i].id)
                    &&& after[compiled[i].id] == compiled[i]
                }
        },
{
    let none = Seq::<ProcId>::empty();
    match lib.procedures(scope, cache, none, procs) {
        (_, Err(_)) => {},
        (inner, Ok((compiled, callset))) => {
            let path = scope.active.last();
            origins::lemma_nothing_published_yet(lib, scope, cache, none, procs);
            lemma_distinct(lib, scope, cache, none, procs);
            lemma_published_values(inner, compiled, callset);
            catalogues::lemma_procedure_ids(lib, scope, cache, none, procs);
            catalogues::lemma_published(inner, compiled, callset);
            assert forall|other: ProcId| #[trigger] inner.contains_key(other) implies other.module
                != path by {
                if other.module == path {
                    assert(cache.contains_key(other));
                }
            }
        },
    }
}

/// Putting the procedures of a module into a cache which has grown since changes nothing.
proof fn lemma_published_unused(
    lib: Catalogue,
    id: ProcId,
    inner: Map<ProcId, SpecProc>,
    compiled: Seq<SpecProc>,
    callset: Seq<ProcId>,
    later: Map<ProcId, SpecProc>,
)
    requires
        steady(lib, inner),
        (lib.lookup)(id) is Some,
        distinct(compiled),
        forall|i: int|
            0 <= i < compiled.len() ==> (#[trigger] compiled[i]).id.module
                == (lib.lookup)(id)->0.path,
        linking::grows(
            without(
                (lib.lookup)(id)->0.unused(),
                Catalogue::published(inner, compiled, callset),
            ),
            later,
        ),
    ensures
        Catalogue::published(later, compiled, callset) == later,
{
    reveal(steady);
    let after = Catalogue::published(inner, compiled, callset);
    let kept = without((lib.lookup)(id)->0.unused(), after);
    lemma_published_values(inner, compiled, callset);
    assert forall|i: int|
        0 <= i < compiled.len() && ((#[trigger] compiled[i]).is_export || callset.contains(
            compiled[i].id,
        )) implies later.contains_key(compiled[i].id) && later[compiled[i].id] == compiled[i] by {
        assert((lib.lookup)(id)->0.path != ProcedureId::KERNEL_PATH@);
        assert(kept.contains_key(compiled[i].id));
    }
    lemma_publish_between(later, later, compiled, callset);
    lemma_between(Catalogue::published(later, compiled, callset), later);
}

/// The cache has advanced once the procedures of a module are in it.
proof fn lemma_publish_steady(
    lib: Catalogue,
    id: ProcId,
    cache: Map<ProcId, SpecProc>,
    inner: Map<ProcId, SpecProc>,
    compiled: Seq<SpecProc>,
    callset: Seq<ProcId>,
)
    requires
        (lib.lookup)(id) is Some,
        advances(lib, cache, inner),
        ({
            let module = (lib.lookup)(id)->0;
            let after = Catalogue::published(inner, compiled, callset);
            &&& linking::grows(inner, after)
            &&& forall|other: ProcId| #[trigger]
                after.contains_key(other) && !inner.contains_key(other) ==> other.module
                    == module.path
            &&& exhausted(lib, module, without(module.unused(), after))
            &&& traced(lib, cache) && lib.is_dependable_at(module.path) ==> recorded(
                lib,
                module,
                without(lib.unused_at(module.path), after),
            )
            &&& forall|other: ProcId| #[trigger]
                procs_import(module.procs, other) ==> inner.contains_key(other)
        }),
    ensures
        advances(lib, cache, Catalogue::published(inner, compiled, callset)),
{
    reveal(advances);
    reveal(steady);
    reveal(traced);
    let module = (lib.lookup)(id)->0;
    let after = Catalogue::published(inner, compiled, callset);
    assert forall|a: ProcId, b: ProcId|
        #![trigger after.contains_key(a), (lib.lookup)(b)]
        after.contains_key(a) && (lib.lookup)(b) is Some && (lib.lookup)(b)->0.path
            == a.module implies exhausted(
        lib,
        (lib.lookup)(b)->0,
        without((lib.lookup)(b)->0.unused(), after),
    ) by {
        let other = (lib.lookup)(b)->0;
        if inner.contains_key(a) {
            lemma_exhausted_more(
                lib,
                other,
                without(other.unused(), inner),
                without(other.unused(), after),
            );
        } else {
            assert(other == module);
        }
    }
    if traced(lib, cache) {
        assert forall|a: ProcId, b: ProcId|
            #![trigger after.contains_key(a), (lib.lookup)(b)]
            after.contains_key(a) && (lib.lookup)(b) is Some && (lib.lookup)(b)->0.path == a.module
                && lib.is_dependable_at(a.module) implies recorded(
            lib,
            (lib.lookup)(b)->0,
            without(lib.unused_at(a.module), after),
        ) by {
            if inner.contains_key(a) {
                lemma_recorded_more(
                    lib,
                    (lib.lookup)(b)->0,
                    without(lib.unused_at(a.module), inner),
                    without(lib.unused_at(a.module), after),
                );
            } else {
                assert((lib.lookup)(b)->0 == module);
            }
        }
    }
    if supplied(lib, cache) {
        reveal(supplied);
        assert forall|a: ProcId, b: ProcId, other: ProcId|
            #![trigger after.contains_key(a), procs_import((lib.lookup)(b)->0.procs, other)]
            after.contains_key(a) && (lib.lookup)(b) is Some && (lib.lookup)(b)->0.path == a.module
                && procs_import((lib.lookup)(b)->0.procs, other) implies after.contains_key(
            other,
        ) by {
            if !inner.contains_key(a) {
                assert((lib.lookup)(b)->0 == module);
            }
            assert(inner.contains_key(other));
        }
    }
}

/// True if the procedures of a module of the catalogue are compiled in the given scope, from a
/// cache which has none of them.
pub open spec fn begins(
    lib: Catalogue,
    scope: Scope,
    cache: Map<ProcId, SpecProc>,
    id: ProcId,
) -> bool {
    &&& steady(lib, cache)
    &&& (lib.lookup)(id) is Some
    &&& scope.active.len() > 0
    &&& scope.active.last() == (lib.lookup)(id)->0.path
    &&& scope.procs.len() == 0
    &&& forall|other: ProcId| #[trigger]
        cache.contains_key(other) ==> other.module != scope.active.last()
}

/// A module which has been compiled adds nothing to a cache which has grown since.
proof fn lemma_module_adds_nothing(
    lib: Catalogue,
    scope: Scope,
    cache: Map<ProcId, SpecProc>,
    id: ProcId,
    in_kernel: bool,
    active: Seq<Seq<char>>,
    later: Map<ProcId, SpecProc>,
)
    requires
        begins(lib, scope, cache, id),
        ({
            let module = (lib.lookup)(id)->0;
            let first = lib.procedures(scope, cache, Seq::empty(), module.procs);
            first matches (inner, Ok((compiled, callset))) && linking::grows(
                without(module.unused(), Catalogue::published(inner, compiled, callset)),
                later,
            )
        }),
    ensures
        ({
            let module = (lib.lookup)(id)->0;
            lib.module(in_kernel, active, later, module.path, module.procs).0 == later
        }),
    decreases
            lib.remaining(scope.active),
            6nat,
            Seq::<SpecNode>::empty(),
            (lib.lookup)(id)->0.procs.len() + 1,
{
    let module = (lib.lookup)(id)->0;
    let path = module.path;
    let procs = module.procs;
    let none = Seq::<ProcId>::empty();
    if !active.contains(path) {
        let rerun = Rerun {
            scope: Scope { in_kernel, active: active.push(path), procs: Seq::empty() },
            later,
            reached: Set::empty(),
            unused: module.unused(),
        };
        lemma_published_new(lib, scope, cache, procs);
        lemma_procedures_steady(lib, scope, cache, none, procs);
        match lib.procedures(scope, cache, none, procs) {
            (_, Err(_)) => {},
            (inner, Ok((compiled, callset))) => {
                let after = Catalogue::published(inner, compiled, callset);
                let kept = without(module.unused(), inner);
                lemma_advances_means(lib, cache, inner);
                assert forall|other: ProcId| #[trigger] kept.contains_key(other) implies
                    later.contains_key(other) && later[other] == kept[other] by {
                    assert(without(module.unused(), after).contains_key(other));
                }
                lemma_can_follow_warm(lib, rerun, inner);
                assert(rerun.scope.procs =~= scope.procs);
                lemma_procedures_again(lib, scope, cache, none, procs, rerun, later);
                lemma_between(lib.procedures(rerun.scope, later, none, procs).0, later);
                lemma_published_unused(lib, id, inner, compiled, callset, later);
            },
        }
    }
}

/// A module which has been compiled has nothing more to add.
proof fn lemma_module_exhausted(
    lib: Catalogue,
    scope: Scope,
    cache: Map<ProcId, SpecProc>,
    id: ProcId,
)
    requires
        begins(lib, scope, cache, id),
    ensures
        ({
            let module = (lib.lookup)(id)->0;
            let first = lib.procedures(scope, cache, Seq::empty(), module.procs);
            first matches (inner, Ok((compiled, callset))) ==> exhausted(
                lib,
                module,
                without(module.unused(), Catalogue::published(inner, compiled, callset)),
            )
        }),
    decreases
            lib.remaining(scope.active),
            6nat,
            Seq::<SpecNode>::empty(),
            (lib.lookup)(id)->0.procs.len() + 2,
{
    let module = (lib.lookup)(id)->0;
    reveal(exhausted);
    match lib.procedures(scope, cache, Seq::empty(), module.procs) {
        (_, Err(_)) => {},
        (inner, Ok((compiled, callset))) => {
            let after = Catalogue::published(inner, compiled, callset);
            assert forall|in_kernel: bool, active: Seq<Seq<char>>, later: Map<ProcId, SpecProc>|
                linking::grows(without(module.unused(), after), later) implies (
            #[trigger] lib.module(in_kernel, active, later, module.path, module.procs)).0
                == later by {
                lemma_module_adds_nothing(lib, scope, cache, id, in_kernel, active, later);
            }
        },
    }
}

/// A dependable module which has been compiled can be compiled again with less.
proof fn lemma_module_from_less(
    lib: Catalogue,
    scope: Scope,
    cache: Map<ProcId, SpecProc>,
    id: ProcId,
    reached: Set<Seq<char>>,
    active: Seq<Seq<char>>,
    cold: Map<ProcId, SpecProc>,
    later: Map<ProcId, SpecProc>,
)
    requires
        begins(lib, scope, cache, id),
        traced(lib, cache),
        lib.is_dependable(reached),
        reached.contains((lib.lookup)(id)->0.path),
        lib.unused_at((lib.lookup)(id)->0.path) is Some ==> lib.is_quiet(reached),
        ({
            let module = (lib.lookup)(id)->0;
            let first = lib.procedures(scope, cache, Seq::empty(), module.procs);
            first matches (inner, Ok((compiled, callset))) && {
                let after = Catalogue::published(inner, compiled, callset);
                let kept = without(lib.unused_at(module.path), after);
                linking::grows(kept, later) && avoids(kept, active)
            }
        }),
        within(lib, cold, later),
        !active.contains((lib.lookup)(id)->0.path),
    ensures
        ({
            let module = (lib.lookup)(id)->0;
            let outcome = lib.module(false, active, cold, module.path, module.procs);
            &&& outcome.1 is Ok
            &&& linking::grows(cold, outcome.0)
            &&& linking::grows(outcome.0, later)
        }),
    decreases
            lib.remaining(scope.active),
            6nat,
            Seq::<SpecNode>::empty(),
            (lib.lookup)(id)->0.procs.len() + 1,
{
    let path = (lib.lookup)(id)->0.path;
    let procs = (lib.lookup)(id)->0.procs;
    let none = Seq::<ProcId>::empty();
    let rerun = Rerun {
        scope: Scope { in_kernel: false, active: active.push(path), procs: Seq::empty() },
        later,
        reached,
        unused: lib.unused_at(path),
    };
    lemma_published_new(lib, scope, cache, procs);
    match lib.procedures(scope, cache, none, procs) {
        (_, Err(_)) => {},
        (inner, Ok((compiled, callset))) => {
            let after = Catalogue::published(inner, compiled, callset);
            let kept = without(lib.unused_at(path), inner);
            assert forall|other: ProcId| #[trigger] kept.contains_key(other) implies
                later.contains_key(other) && later[other] == kept[other] && !active.contains(
                other.module,
            ) by {
                assert(without(lib.unused_at(path), after).contains_key(other));
            }
            assert(rerun.can_follow(lib, cold, inner)) by {
                reveal(Rerun::can_follow);
                lemma_avoids(kept, active, path);
            }
            assert(rerun.spares_procs(procs)) by {
                assert((lib.lookup)(id) is Some);
            }
            assert(rerun.scope.procs =~= scope.procs);
            lemma_procedures_again(lib, scope, cache, none, procs, rerun, cold);
            let middle = lib.procedures(rerun.scope, cold, none, procs).0;
            assert(path != ProcedureId::KERNEL_PATH@) by {
                reveal(steady);
                assert((lib.lookup)(id) is Some);
            }
            assert forall|i: int|
                0 <= i < compiled.len() && ((#[trigger] compiled[i]).is_export
                    || callset.contains(compiled[i].id)) implies later.contains_key(
                compiled[i].id,
            ) && later[compiled[i].id] == compiled[i] by {
                assert(without(lib.unused_at(path), after).contains_key(compiled[i].id));
            }
            lemma_publish_between(middle, later, compiled, callset);
        },
    }
}

/// A dependable module which has been compiled can be compiled again.
proof fn lemma_module_reproduces(
    lib: Catalogue,
    scope: Scope,
    cache: Map<ProcId, SpecProc>,
    id: ProcId,
)
    requires
        begins(lib, scope, cache, id),
        traced(lib, cache),
        lib.is_dependable_at((lib.lookup)(id)->0.path),
    ensures
        ({
            let module = (lib.lookup)(id)->0;
            let first = lib.procedures(scope, cache, Seq::empty(), module.procs);
            first matches (inner, Ok((compiled, callset))) ==> reproduces(
                lib,
                module,
                without(
                    lib.unused_at(module.path),
                    Catalogue::published(inner, compiled, callset),
                ),
            )
        }),
    decreases
            lib.remaining(scope.active),
            6nat,
            Seq::<SpecNode>::empty(),
            (lib.lookup)(id)->0.procs.len() + 2,
{
    let module = (lib.lookup)(id)->0;
    let reached = if lib.unused_at(module.path) is Some {
        choose|reached: Set<Seq<char>>|
            lib.is_dependable(reached) && #[trigger] lib.is_quiet(reached) && reached.contains(
                module.path,
            )
    } else {
        choose|reached: Set<Seq<char>>| #[trigger]
            lib.is_dependable(reached) && reached.contains(module.path)
    };
    reveal(reproduces);
    match lib.procedures(scope, cache, Seq::empty(), module.procs) {
        (_, Err(_)) => {},
        (inner, Ok((compiled, callset))) => {
            let kept = without(
                lib.unused_at(module.path),
                Catalogue::published(inner, compiled, callset),
            );
            assert forall|
                active: Seq<Seq<char>>,
                cold: Map<ProcId, SpecProc>,
                later: Map<ProcId, SpecProc>,
            |
                #![trigger
                    within(lib, cold, later),
                    lib.module(false, active, cold, module.path, module.procs)]
                linking::grows(kept, later) && within(lib, cold, later) && avoids(kept, active)
                    && !active.contains(module.path) implies {
                let outcome = lib.module(false, active, cold, module.path, module.procs);
                &&& outcome.1 is Ok
                &&& linking::grows(cold, outcome.0)
                &&& linking::grows(outcome.0, later)
            } by {
                lemma_module_from_less(lib, scope, cache, id, reached, active, cold, later);
            }
        },
    }
}

/// Code can be compiled once more when the cache has grown.
pub(crate) proof fn lemma_can_follow_warm(
    lib: Catalogue,
    rerun: Rerun,
    end: Map<ProcId, SpecProc>,
)
    requires
        linking::grows(without(rerun.unused, end), rerun.later),
    ensures
        rerun.can_follow(lib, rerun.later, end),
{
    reveal(Rerun::can_follow);
}

/// Code which can be compiled once more still can when the cache at hand has grown, and so can
/// parts of the code.
proof fn lemma_can_follow(
    lib: Catalogue,
    rerun: Rerun,
    cold: Map<ProcId, SpecProc>,
    now: Map<ProcId, SpecProc>,
    end: Map<ProcId, SpecProc>,
    part_end: Map<ProcId, SpecProc>,
)
    requires
        rerun.can_follow(lib, cold, end),
        linking::grows(cold, now),
        linking::grows(now, rerun.later),
        linking::grows(part_end, end),
    ensures
        rerun.can_follow(lib, now, part_end),
        cold == rerun.later ==> now == rerun.later,
{
    reveal(Rerun::can_follow);
    let kept = without(rerun.unused, part_end);
    assert forall|id: ProcId| #[trigger] kept.contains_key(id) implies rerun.later.contains_key(id)
        && rerun.later[id] == kept[id] by {
        assert(without(rerun.unused, end).contains_key(id));
    }
    if avoids(without(rerun.unused, end), rerun.scope.active) {
        assert forall|id: ProcId| #[trigger] kept.contains_key(id) implies
            !rerun.scope.active.contains(id.module) by {
            assert(without(rerun.unused, end).contains_key(id));
        }
    }
    if cold == rerun.later {
        lemma_between(now, rerun.later);
    }
}

/// Code which can be compiled once more has been compiled with less.
proof fn lemma_can_follow_grows(
    lib: Catalogue,
    rerun: Rerun,
    cold: Map<ProcId, SpecProc>,
    end: Map<ProcId, SpecProc>,
)
    requires
        rerun.can_follow(lib, cold, end),
    ensures
        linking::grows(cold, rerun.later),
{
    reveal(Rerun::can_follow);
}

/// Code which can be compiled once more still can after a procedure of the module.
proof fn lemma_can_follow_with(
    lib: Catalogue,
    rerun: Rerun,
    cold: Map<ProcId, SpecProc>,
    end: Map<ProcId, SpecProc>,
    proc: SpecProc,
)
    requires
        rerun.can_follow(lib, cold, end),
    ensures
        rerun.with(proc).can_follow(lib, cold, end),
{
    reveal(Rerun::can_follow);
}

/// Compiling the nodes of a body once more comes to the same result.
proof fn lemma_nodes_again(
    lib: Catalogue,
    scope: Scope,
    cache: Map<ProcId, SpecProc>,
    progress: Progress,
    nodes: Seq<SpecNode>,
    rerun: Rerun,
    cold: Map<ProcId, SpecProc>,
)
    requires
        steady(lib, cache),
        rerun.scope.procs == scope.procs,
        lib.nodes(scope, cache, progress, nodes).1 is Ok,
        rerun.can_follow(lib, cold, lib.nodes(scope, cache, progress, nodes).0),
        rerun.spares(nodes),
        cold == rerun.later || traced(lib, cache) && lib.answers_all(rerun.reached, nodes),
    ensures
        repeats(
            lib.nodes(scope, cache, progress, nodes).1,
            cold,
            rerun.later,
            rerun.scope.in_kernel && !scope.in_kernel,
            lib.nodes(rerun.scope, cold, progress, nodes),
        ),
    decreases lib.remaining(scope.active), 4nat, nodes, 0nat,
{
    let none = Seq::<Operation>::empty();
    let start = cache;
    let end = lib.nodes(scope, cache, progress, nodes).0;
    let callset = progress.callset;
    lemma_can_follow_grows(lib, rerun, cold, end);
    if nodes.len() > 0 {
        let rest = nodes.drop_first();
        match nodes[0] {
            SpecNode::Instruction(instruction) => {
                lemma_instruction_steady(lib, scope, cache, callset, instruction);
                match lib.instruction(scope, cache, callset, instruction) {
                    (_, Err(_)) => {},
                    (cache, Ok((effect, after))) => {
                        let next = progress.after(effect, after);
                        lemma_advances_means(lib, start, cache);
                        lemma_nodes_steady(lib, scope, cache, next, rest);
                        lemma_advances_means(lib, cache, end);
                        lemma_can_follow(lib, rerun, cold, cold, end, cache);
                        lemma_instruction_again(
                            lib,
                            scope,
                            start,
                            callset,
                            instruction,
                            rerun,
                            cold,
                        );
                        let now = lib.instruction(rerun.scope, cold, callset, instruction).0;
                        lemma_rest_again(lib, scope, start, cache, next, rest, rerun, cold, now);
                    },
                }
            },
            SpecNode::IfElse(on_true, on_false) => {
                lemma_body_steady(lib, scope, cache, callset, none, on_true, none);
                match lib.body(scope, cache, callset, none, on_true, none) {
                    (_, Err(_)) => {},
                    (cache, Ok((true_block, between))) => {
                        lemma_advances_means(lib, start, cache);
                        let first = lib.body(rerun.scope, cold, callset, none, on_true, none).0;
                        if on_false.len() == 0 {
                            let split = Mast::Split(Box::new(true_block), Box::new(Mast::noop()));
                            let next = progress.followed_by(split, between);
                            lemma_nodes_steady(lib, scope, cache, next, rest);
                            lemma_advances_means(lib, cache, end);
                            lemma_can_follow(lib, rerun, cold, cold, end, cache);
                            lemma_body_again(
                                lib,
                                scope,
                                start,
                                callset,
                                none,
                                on_true,
                                none,
                                rerun,
                                cold,
                            );
                            lemma_rest_again(
                                lib,
                                scope,
                                start,
                                cache,
                                next,
                                rest,
                                rerun,
                                cold,
                                first,
                            );
                        } else {
                            let middle = cache;
                            lemma_body_steady(lib, scope, cache, between, none, on_false, none);
                            match lib.body(scope, cache, between, none, on_false, none) {
                                (_, Err(_)) => {},
                                (cache, Ok((false_block, after))) => {
                                    let split = Mast::Split(
                                        Box::new(true_block),
                                        Box::new(false_block),
                                    );
                                    let next = progress.followed_by(split, after);
                                    lemma_advances_means(lib, middle, cache);
                                    lemma_nodes_steady(lib, scope, cache, next, rest);
                                    lemma_advances_means(lib, cache, end);
                                    lemma_can_follow(lib, rerun, cold, cold, end, middle);
                                    lemma_body_again(
                                        lib,
                                        scope,
                                        start,
                                        callset,
                                        none,
                                        on_true,
                                        none,
                                        rerun,
                                        cold,
                                    );
                                    lemma_can_follow(lib, rerun, cold, first, end, cache);
                                    lemma_body_again(
                                        lib,
                                        scope,
                                        middle,
                                        between,
                                        none,
                                        on_false,
                                        none,
                                        rerun,
                                        first,
                                    );
                                    lemma_can_follow(lib, rerun, cold, first, end, end);
                                    let now = lib.body(
                                        rerun.scope,
                                        first,
                                        between,
                                        none,
                                        on_false,
                                        none,
                                    ).0;
                                    lemma_rest_again(
                                        lib,
                                        scope,
                                        middle,
                                        cache,
                                        next,
                                        rest,
                                        rerun,
                                        first,
                                        now,
                                    );
                                },
                            }
                        }
                    },
                }
            },
            SpecNode::Repeat(count, body) => {
                lemma_body_steady(lib, scope, cache, callset, none, body, none);
                match lib.body(scope, cache, callset, none, body, none) {
                    (_, Err(_)) => {},
                    (cache, Ok((block, after))) => {
                        let next = progress.repeated(block, count as nat, after);
                        lemma_advances_means(lib, start, cache);
                        lemma_nodes_steady(lib, scope, cache, next, rest);
                        lemma_advances_means(lib, cache, end);
                        lemma_can_follow(lib, rerun, cold, cold, end, cache);
                        lemma_body_again(
                            lib,
                            scope,
                            start,
                            callset,
                            none,
                            body,
                            none,
                            rerun,
                            cold,
                        );
                        let now = lib.body(rerun.scope, cold, callset, none, body, none).0;
                        lemma_rest_again(lib, scope, start, cache, next, rest, rerun, cold, now);
                    },
                }
            },
            SpecNode::While(body) => {
                lemma_body_steady(lib, scope, cache, callset, none, body, none);
                match lib.body(scope, cache, callset, none, body, none) {
                    (_, Err(_)) => {},
                    (cache, Ok((block, after))) => {
                        let next = progress.followed_by(Mast::Loop(Box::new(block)), after);
                        lemma_advances_means(lib, start, cache);
                        lemma_nodes_steady(lib, scope, cache, next, rest);
                        lemma_advances_means(lib, cache, end);
                        lemma_can_follow(lib, rerun, cold, cold, end, cache);
                        lemma_body_again(
                            lib,
                            scope,
                            start,
                            callset,
                            none,
                            body,
                            none,
                            rerun,
                            cold,
                        );
                        let now = lib.body(rerun.scope, cold, callset, none, body, none).0;
                        lemma_rest_again(lib, scope, start, cache, next, rest, rerun, cold, now);
                    },
                }
            },
        }
    }
}

/// Compiling the nodes behind the first one once more comes to the same result.
proof fn lemma_rest_again(
    lib: Catalogue,
    scope: Scope,
    start: Map<ProcId, SpecProc>,
    cache: Map<ProcId, SpecProc>,
    progress: Progress,
    rest: Seq<SpecNode>,
    rerun: Rerun,
    cold: Map<ProcId, SpecProc>,
    now: Map<ProcId, SpecProc>,
)
    requires
        advances(lib, start, cache),
        rerun.scope.procs == scope.procs,
        lib.nodes(scope, cache, progress, rest).1 is Ok,
        rerun.can_follow(lib, cold, lib.nodes(scope, cache, progress, rest).0),
        linking::grows(cold, now),
        linking::grows(now, rerun.later),
        rerun.spares(rest),
        cold == rerun.later || traced(lib, start) && lib.answers_all(rerun.reached, rest),
    ensures
        repeats(
            lib.nodes(scope, cache, progress, rest).1,
            cold,
            rerun.later,
            rerun.scope.in_kernel && !scope.in_kernel,
            lib.nodes(rerun.scope, now, progress, rest),
        ),
    decreases lib.remaining(scope.active), 4nat, rest, 1nat,
{
    let end = lib.nodes(scope, cache, progress, rest).0;
    lemma_advances_means(lib, start, cache);
    lemma_can_follow(lib, rerun, cold, now, end, end);
    lemma_nodes_again(lib, scope, cache, progress, rest, rerun, now);
}

/// Compiling a body once more comes to the same result.
pub(crate) proof fn lemma_body_again(
    lib: Catalogue,
    scope: Scope,
    cache: Map<ProcId, SpecProc>,
    callset: Seq<ProcId>,
    prologue: Seq<Operation>,
    nodes: Seq<SpecNode>,
    epilogue: Seq<Operation>,
    rerun: Rerun,
    cold: Map<ProcId, SpecProc>,
)
    requires
        steady(lib, cache),
        rerun.scope.procs == scope.procs,
        lib.body(scope, cache, callset, prologue, nodes, epilogue).1 is Ok,
        rerun.can_follow(
            lib,
            cold,
            lib.body(scope, cache, callset, prologue, nodes, epilogue).0,
        ),
        rerun.spares(nodes),
        cold == rerun.later || traced(lib, cache) && lib.answers_all(rerun.reached, nodes),
    ensures
        repeats(
            lib.body(scope, cache, callset, prologue, nodes, epilogue).1,
            cold,
            rerun.later,
            rerun.scope.in_kernel && !scope.in_kernel,
            lib.body(rerun.scope, cold, callset, prologue, nodes, epilogue),
        ),
    decreases lib.remaining(scope.active), 4nat, nodes, 1nat,
{
    let start = Progress { blocks: Seq::empty(), ops: prologue, callset };
    lemma_nodes_again(lib, scope, cache, start, nodes, rerun, cold);
}

/// Compiling an instruction once more comes to the same result.
proof fn lemma_instruction_again(
    lib: Catalogue,
    scope: Scope,
    cache: Map<ProcId, SpecProc>,
    callset: Seq<ProcId>,
    instruction: SpecInstruction,
    rerun: Rerun,
    cold: Map<ProcId, SpecProc>,
)
    requires
        steady(lib, cache),
        rerun.scope.procs == scope.procs,
        lib.instruction(scope, cache, callset, instruction).1 is Ok,
        rerun.can_follow(lib, cold, lib.instruction(scope, cache, callset, instruction).0),
        rerun.unused matches Some(path) ==> !instruction.asks(path),
        cold == rerun.later || traced(lib, cache) && lib.answers_to(rerun.reached, instruction),
    ensures
        repeats(
            lib.instruction(scope, cache, callset, instruction).1,
            cold,
            rerun.later,
            rerun.scope.in_kernel && !scope.in_kernel,
            lib.instruction(rerun.scope, cold, callset, instruction),
        ),
    decreases lib.remaining(scope.active), 3nat, Seq::<SpecNode>::empty(), 0nat,
{
    lemma_can_follow_grows(
        lib,
        rerun,
        cold,
        lib.instruction(scope, cache, callset, instruction).0,
    );
    match instruction {
        SpecInstruction::ExecImported(id) => {
            lemma_imported_again(lib, scope, cache, id, rerun, cold);
        },
        SpecInstruction::CallImported(id) => {
            lemma_imported_again(lib, scope, cache, id, rerun, cold);
        },
        SpecInstruction::SysCall(name) => {
            let id = ProcId { module: ProcedureId::KERNEL_PATH@, name };
            lemma_kernel_again(lib, cache, id, rerun, cold);
        },
        _ => {},
    }
}

/// Looking for a kernel procedure once more comes to the same result.
proof fn lemma_kernel_again(
    lib: Catalogue,
    cache: Map<ProcId, SpecProc>,
    id: ProcId,
    rerun: Rerun,
    cold: Map<ProcId, SpecProc>,
)
    requires
        steady(lib, cache),
        id.module == ProcedureId::KERNEL_PATH@,
        cache.contains_key(id),
        rerun.can_follow(lib, cold, cache),
        rerun.unused != Some(id.module),
    ensures
        cold.contains_key(id),
        cold[id] == cache[id],
{
    reveal(Rerun::can_follow);
    reveal(steady);
    assert(without(rerun.unused, cache).contains_key(id));
    lemma_kernel_is_not_served(lib, id);
}

/// Looking for a procedure of another module once more comes to the same result.
proof fn lemma_imported_again(
    lib: Catalogue,
    scope: Scope,
    cache: Map<ProcId, SpecProc>,
    id: ProcId,
    rerun: Rerun,
    cold: Map<ProcId, SpecProc>,
)
    requires
        steady(lib, cache),
        lib.imported(scope, cache, id).1 is Ok,
        rerun.can_follow(lib, cold, lib.imported(scope, cache, id).0),
        rerun.unused != Some(id.module),
        cold == rerun.later || traced(lib, cache) && lib.answers(rerun.reached, id),
    ensures
        ({
            let second = lib.imported(rerun.scope, cold, id);
            &&& linking::grows(cold, second.0)
            &&& linking::grows(second.0, rerun.later)
            &&& second.1 == lib.imported(scope, cache, id).1
        }),
    decreases lib.remaining(scope.active), 2nat, Seq::<SpecNode>::empty(), 1nat,
{
    let after = lib.imported(scope, cache, id).0;
    lemma_imported_steady(lib, scope, cache, id);
    lemma_advances_means(lib, cache, after);
    reveal(Rerun::can_follow);
    assert(without(rerun.unused, after).contains_key(id));
    if !cold.contains_key(id) {
        lemma_cold_import(lib, after, rerun, id, cold);
    }
}

/// A module of which a procedure has been found before can be compiled once more.
pub(crate) proof fn lemma_cold_import(
    lib: Catalogue,
    cache: Map<ProcId, SpecProc>,
    rerun: Rerun,
    id: ProcId,
    cold: Map<ProcId, SpecProc>,
)
    requires
        traced(lib, cache),
        cache.contains_key(id),
        rerun.can_follow(lib, cold, cache),
        rerun.unused != Some(id.module),
        !cold.contains_key(id),
        cold != rerun.later,
        lib.answers(rerun.reached, id),
    ensures
        (lib.lookup)(id) is Some,
        lib.paths.finite() && lib.paths.contains((lib.lookup)(id)->0.path),
        ({
            let module = (lib.lookup)(id)->0;
            let outcome = lib.module(false, rerun.scope.active, cold, module.path, module.procs);
            &&& outcome.1 is Ok
            &&& outcome.0.contains_key(id)
            &&& linking::grows(cold, outcome.0)
            &&& linking::grows(outcome.0, rerun.later)
        }),
{
    reveal(traced);
    reveal(Rerun::can_follow);
    let later = rerun.later;
    let active = rerun.scope.active;
    let seen = without(rerun.unused, cache);
    assert(seen.contains_key(id));
    assert(later.contains_key(id));
    let module = (lib.lookup)(id)->0;
    let kept = without(lib.unused_at(module.path), cache);
    assert(lib.is_dependable(rerun.reached) && rerun.reached.contains(module.path));
    if rerun.unused is Some {
        assert(lib.is_quiet(rerun.reached));
    }
    assert(linking::grows(kept, seen));
    assert(recorded(lib, module, kept));
    let before = choose|before: Map<ProcId, SpecProc>|
        linking::grows(before, kept) && #[trigger] reproduces(lib, module, before);
    assert forall|other: ProcId| #[trigger] before.contains_key(other) implies later.contains_key(
        other,
    ) && later[other] == before[other] && !active.contains(other.module) by {
        assert(kept.contains_key(other));
        assert(seen.contains_key(other));
    }
    reveal(reproduces);
    assert(within(lib, cold, later));
    catalogues::lemma_module_exports(lib, false, active, cold, module.path, module.procs);
    assert(module.exports(id.name));
}

/// Compiling a procedure once more comes to the same result.
pub(crate) proof fn lemma_procedure_again(
    lib: Catalogue,
    scope: Scope,
    cache: Map<ProcId, SpecProc>,
    proc: SpecProcAst,
    rerun: Rerun,
    cold: Map<ProcId, SpecProc>,
)
    requires
        steady(lib, cache),
        rerun.scope.procs == scope.procs,
        rerun.scope.active.last() == scope.active.last(),
        lib.procedure(scope, cache, proc).1 is Ok,
        rerun.can_follow(lib, cold, lib.procedure(scope, cache, proc).0),
        rerun.spares(proc.body),
        cold == rerun.later || traced(lib, cache) && lib.answers_all(rerun.reached, proc.body),
    ensures
        repeats(
            lib.procedure(scope, cache, proc).1,
            cold,
            rerun.later,
            rerun.scope.in_kernel && !scope.in_kernel,
            lib.procedure(rerun.scope, cold, proc),
        ),
    decreases lib.remaining(scope.active), 5nat, Seq::<SpecNode>::empty(), 0nat,
{
    lemma_body_again(
        lib,
        scope,
        cache,
        Seq::empty(),
        proc.prologue(),
        proc.body,
        proc.epilogue(),
        rerun,
        cold,
    );
}

/// Compiling the procedures of a module once more comes to the same result.
pub(crate) proof fn lemma_procedures_again(
    lib: Catalogue,
    scope: Scope,
    cache: Map<ProcId, SpecProc>,
    callset: Seq<ProcId>,
    procs: Seq<SpecProcAst>,
    rerun: Rerun,
    cold: Map<ProcId, SpecProc>,
)
    requires
        steady(lib, cache),
        rerun.scope.procs == scope.procs,
        rerun.scope.active.last() == scope.active.last(),
        lib.procedures(scope, cache, callset, procs).1 is Ok,
        rerun.can_follow(lib, cold, lib.procedures(scope, cache, callset, procs).0),
        rerun.spares_procs(procs),
        cold == rerun.later || traced(lib, cache) && lib.answers_procs(rerun.reached, procs),
    ensures
        repeats(
            lib.procedures(scope, cache, callset, procs).1,
            cold,
            rerun.later,
            rerun.scope.in_kernel && !scope.in_kernel,
            lib.procedures(rerun.scope, cold, callset, procs),
        ),
    decreases lib.remaining(scope.active), 6nat, Seq::<SpecNode>::empty(), procs.len(),
{
    let end = lib.procedures(scope, cache, callset, procs).0;
    lemma_can_follow_grows(lib, rerun, cold, end);
    if procs.len() > 0 {
        let start = cache;
        lemma_procedure_steady(lib, scope, cache, procs[0]);
        match lib.procedure(scope, cache, procs[0]) {
            (_, Err(_)) => {},
            (cache, Ok(proc)) => {
                let next = scope.with(proc);
                let merged = CallSet::merging(callset, proc.callset);
                let rest = procs.drop_first();
                lemma_advances_means(lib, start, cache);
                lemma_procedures_steady(lib, next, cache, merged, rest);
                lemma_advances_means(lib, cache, end);
                lemma_can_follow(lib, rerun, cold, cold, end, cache);
                lemma_spares_rest(lib, rerun, procs);
                lemma_procedure_again(lib, scope, start, procs[0], rerun, cold);
                let now = lib.procedure(rerun.scope, cold, procs[0]).0;
                lemma_can_follow(lib, rerun, cold, now, end, end);
                lemma_can_follow_with(lib, rerun, now, end, proc);
                lemma_procedures_again(lib, next, cache, merged, rest, rerun.with(proc), now);
            },
        }
    }
}

/// What holds of procedures holds of the first and of the others.
proof fn lemma_spares_rest(lib: Catalogue, rerun: Rerun, procs: Seq<SpecProcAst>)
    requires
        procs.len() > 0,
    ensures
        rerun.spares_procs(procs) ==> {
            &&& rerun.spares(procs[0].body)
            &&& rerun.spares_procs(procs.drop_first())
        },
        lib.answers_procs(rerun.reached, procs) ==> {
            &&& lib.answers_all(rerun.reached, procs[0].body)
            &&& lib.answers_procs(rerun.reached, procs.drop_first())
        },
{
    let rest = procs.drop_first();
    assert forall|i: int| 0 <= i < rest.len() implies (#[trigger] rest[i]) == procs[i + 1] by {}
}

} // verus!
