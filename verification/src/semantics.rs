//! What it means to assemble a module or a program.
use vstd::prelude::*;

use crate::ast::{SpecInstruction, SpecModule, SpecNode, SpecProcAst, SpecProgramAst};
use crate::code_block::Mast;
use crate::error::SpecError;
use crate::felt::Felt;
use crate::hasher::Digest;
use crate::operation::Operation;
use crate::procedure::{CallSet, ProcId, ProcedureCache, ProcedureId, SpecProc};
use crate::program::SpecProgram;

verus! {

/// The modules which a module provider serves.
pub struct Catalogue {
    /// The module which is served for a procedure.
    pub lookup: spec_fn(ProcId) -> Option<SpecModule>,
    /// The paths of all modules which are served.
    pub paths: Set<Seq<char>>,
}

/// Why assembling did not come to a result.
pub enum Fault {
    /// The source is at fault.
    Error(SpecError),
    /// The catalogue is at fault: the module which it serves for a procedure does not hold that
    /// procedure, or its path is not among the paths of the catalogue.
    Stuck,
}

/// What is fixed while the body of a procedure is compiled.
#[verifier::ext_equal]
pub struct Scope {
    /// True if a kernel is compiled.
    pub in_kernel: bool,
    /// Paths of the modules which are being compiled, from the outermost to the innermost.
    pub active: Seq<Seq<char>>,
    /// The procedures of the innermost module which are compiled already.
    pub procs: Seq<SpecProc>,
}

/// What has been collected from the nodes of a body so far.
#[verifier::ext_equal]
pub struct Progress {
    /// Blocks which are complete.
    pub blocks: Seq<Mast>,
    /// Operations which follow these blocks.
    pub ops: Seq<Operation>,
    /// Procedures which are called.
    pub callset: Seq<ProcId>,
}

/// What an instruction adds to a body.
pub enum Effect {
    Op(Operation),
    Block(Mast),
}

/// How an instruction uses a procedure.
#[derive(Clone, Copy, Debug)]
pub enum Invocation {
    Exec,
    Call,
    SysCall,
}

/// The procedures which have been compiled, and a result or the reason why there is none.
pub type Outcome<T> = (Map<ProcId, SpecProc>, Result<T, Fault>);

impl Progress {
    /// The progress with its operations turned into a block.
    pub open spec fn flushed(self) -> Progress {
        if self.ops.len() == 0 {
            self
        } else {
            Progress {
                blocks: self.blocks.push(Mast::Span(self.ops)),
                ops: Seq::empty(),
                callset: self.callset,
            }
        }
    }

    /// The progress with a block put behind everything that was collected.
    pub open spec fn followed_by(self, block: Mast, callset: Seq<ProcId>) -> Progress {
        Progress { blocks: self.flushed().blocks.push(block), ops: Seq::empty(), callset }
    }

    /// The progress with `count` copies of a block put behind everything that was collected.
    pub open spec fn repeated(self, block: Mast, count: nat, callset: Seq<ProcId>) -> Progress {
        Progress {
            blocks: self.flushed().blocks + Seq::new(count, |i: int| block),
            ops: Seq::empty(),
            callset,
        }
    }

    /// What is executed one after another by the code which was collected.
    pub open spec fn atoms(self) -> Seq<Mast> {
        Mast::all_atoms(self.flushed().blocks)
    }

    /// The progress after an instruction.
    pub open spec fn after(self, effect: Effect, callset: Seq<ProcId>) -> Progress {
        match effect {
            Effect::Op(op) => Progress { blocks: self.blocks, ops: self.ops.push(op), callset },
            Effect::Block(block) => self.followed_by(block, callset),
        }
    }
}

impl SpecProc {
    /// What the use of this procedure adds to a body, and the callset of the body after it.
    pub open spec fn invoked(
        self,
        how: Invocation,
        in_kernel: bool,
        callset: Seq<ProcId>,
    ) -> Result<(Effect, Seq<ProcId>), Fault> {
        let merged = CallSet::merging(callset, self.callset);
        match how {
            Invocation::Exec => Ok((Effect::Block(self.root), merged)),
            _ if in_kernel => Err(Fault::Error(SpecError::CallInKernel(self.id))),
            Invocation::Call => Ok(
                (Effect::Block(Mast::Call(self.root.digest())), CallSet::adding(merged, self.id)),
            ),
            Invocation::SysCall => Ok(
                (
                    Effect::Block(Mast::SysCall(self.root.digest())),
                    CallSet::adding(merged, self.id),
                ),
            ),
        }
    }
}

impl SpecProcAst {
    /// The operations before the body: they reserve the memory cells of the procedure.
    #[verifier::opaque]
    pub open spec fn prologue(self) -> Seq<Operation> {
        if self.num_locals > 0 {
            seq![Operation::Push(Felt::of(self.num_locals as int)), Operation::FmpUpdate]
        } else {
            Seq::empty()
        }
    }

    /// The operations after the body: they release the memory cells of the procedure.
    #[verifier::opaque]
    pub open spec fn epilogue(self) -> Seq<Operation> {
        if self.num_locals > 0 {
            seq![Operation::Push(Felt::of(-(self.num_locals as int))), Operation::FmpUpdate]
        } else {
            Seq::empty()
        }
    }
}

impl SpecModule {
    /// True if the module has an exported procedure with the given name.
    pub open spec fn exports(self, name: Seq<char>) -> bool {
        exists|i: int|
            0 <= i < self.procs.len() && (#[trigger] self.procs[i]).is_export && self.procs[i].name
                == name
    }
}

impl Catalogue {
    /// True if the module which is served for a procedure is always the one which exports that
    /// procedure, and there are finitely many modules.
    pub open spec fn well_behaved(self) -> bool {
        &&& self.paths.finite()
        &&& forall|id: ProcId| #[trigger]
            (self.lookup)(id) matches Some(module) ==> {
                &&& self.paths.contains(module.path)
                &&& module.path == id.module
                &&& module.exports(id.name)
            }
    }

    /// The number of modules which can still be entered while those at `active` are compiled.
    pub open spec fn remaining(self, active: Seq<Seq<char>>) -> nat {
        self.paths.difference(active.to_set()).len()
    }

    /// The outcome of compiling the nodes of a body which follow those in `progress`.
    pub open spec fn nodes(
        self,
        scope: Scope,
        cache: Map<ProcId, SpecProc>,
        progress: Progress,
        nodes: Seq<SpecNode>,
    ) -> Outcome<Progress>
        decreases self.remaining(scope.active), 4nat, nodes, 0nat,
    {
        if nodes.len() == 0 {
            (cache, Ok(progress))
        } else {
            let rest = nodes.drop_first();
            match nodes[0] {
                SpecNode::Instruction(instruction) => {
                    match self.instruction(scope, cache, progress.callset, instruction) {
                        (cache, Err(fault)) => (cache, Err(fault)),
                        (cache, Ok((effect, callset))) => self.nodes(
                            scope,
                            cache,
                            progress.after(effect, callset),
                            rest,
                        ),
                    }
                },
                SpecNode::IfElse(on_true, on_false) => {
                    match self.body(
                        scope,
                        cache,
                        progress.callset,
                        Seq::empty(),
                        on_true,
                        Seq::empty(),
                    ) {
                        (cache, Err(fault)) => (cache, Err(fault)),
                        (cache, Ok((true_block, callset))) => if on_false.len() == 0 {
                            let split = Mast::Split(Box::new(true_block), Box::new(Mast::noop()));
                            self.nodes(scope, cache, progress.followed_by(split, callset), rest)
                        } else {
                            match self.body(
                                scope,
                                cache,
                                callset,
                                Seq::empty(),
                                on_false,
                                Seq::empty(),
                            ) {
                                (cache, Err(fault)) => (cache, Err(fault)),
                                (cache, Ok((false_block, callset))) => {
                                    let split = Mast::Split(
                                        Box::new(true_block),
                                        Box::new(false_block),
                                    );
                                    self.nodes(
                                        scope,
                                        cache,
                                        progress.followed_by(split, callset),
                                        rest,
                                    )
                                },
                            }
                        },
                    }
                },
                SpecNode::Repeat(count, body) => {
                    match self.body(
                        scope,
                        cache,
                        progress.callset,
                        Seq::empty(),
                        body,
                        Seq::empty(),
                    ) {
                        (cache, Err(fault)) => (cache, Err(fault)),
                        (cache, Ok((block, callset))) => self.nodes(
                            scope,
                            cache,
                            progress.repeated(block, count as nat, callset),
                            rest,
                        ),
                    }
                },
                SpecNode::While(body) => {
                    match self.body(
                        scope,
                        cache,
                        progress.callset,
                        Seq::empty(),
                        body,
                        Seq::empty(),
                    ) {
                        (cache, Err(fault)) => (cache, Err(fault)),
                        (cache, Ok((block, callset))) => self.nodes(
                            scope,
                            cache,
                            progress.followed_by(Mast::Loop(Box::new(block)), callset),
                            rest,
                        ),
                    }
                },
            }
        }
    }

    /// The outcome of compiling a body: its block, and the callset after it.
    pub open spec fn body(
        self,
        scope: Scope,
        cache: Map<ProcId, SpecProc>,
        callset: Seq<ProcId>,
        prologue: Seq<Operation>,
        nodes: Seq<SpecNode>,
        epilogue: Seq<Operation>,
    ) -> Outcome<(Mast, Seq<ProcId>)>
        decreases self.remaining(scope.active), 4nat, nodes, 1nat,
    {
        let start = Progress { blocks: Seq::empty(), ops: prologue, callset };
        Self::closed_with(self.nodes(scope, cache, start, nodes), epilogue)
    }

    /// The outcome for a body whose nodes have the given outcome and are followed by the
    /// operations in `epilogue`.
    pub open spec fn closed_with(
        outcome: Outcome<Progress>,
        epilogue: Seq<Operation>,
    ) -> Outcome<(Mast, Seq<ProcId>)> {
        match outcome {
            (cache, Err(fault)) => (cache, Err(fault)),
            (cache, Ok(progress)) => {
                let end = Progress { ops: progress.ops + epilogue, ..progress };
                (cache, Ok((Mast::combined(end.flushed().blocks), end.callset)))
            },
        }
    }

    /// The outcome of compiling an instruction: what it adds to its body, and the callset of the
    /// body after it.
    pub open spec fn instruction(
        self,
        scope: Scope,
        cache: Map<ProcId, SpecProc>,
        callset: Seq<ProcId>,
        instruction: SpecInstruction,
    ) -> Outcome<(Effect, Seq<ProcId>)>
        decreases self.remaining(scope.active), 3nat, Seq::<SpecNode>::empty(), 0nat,
    {
        match instruction {
            SpecInstruction::Add => (cache, Ok((Effect::Op(Operation::Add), callset))),
            SpecInstruction::Push(felt) => (
                cache,
                Ok((Effect::Op(Operation::Push(felt)), callset)),
            ),
            SpecInstruction::ExecLocal(index) => (
                cache,
                scope.local(index, Invocation::Exec, callset),
            ),
            SpecInstruction::CallLocal(index) => (
                cache,
                scope.local(index, Invocation::Call, callset),
            ),
            SpecInstruction::ExecImported(id) => match self.imported(scope, cache, id) {
                (cache, Err(fault)) => (cache, Err(fault)),
                (cache, Ok(proc)) => (
                    cache,
                    proc.invoked(Invocation::Exec, scope.in_kernel, callset),
                ),
            },
            SpecInstruction::CallImported(id) => match self.imported(scope, cache, id) {
                (cache, Err(fault)) => (cache, Err(fault)),
                (cache, Ok(proc)) => (
                    cache,
                    proc.invoked(Invocation::Call, scope.in_kernel, callset),
                ),
            },
            SpecInstruction::SysCall(name) => {
                let id = ProcId { module: ProcedureId::KERNEL_PATH@, name };
                if cache.contains_key(id) {
                    (cache, cache[id].invoked(Invocation::SysCall, scope.in_kernel, callset))
                } else {
                    (cache, Err(Fault::Error(SpecError::UndefinedKernelProc(name))))
                }
            },
        }
    }

    /// The outcome of looking for a procedure of another module: it is in the cache already, or
    /// its module is compiled first.
    pub open spec fn imported(
        self,
        scope: Scope,
        cache: Map<ProcId, SpecProc>,
        id: ProcId,
    ) -> Outcome<SpecProc>
        decreases self.remaining(scope.active), 2nat, Seq::<SpecNode>::empty(), 0nat,
    {
        if cache.contains_key(id) {
            (cache, Ok(cache[id]))
        } else {
            match (self.lookup)(id) {
                None => (cache, Err(Fault::Error(SpecError::UndefinedImportedProc(id)))),
                Some(module) => if !scope.active.contains(module.path) && !(self.paths.finite()
                    && self.paths.contains(module.path)) {
                    (cache, Err(Fault::Stuck))
                } else {
                    proof {
                        self.lemma_remaining(scope.active, module.path);
                    }
                    match self.module(
                        scope.in_kernel,
                        scope.active,
                        cache,
                        module.path,
                        module.procs,
                    ) {
                        (cache, Err(fault)) => (cache, Err(fault)),
                        (cache, Ok(_)) => if cache.contains_key(id) {
                            (cache, Ok(cache[id]))
                        } else {
                            (cache, Err(Fault::Stuck))
                        },
                    }
                },
            }
        }
    }

    /// The outcome of compiling a module: its procedures, with those which other modules can
    /// reach put into the cache.
    pub open spec fn module(
        self,
        in_kernel: bool,
        active: Seq<Seq<char>>,
        cache: Map<ProcId, SpecProc>,
        path: Seq<char>,
        procs: Seq<SpecProcAst>,
    ) -> Outcome<Seq<SpecProc>>
        decreases
                if active.contains(path) {
                    self.remaining(active)
                } else {
                    self.remaining(active.push(path))
                },
                if active.contains(path) {
                    1nat
                } else {
                    7nat
                },
                Seq::<SpecNode>::empty(),
                0nat,
    {
        if active.contains(path) {
            (cache, Err(Fault::Error(SpecError::CircularModuleDependency(path))))
        } else {
            let scope = Scope { in_kernel, active: active.push(path), procs: Seq::empty() };
            match self.procedures(scope, cache, Seq::empty(), procs) {
                (cache, Err(fault)) => (cache, Err(fault)),
                (cache, Ok((compiled, callset))) => (
                    Self::published(cache, compiled, callset),
                    Ok(compiled),
                ),
            }
        }
    }

    /// The outcome of compiling the procedures of a module which follow those in `scope`: all
    /// procedures of the module, and their combined callset.
    pub open spec fn procedures(
        self,
        scope: Scope,
        cache: Map<ProcId, SpecProc>,
        callset: Seq<ProcId>,
        procs: Seq<SpecProcAst>,
    ) -> Outcome<(Seq<SpecProc>, Seq<ProcId>)>
        decreases self.remaining(scope.active), 6nat, Seq::<SpecNode>::empty(), procs.len(),
    {
        if procs.len() == 0 {
            (cache, Ok((scope.procs, callset)))
        } else {
            match self.procedure(scope, cache, procs[0]) {
                (cache, Err(fault)) => (cache, Err(fault)),
                (cache, Ok(proc)) => self.procedures(
                    scope.with(proc),
                    cache,
                    CallSet::merging(callset, proc.callset),
                    procs.drop_first(),
                ),
            }
        }
    }

    /// The outcome of compiling a procedure.
    pub open spec fn procedure(
        self,
        scope: Scope,
        cache: Map<ProcId, SpecProc>,
        proc: SpecProcAst,
    ) -> Outcome<SpecProc>
        decreases self.remaining(scope.active), 5nat, Seq::<SpecNode>::empty(), 0nat,
    {
        let id = ProcId { module: scope.active.last(), name: proc.name };
        if scope.defines(id) {
            (cache, Err(Fault::Error(SpecError::DuplicateProcName(proc.name))))
        } else {
            match self.body(
                scope,
                cache,
                Seq::empty(),
                proc.prologue(),
                proc.body,
                proc.epilogue(),
            ) {
                (cache, Err(fault)) => (cache, Err(fault)),
                (cache, Ok((root, callset))) => (
                    cache,
                    Ok(
                        SpecProc {
                            id,
                            is_export: proc.is_export,
                            num_locals: (proc.num_locals as int % 0x1_0000) as u16,
                            root,
                            callset,
                        },
                    ),
                ),
            }
        }
    }

    /// The cache with those procedures of a module added which are exported or called.
    pub open spec fn published(
        cache: Map<ProcId, SpecProc>,
        procs: Seq<SpecProc>,
        callset: Seq<ProcId>,
    ) -> Map<ProcId, SpecProc>
        decreases procs.len(),
    {
        if procs.len() == 0 {
            cache
        } else {
            let proc = procs.last();
            let before = Self::published(cache, procs.drop_last(), callset);
            if proc.is_export || callset.contains(proc.id) {
                before.insert(proc.id, proc)
            } else {
                before
            }
        }
    }

    /// The outcome of compiling the procedures of a program which follow those in `scope`: all
    /// procedures of the program, and their combined callset.
    #[verifier::opaque]
    pub open spec fn program_procedures(
        self,
        scope: Scope,
        cache: Map<ProcId, SpecProc>,
        callset: Seq<ProcId>,
        procs: Seq<SpecProcAst>,
    ) -> Outcome<(Seq<SpecProc>, Seq<ProcId>)>
        decreases procs.len(),
    {
        if procs.len() == 0 {
            (cache, Ok((scope.procs, callset)))
        } else if procs[0].is_export {
            (cache, Err(Fault::Error(SpecError::ProcExportInProgram(procs[0].name))))
        } else {
            match self.procedure(scope, cache, procs[0]) {
                (cache, Err(fault)) => (cache, Err(fault)),
                (cache, Ok(proc)) => self.program_procedures(
                    scope.with(proc),
                    cache,
                    CallSet::merging(callset, proc.callset),
                    procs.drop_first(),
                ),
            }
        }
    }

    /// How the outcome for the procedures of a program depends on the first of them.
    pub proof fn lemma_program_procedures(
        self,
        scope: Scope,
        cache: Map<ProcId, SpecProc>,
        callset: Seq<ProcId>,
        procs: Seq<SpecProcAst>,
    )
        ensures
            self.program_procedures(scope, cache, callset, procs) == (if procs.len() == 0 {
                (cache, Ok((scope.procs, callset)))
            } else if procs[0].is_export {
                (cache, Err(Fault::Error(SpecError::ProcExportInProgram(procs[0].name))))
            } else {
                match self.procedure(scope, cache, procs[0]) {
                    (cache, Err(fault)) => (cache, Err(fault)),
                    (cache, Ok(proc)) => self.program_procedures(
                        scope.with(proc),
                        cache,
                        CallSet::merging(callset, proc.callset),
                        procs.drop_first(),
                    ),
                }
            }),
    {
        reveal_with_fuel(Catalogue::program_procedures, 2);
    }

    /// The outcome of compiling a program for the given kernel.
    pub open spec fn program(
        self,
        cache: Map<ProcId, SpecProc>,
        kernel: Seq<Digest>,
        program: SpecProgramAst,
    ) -> Outcome<SpecProgram> {
        match self.program_procedures(Scope::of_program(), cache, Seq::empty(), program.procs) {
            (cache, Err(fault)) => (cache, Err(fault)),
            (cache, Ok((procs, callset))) => {
                let scope = Scope { procs, ..Scope::of_program() };
                match self.body(
                    scope,
                    cache,
                    Seq::empty(),
                    Seq::empty(),
                    program.body,
                    Seq::empty(),
                ) {
                    (cache, Err(fault)) => (cache, Err(fault)),
                    (cache, Ok((root, main_callset))) => {
                        let called = CallSet::merging(callset, main_callset);
                        let table = Self::table(scope.known(cache), called);
                        (cache, Ok(SpecProgram { root, kernel, table }))
                    },
                }
            },
        }
    }

    /// The outcome of compiling a kernel: the digests of the procedures which it exports.
    pub open spec fn kernel(
        self,
        cache: Map<ProcId, SpecProc>,
        procs: Seq<SpecProcAst>,
    ) -> Outcome<Seq<Digest>> {
        match self.module(true, Seq::empty(), cache, ProcedureId::KERNEL_PATH@, procs) {
            (cache, Err(fault)) => (cache, Err(fault)),
            (cache, Ok(compiled)) => (cache, Ok(Self::exported_digests(compiled))),
        }
    }

    /// The digests of the exported procedures, in order.
    pub open spec fn exported_digests(procs: Seq<SpecProc>) -> Seq<Digest>
        decreases procs.len(),
    {
        if procs.len() == 0 {
            Seq::empty()
        } else {
            let before = Self::exported_digests(procs.drop_last());
            if procs.last().is_export {
                before.push(procs.last().root.digest())
            } else {
                before
            }
        }
    }

    /// The code of the procedures in a callset, by digest.
    pub open spec fn table(
        known: Map<ProcId, SpecProc>,
        callset: Seq<ProcId>,
    ) -> Map<Digest, Mast>
        decreases callset.len(),
    {
        if callset.len() == 0 {
            Map::empty()
        } else {
            let before = Self::table(known, callset.drop_last());
            let id = callset.last();
            if known.contains_key(id) {
                before.insert(known[id].root.digest(), known[id].root)
            } else {
                before
            }
        }
    }

    /// Entering a module which is served and not yet active leaves fewer modules to enter.
    pub proof fn lemma_remaining(self, active: Seq<Seq<char>>, path: Seq<char>)
        ensures
            self.paths.finite() && self.paths.contains(path) && !active.contains(path)
                ==> self.remaining(active.push(path)) < self.remaining(active),
    {
        if self.paths.finite() && self.paths.contains(path) && !active.contains(path) {
            let before = self.paths.difference(active.to_set());
            let after = self.paths.difference(active.push(path).to_set());
            assert(active.push(path).contains(path)) by {
                assert(active.push(path)[active.len() as int] == path);
            }
            assert(after =~= before.remove(path)) by {
                assert forall|p: Seq<char>| active.push(path).contains(p) == (active.contains(p)
                    || p == path) by {
                    if active.contains(p) {
                        let i = choose|i: int| 0 <= i < active.len() && active[i] == p;
                        assert(active.push(path)[i] == p);
                    }
                }
            }
            assert(before.contains(path));
            assert(before.finite());
        }
    }
}

impl Scope {
    /// The scope in which the first procedure of a program is compiled.
    pub open spec fn of_program() -> Scope {
        Scope {
            in_kernel: false,
            active: seq![ProcedureId::PROGRAM_PATH@],
            procs: Seq::empty(),
        }
    }

    /// The procedures which a body in this scope can refer to.
    pub open spec fn known(self, cache: Map<ProcId, SpecProc>) -> Map<ProcId, SpecProc> {
        cache.union_prefer_right(ProcedureCache::map_of(self.procs))
    }

    /// True if the innermost module has a procedure with the given identifier already.
    pub open spec fn defines(self, id: ProcId) -> bool {
        exists|i: int| 0 <= i < self.procs.len() && (#[trigger] self.procs[i]).id == id
    }

    /// The scope after a procedure has been compiled.
    pub open spec fn with(self, proc: SpecProc) -> Scope {
        Scope { procs: self.procs.push(proc), ..self }
    }

    /// What the use of a procedure of the innermost module adds to a body.
    pub open spec fn local(
        self,
        index: u16,
        how: Invocation,
        callset: Seq<ProcId>,
    ) -> Result<(Effect, Seq<ProcId>), Fault> {
        if index < self.procs.len() {
            self.procs[index as int].invoked(how, self.in_kernel, callset)
        } else {
            Err(Fault::Error(SpecError::UndefinedLocalProc(index)))
        }
    }
}

} // verus!
