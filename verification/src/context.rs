//! State of the assembler while it compiles a program or a kernel.
use vstd::prelude::*;

use crate::code_block::CodeBlock;
use crate::error::{AssemblerError, SpecError};
use crate::hasher::Digest;
use crate::procedure::{CallSet, ProcId, Procedure, ProcedureCache, ProcedureId, SpecProc};
use crate::program::{CodeBlockTable, Kernel};
use crate::semantics::{Catalogue, Effect, Fault, Invocation, Scope};

verus! {

/// Model of a procedure which is being compiled.
#[verifier::ext_equal]
pub(crate) struct SpecProcContext {
    pub(crate) name: Seq<char>,
    pub(crate) is_export: bool,
    pub(crate) num_locals: u16,
    pub(crate) callset: Seq<ProcId>,
}

/// Model of a module which is being compiled.
#[verifier::ext_equal]
pub(crate) struct SpecModuleContext {
    pub(crate) path: Seq<char>,
    pub(crate) procs: Seq<SpecProc>,
    pub(crate) callset: Seq<ProcId>,
    pub(crate) stack: Seq<SpecProcContext>,
}

/// Model of the state of the assembler.
#[verifier::ext_equal]
pub(crate) struct SpecContext {
    pub(crate) modules: Seq<SpecModuleContext>,
    pub(crate) is_kernel: bool,
    pub(crate) kernel: Option<Seq<Digest>>,
}

impl SpecModuleContext {
    /// The module with the callset of its innermost procedure replaced.
    pub(crate) open spec fn with_callset(self, callset: Seq<ProcId>) -> SpecModuleContext {
        let current = SpecProcContext { callset, ..self.stack.last() };
        SpecModuleContext { stack: self.stack.drop_last().push(current), ..self }
    }
}

impl SpecContext {
    /// True if some module is being compiled.
    pub(crate) open spec fn in_module(self) -> bool {
        self.modules.len() > 0
    }

    /// True if the body of some procedure is being compiled.
    pub(crate) open spec fn in_proc(self) -> bool {
        self.in_module() && self.modules.last().stack.len() > 0
    }

    /// The paths of the modules which are being compiled.
    pub(crate) open spec fn active(self) -> Seq<Seq<char>> {
        Seq::new(self.modules.len(), |i: int| self.modules[i].path)
    }

    /// The scope of the body which is being compiled.
    pub(crate) open spec fn scope(self) -> Scope {
        Scope {
            in_kernel: self.is_kernel,
            active: self.active(),
            procs: self.modules.last().procs,
        }
    }

    /// The procedures which the body that is being compiled calls.
    pub(crate) open spec fn callset(self) -> Seq<ProcId> {
        self.modules.last().stack.last().callset
    }

    /// The context with its innermost module replaced.
    pub(crate) open spec fn with_module(self, module: SpecModuleContext) -> SpecContext {
        SpecContext { modules: self.modules.drop_last().push(module), ..self }
    }

    /// The context with the callset of its innermost procedure replaced.
    pub(crate) open spec fn with_callset(self, callset: Seq<ProcId>) -> SpecContext {
        self.with_module(self.modules.last().with_callset(callset))
    }

    /// The context after the body of its innermost procedure has been compiled.
    pub(crate) open spec fn with_proc(self, proc: SpecProc) -> SpecContext {
        let module = self.modules.last();
        self.with_module(
            SpecModuleContext {
                path: module.path,
                procs: module.procs.push(proc),
                callset: CallSet::merging(module.callset, proc.callset),
                stack: module.stack,
            },
        )
    }

    /// The context after a module has been compiled with the given procedures.
    pub(crate) open spec fn after_module(self, procs: Seq<SpecProc>) -> SpecContext {
        if self.is_kernel && self.modules.len() == 0 {
            SpecContext { kernel: Some(Catalogue::exported_digests(procs)), ..self }
        } else {
            self
        }
    }

    /// True if all modules which were in progress are as they were in the other context, with
    /// others on top of them where the compilation of one failed.
    pub(crate) open spec fn extends(self, other: SpecContext) -> bool {
        &&& self.is_kernel == other.is_kernel
        &&& self.kernel == other.kernel
        &&& self.modules.len() >= other.modules.len()
        &&& self.modules.take(other.modules.len() as int) == other.modules
    }

    /// True if all modules which were in progress are as they were in the other context, except
    /// for the procedures in progress in the innermost one, with others on top of them where the
    /// compilation of one failed.
    pub(crate) open spec fn keeps(self, other: SpecContext) -> bool {
        let last = other.modules.len() - 1;
        &&& self.is_kernel == other.is_kernel
        &&& self.kernel == other.kernel
        &&& self.modules.len() >= other.modules.len()
        &&& self.modules.take(last) == other.modules.drop_last()
        &&& self.modules[last].path == other.modules[last].path
        &&& self.modules[last].procs == other.modules[last].procs
        &&& self.modules[last].callset == other.modules[last].callset
    }

    /// In a context, all modules are as they are there.
    pub(crate) proof fn lemma_extends_itself(self)
        ensures
            self.extends(self),
    {
        assert(self.modules.take(self.modules.len() as int) =~= self.modules);
    }

    /// A context in which all modules are as they were has kept them also for a context which
    /// differed from it in the procedures in progress.
    pub(crate) proof fn lemma_keeps(self, middle: SpecContext, other: SpecContext)
        requires
            other.in_module(),
            self.keeps(middle) || self.extends(middle),
            middle.modules.len() == other.modules.len(),
            middle.keeps(other),
        ensures
            self.keeps(other),
    {
        let n = other.modules.len() as int;
        assert(self.modules.take(n - 1) =~= middle.modules.take(n - 1)) by {
            if self.extends(middle) {
                assert(self.modules.take(n).take(n - 1) =~= self.modules.take(n - 1));
            } else {
                assert(middle.modules.drop_last() =~= middle.modules.take(n - 1));
            }
        }
        if self.extends(middle) {
            assert(self.modules.take(n)[n - 1] == self.modules[n - 1]);
        }
    }

    /// The context with a procedure started in its innermost module.
    pub(crate) open spec fn with_started(self, proc: SpecProcContext) -> SpecContext {
        let module = self.modules.last();
        self.with_module(SpecModuleContext { stack: module.stack.push(proc), ..module })
    }

    /// The context with the innermost procedure of its innermost module taken away.
    pub(crate) open spec fn with_ended(self) -> SpecContext {
        let module = self.modules.last();
        self.with_module(SpecModuleContext { stack: module.stack.drop_last(), ..module })
    }

    /// Starting a procedure leaves the scope as it is, and ending it brings the context back.
    pub(crate) proof fn lemma_started(self, proc: SpecProcContext)
        requires
            self.in_module(),
        ensures
            self.with_started(proc).in_proc(),
            self.with_started(proc).scope() == self.scope(),
            self.with_started(proc).callset() == proc.callset,
            self.active().last() == self.modules.last().path,
            forall|callset: Seq<ProcId>| #[trigger]
                self.with_started(proc).with_callset(callset).with_ended() == self,
            self.with_started(proc).keeps(self),
            self.with_started(proc).modules.len() == self.modules.len(),
    {
        let started = self.with_started(proc);
        assert(started.modules.take(self.modules.len() - 1) =~= self.modules.drop_last());
        assert(started.active() =~= self.active());
        assert forall|callset: Seq<ProcId>| #[trigger]
            started.with_callset(callset).with_ended() == self by {
            let ended = started.with_callset(callset).with_ended();
            assert(ended.modules.last().stack =~= self.modules.last().stack);
            assert(ended.modules =~= self.modules);
        }
    }

    /// Adding a procedure to the innermost module changes the scope by that procedure.
    pub(crate) proof fn lemma_with_proc(self, proc: SpecProc)
        requires
            self.in_module(),
        ensures
            self.with_proc(proc).in_module(),
            self.with_proc(proc).scope() == self.scope().with(proc),
            self.with_proc(proc).modules.drop_last() == self.modules.drop_last(),
            self.with_proc(proc).modules.last().stack == self.modules.last().stack,
            self.with_proc(proc).modules.last().callset == CallSet::merging(
                self.modules.last().callset,
                proc.callset,
            ),
    {
        assert(self.with_proc(proc).active() =~= self.active());
        assert(self.with_proc(proc).modules.drop_last() =~= self.modules.drop_last());
    }

    /// Replacing the callset changes nothing else.
    pub(crate) proof fn lemma_with_callset(self, callset: Seq<ProcId>)
        requires
            self.in_proc(),
        ensures
            self.with_callset(callset).in_proc(),
            self.with_callset(callset).scope() == self.scope(),
            self.with_callset(callset).callset() == callset,
            self.with_callset(self.callset()) == self,
            forall|other: Seq<ProcId>| #[trigger]
                self.with_callset(callset).with_callset(other) == self.with_callset(other),
            self.with_callset(callset).keeps(self),
            self.with_callset(callset).modules.len() == self.modules.len(),
    {
        assert(self.with_callset(callset).modules.take(self.modules.len() - 1)
            =~= self.modules.drop_last());
        assert(self.with_callset(callset).scope() =~= self.scope()) by {
            assert(self.with_callset(callset).active() =~= self.active());
        }
        assert(self.with_callset(self.callset()).modules =~= self.modules) by {
            let module = self.modules.last();
            assert(module.with_callset(self.callset()).stack =~= module.stack);
        }
        assert forall|other: Seq<ProcId>| #[trigger]
            self.with_callset(callset).with_callset(other) == self.with_callset(other) by {
            let module = self.modules.last();
            assert(module.with_callset(callset).with_callset(other).stack =~= module.with_callset(
                other,
            ).stack);
            assert(self.with_callset(callset).with_callset(other).modules =~= self.with_callset(
                other,
            ).modules);
        }
    }
}

/// A procedure which is being compiled.
struct ProcedureContext {
    name: String,
    is_export: bool,
    num_locals: u16,
    callset: CallSet,
}

impl View for ProcedureContext {
    type V = SpecProcContext;

    closed spec fn view(&self) -> SpecProcContext {
        SpecProcContext {
            name: self.name@,
            is_export: self.is_export,
            num_locals: self.num_locals,
            callset: self.callset@,
        }
    }
}

/// A module which is being compiled.
struct ModuleContext {
    path: String,
    procs: Vec<Procedure>,
    callset: CallSet,
    stack: Vec<ProcedureContext>,
}

impl View for ModuleContext {
    type V = SpecModuleContext;

    closed spec fn view(&self) -> SpecModuleContext {
        SpecModuleContext {
            path: self.path@,
            procs: Procedure::models(self.procs@),
            callset: self.callset@,
            stack: Seq::new(self.stack@.len(), |i: int| self.stack@[i]@),
        }
    }
}

/// The modules which are being compiled, from the outermost to the innermost, and the kernel once
/// it is complete.
pub(crate) struct AssemblyContext {
    modules: Vec<ModuleContext>,
    is_kernel: bool,
    kernel: Option<Kernel>,
}

impl View for AssemblyContext {
    type V = SpecContext;

    closed spec fn view(&self) -> SpecContext {
        SpecContext {
            modules: Seq::new(self.modules@.len(), |i: int| self.modules@[i]@),
            is_kernel: self.is_kernel,
            kernel: match self.kernel {
                Some(kernel) => Some(kernel@),
                None => None,
            },
        }
    }
}

impl AssemblyContext {
    /// Returns the context in which the compilation of a kernel or of a program starts. A program
    /// has a module for its procedures, and its main procedure is being compiled.
    pub(crate) fn new(is_kernel: bool) -> (r: AssemblyContext)
        ensures
            r@.is_kernel == is_kernel,
            r@.kernel is None,
            is_kernel ==> r@.modules.len() == 0,
            !is_kernel ==> {
                &&& r@.modules.len() == 1
                &&& r@.modules[0].stack.len() == 1
                &&& r@.modules[0].callset.len() == 0
                &&& r@.callset().len() == 0
                &&& r@.scope() == Scope::of_program()
            },
    {
        let mut modules: Vec<ModuleContext> = Vec::new();
        if !is_kernel {
            let main = ProcedureContext {
                name: String::new(),
                is_export: false,
                num_locals: 0,
                callset: CallSet::new(),
            };
            let mut stack: Vec<ProcedureContext> = Vec::new();
            stack.push(main);
            let module = ModuleContext {
                path: ProcedureId::PROGRAM_PATH.to_owned(),
                procs: Vec::new(),
                callset: CallSet::new(),
                stack,
            };
            modules.push(module);
        }
        let r = AssemblyContext { modules, is_kernel, kernel: None };
        assert(!is_kernel ==> r@.scope() =~= Scope::of_program());
        r
    }

    /// Starts the compilation of the module at the given path, unless it is being compiled
    /// already.
    pub(crate) fn begin_module(&mut self, path: &str) -> (r: Result<(), AssemblerError>)
        ensures
            r matches Err(e) ==> old(self)@.active().contains(path@) && e@
                == SpecError::CircularModuleDependency(path@) && final(self)@ == old(self)@,
            r is Ok ==> {
                &&& !old(self)@.active().contains(path@)
                &&& final(self)@ == (SpecContext {
                    modules: old(self)@.modules.push(
                        SpecModuleContext {
                            path: path@,
                            procs: Seq::empty(),
                            callset: Seq::empty(),
                            stack: Seq::empty(),
                        },
                    ),
                    ..old(self)@
                })
            },
    {
        let owned = path.to_owned();
        let mut i: usize = 0;
        while i < self.modules.len()
            invariant
                i <= self.modules.len(),
                *self == *old(self),
                owned@ == path@,
                forall|j: int| 0 <= j < i ==> #[trigger] self@.active()[j] != path@,
            decreases self.modules.len() - i,
        {
            if self.modules[i].path == owned {
                assert(self@.active()[i as int] == path@);
                return Err(AssemblerError::CircularModuleDependency(owned));
            }
            i = i + 1;
        }
        let module = ModuleContext {
            path: owned,
            procs: Vec::new(),
            callset: CallSet::new(),
            stack: Vec::new(),
        };
        let ghost model = module@;
        assert(model.procs =~= Seq::empty());
        assert(model.stack =~= Seq::empty());
        self.modules.push(module);
        assert(self@.modules =~= old(self)@.modules.push(model));
        Ok(())
    }

    /// Ends the compilation of the innermost module, and returns its procedures and their
    /// combined callset. The first module of a kernel is the kernel.
    pub(crate) fn complete_module(&mut self) -> (r: (Vec<Procedure>, CallSet))
        requires
            old(self)@.in_module(),
        ensures
            Procedure::models(r.0@) == old(self)@.modules.last().procs,
            r.1@ == old(self)@.modules.last().callset,
            final(self)@ == (SpecContext {
                modules: old(self)@.modules.drop_last(),
                ..old(self)@
            }).after_module(old(self)@.modules.last().procs),
    {
        let module = self.modules.pop().unwrap();
        assert(self@.modules =~= old(self)@.modules.drop_last());
        if self.is_kernel && self.modules.len() == 0 {
            let mut hashes: Vec<Digest> = Vec::new();
            let mut i: usize = 0;
            let ghost procs = Procedure::models(module.procs@);
            assert(procs.take(0) =~= Seq::<SpecProc>::empty());
            while i < module.procs.len()
                invariant
                    i <= module.procs.len(),
                    procs == Procedure::models(module.procs@),
                    hashes@ == Catalogue::exported_digests(procs.take(i as int)),
                decreases module.procs.len() - i,
            {
                assert(procs.take(i + 1).drop_last() =~= procs.take(i as int));
                if module.procs[i].is_export() {
                    hashes.push(module.procs[i].code_root().hash());
                }
                i = i + 1;
            }
            assert(procs.take(i as int) =~= procs);
            self.kernel = Some(Kernel::new(hashes));
        }
        (module.procs, module.callset)
    }

    /// Starts the compilation of a procedure of the innermost module, unless the module has a
    /// procedure of that name already.
    pub(crate) fn begin_proc(&mut self, name: &str, is_export: bool, num_locals: u16) -> (r: Result<
        (),
        AssemblerError,
    >)
        requires
            old(self)@.in_module(),
        ensures
            r matches Err(e) ==> {
                &&& old(self)@.scope().defines(
                    ProcId { module: old(self)@.modules.last().path, name: name@ },
                )
                &&& e@ == SpecError::DuplicateProcName(name@)
                &&& final(self)@ == old(self)@
            },
            r is Ok ==> {
                &&& !old(self)@.scope().defines(
                    ProcId { module: old(self)@.modules.last().path, name: name@ },
                )
                &&& final(self)@ == old(self)@.with_started(
                    SpecProcContext { name: name@, is_export, num_locals, callset: Seq::empty() },
                )
            },
    {
        let mut module = self.modules.pop().unwrap();
        let ghost model = module@;
        assert(model == old(self)@.modules.last());
        let id = ProcedureId::new(module.path.as_str(), name);
        let mut found: bool = false;
        let mut i: usize = 0;
        while i < module.procs.len()
            invariant
                i <= module.procs.len(),
                model == module@,
                found == exists|j: int| 0 <= j < i && (#[trigger] model.procs[j]).id == id@,
            decreases module.procs.len() - i,
        {
            if module.procs[i].id().same(&id) {
                found = true;
            }
            assert(module.procs@[i as int]@ == model.procs[i as int]);
            i = i + 1;
        }
        if found {
            self.modules.push(module);
            assert(self@.modules =~= old(self)@.modules);
            return Err(AssemblerError::DuplicateProcName(name.to_owned()));
        }
        let current = ProcedureContext {
            name: name.to_owned(),
            is_export,
            num_locals,
            callset: CallSet::new(),
        };
        let ghost current_model = current@;
        module.stack.push(current);
        assert(module@.stack =~= model.stack.push(current_model));
        self.modules.push(module);
        assert(self@.modules =~= old(self)@.modules.drop_last().push(module@));
        Ok(())
    }

    /// Ends the compilation of the innermost procedure with the given code.
    pub(crate) fn complete_proc(&mut self, code_root: CodeBlock)
        requires
            old(self)@.in_proc(),
        ensures
            final(self)@ == old(self)@.with_ended().with_proc(
                SpecProc {
                    id: ProcId {
                        module: old(self)@.modules.last().path,
                        name: old(self)@.modules.last().stack.last().name,
                    },
                    is_export: old(self)@.modules.last().stack.last().is_export,
                    num_locals: old(self)@.modules.last().stack.last().num_locals,
                    root: code_root@,
                    callset: old(self)@.callset(),
                },
            ),
    {
        let mut module = self.modules.pop().unwrap();
        let ghost model = module@;
        let current = module.stack.pop().unwrap();
        assert(module@.stack =~= model.stack.drop_last());
        let id = ProcedureId::new(module.path.as_str(), current.name.as_str());
        module.callset.append(&current.callset);
        let proc = Procedure::new(
            id,
            current.is_export,
            current.num_locals,
            code_root,
            current.callset,
        );
        let ghost proc_model = proc@;
        module.procs.push(proc);
        assert(module@.procs =~= model.procs.push(proc_model));
        let ghost done = module@;
        self.modules.push(module);
        assert(self@.modules =~= old(self)@.modules.drop_last().push(done));
        assert(self@.modules =~= old(self)@.with_ended().with_proc(proc_model).modules);
    }

    /// Returns the block by which the body that is being compiled uses the procedure, and adds
    /// to the callset of the body what is called by it.
    pub(crate) fn invoke(&mut self, proc: &Procedure, how: Invocation) -> (r: Result<
        CodeBlock,
        AssemblerError,
    >)
        requires
            old(self)@.in_proc(),
        ensures
            match proc@.invoked(how, old(self)@.is_kernel, old(self)@.callset()) {
                Ok((effect, callset)) => {
                    &&& r is Ok
                    &&& effect == Effect::Block(r->Ok_0@)
                    &&& final(self)@ == old(self)@.with_callset(callset)
                },
                Err(fault) => {
                    &&& r is Err
                    &&& fault == Fault::Error(r->Err_0@)
                    &&& final(self)@ == old(self)@
                },
            },
    {
        match how {
            Invocation::Exec => {},
            _ => {
                if self.is_kernel {
                    return Err(AssemblerError::CallInKernel(proc.id().clone()));
                }
            },
        }
        let mut module = self.modules.pop().unwrap();
        let ghost model = module@;
        let mut current = module.stack.pop().unwrap();
        current.callset.append(proc.callset());
        let block = match how {
            Invocation::Exec => proc.code_root().clone(),
            Invocation::Call => {
                current.callset.insert(proc.id());
                CodeBlock::new_call(proc.code_root().hash())
            },
            Invocation::SysCall => {
                current.callset.insert(proc.id());
                CodeBlock::new_syscall(proc.code_root().hash())
            },
        };
        let ghost callset = current.callset@;
        module.stack.push(current);
        assert(module@.stack =~= model.with_callset(callset).stack);
        self.modules.push(module);
        assert(self@.modules =~= old(self)@.with_callset(callset).modules);
        Ok(block)
    }

    /// Returns the block by which the body that is being compiled uses the procedure of its
    /// module at the given position, and adds to the callset of the body what is called by it.
    pub(crate) fn invoke_local(&mut self, index: u16, how: Invocation) -> (r: Result<
        CodeBlock,
        AssemblerError,
    >)
        requires
            old(self)@.in_proc(),
        ensures
            match old(self)@.scope().local(index, how, old(self)@.callset()) {
                Ok((effect, callset)) => {
                    &&& r is Ok
                    &&& effect == Effect::Block(r->Ok_0@)
                    &&& final(self)@ == old(self)@.with_callset(callset)
                },
                Err(fault) => {
                    &&& r is Err
                    &&& fault == Fault::Error(r->Err_0@)
                    &&& final(self)@ == old(self)@
                },
            },
    {
        let last = self.modules.len() - 1;
        if index as usize >= self.modules[last].procs.len() {
            return Err(AssemblerError::UndefinedLocalProc(index));
        }
        let proc = self.modules[last].procs[index as usize].clone();
        assert(proc@ == self@.scope().procs[index as int]);
        self.invoke(&proc, how)
    }

    /// Returns the code of the procedures which the program calls.
    pub(crate) fn into_cb_table(self, cache: &ProcedureCache) -> (r: CodeBlockTable)
        requires
            self@.modules.len() == 1,
            self@.modules[0].stack.len() == 1,
        ensures
            r@ == Catalogue::table(
                self@.scope().known(cache@),
                CallSet::merging(self@.modules[0].callset, self@.callset()),
            ),
    {
        let ghost model = self@;
        let mut context = self;
        let mut module = context.modules.pop().unwrap();
        let main = module.stack.pop().unwrap();
        module.callset.append(&main.callset);
        let callset = module.callset;
        let procs = module.procs;
        let ghost known = model.scope().known(cache@);
        assert(Procedure::models(procs@) == model.scope().procs);
        let mut table = CodeBlockTable::new();
        let mut i: usize = 0;
        assert(callset@.take(0) =~= Seq::<ProcId>::empty());
        while i < callset.len()
            invariant
                i <= callset@.len(),
                known == model.scope().known(cache@),
                Procedure::models(procs@) == model.scope().procs,
                table@ == Catalogue::table(known, callset@.take(i as int)),
            decreases callset@.len() - i,
        {
            let id = callset.get(i);
            assert(callset@.take(i + 1).drop_last() =~= callset@.take(i as int));
            match find_proc(&procs, id) {
                Some(proc) => {
                    table.insert(proc.code_root().clone());
                },
                None => {
                    match cache.get(id) {
                        Some(proc) => {
                            table.insert(proc.code_root().clone());
                        },
                        None => {},
                    }
                },
            }
            i = i + 1;
        }
        assert(callset@.take(i as int) =~= callset@);
        table
    }

    /// Returns the kernel.
    pub(crate) fn into_kernel(self) -> (r: Kernel)
        requires
            self@.kernel is Some,
        ensures
            Some(r@) == self@.kernel,
    {
        self.kernel.unwrap()
    }
}

/// Returns the last of the procedures with the given identifier.
fn find_proc<'a>(procs: &'a Vec<Procedure>, id: &ProcedureId) -> (r: Option<&'a Procedure>)
    ensures
        r matches Some(proc) ==> {
            &&& ProcedureCache::map_of(Procedure::models(procs@)).contains_key(id@)
            &&& ProcedureCache::map_of(Procedure::models(procs@))[id@] == proc@
        },
        r is None ==> !ProcedureCache::map_of(Procedure::models(procs@)).contains_key(id@),
{
    let ghost models = Procedure::models(procs@);
    let mut i: usize = procs.len();
    assert(models.take(i as int) =~= models);
    while i > 0
        invariant
            i <= procs.len(),
            models == Procedure::models(procs@),
            ProcedureCache::map_of(models).contains_key(id@) == ProcedureCache::map_of(
                models.take(i as int),
            ).contains_key(id@),
            ProcedureCache::map_of(models).contains_key(id@) ==> ProcedureCache::map_of(models)[id@]
                == ProcedureCache::map_of(models.take(i as int))[id@],
        decreases i,
    {
        assert(models.take(i as int).drop_last() =~= models.take(i - 1));
        if procs[i - 1].id().same(id) {
            return Some(&procs[i - 1]);
        }
        i = i - 1;
    }
    None
}

} // verus!
