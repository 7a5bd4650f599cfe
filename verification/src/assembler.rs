//! The assembler.
use vstd::prelude::*;

use crate::ast::{
    Instruction, ModuleAst, Node, ProcedureAst, ProgramAst, SpecNode, SpecProcAst,
};
use crate::code_block::{CodeBlock, Mast};
use crate::combine::combine_blocks;
use crate::context::{AssemblyContext, SpecContext, SpecProcContext};
use crate::error::{AssemblerError, SpecError};
use crate::felt::Felt;
use crate::hasher::Digest;
use crate::operation::Operation;
use crate::procedure::{ProcId, Procedure, ProcedureCache, ProcedureId, SpecProc};
use crate::parsers::parser::SpecReader;
use crate::parsers::{parse_module, parse_program};
use crate::program::{Kernel, Program, SpecProgram};
use crate::provider::ModuleProvider;
use crate::semantics::{Catalogue, Effect, Fault, Invocation, Outcome, Progress, Scope};
use crate::span_builder::{BodyWrapper, SpanBuilder};

verus! {

/// Model of an assembler.
pub struct SpecAssembler {
    /// The digests of the procedures of the kernel.
    pub kernel: Seq<Digest>,
    /// The modules which the module provider serves.
    pub catalogue: Catalogue,
    /// The procedures which have been compiled.
    pub cache: Map<ProcId, SpecProc>,
    /// True in debug mode.
    pub in_debug_mode: bool,
    /// True once the assembler has been used to compile a program.
    pub has_compiled: bool,
}

impl SpecAssembler {
    /// An assembler without modules and without a kernel.
    pub open spec fn empty() -> SpecAssembler {
        SpecAssembler {
            kernel: Seq::empty(),
            catalogue: ().catalogue(),
            cache: Map::empty(),
            in_debug_mode: false,
            has_compiled: false,
        }
    }

    /// The outcome of compiling the program with the given source.
    pub open spec fn program(self, source: Seq<char>) -> Outcome<SpecProgram> {
        match SpecReader::program(source) {
            Some(program) => self.catalogue.program(self.cache, self.kernel, program),
            None => (self.cache, Err(Fault::Error(SpecError::InvalidSource))),
        }
    }

    /// The assembler after it has been used to compile the program with the given source.
    pub open spec fn after_program(self, source: Seq<char>) -> SpecAssembler {
        SpecAssembler { cache: self.program(source).0, has_compiled: true, ..self }
    }

    /// The assembler with the kernel of the given procedures, or the reason why there is none.
    pub open spec fn with_kernel_procs(self, procs: Seq<SpecProcAst>) -> Result<
        SpecAssembler,
        Fault,
    > {
        match self.catalogue.kernel(self.cache, procs) {
            (cache, Ok(kernel)) => Ok(SpecAssembler { kernel, cache, ..self }),
            (_, Err(fault)) => Err(fault),
        }
    }

    /// The assembler with the kernel of the given source, or the reason why there is none.
    pub open spec fn with_kernel_source(self, source: Seq<char>) -> Result<SpecAssembler, Fault> {
        match SpecReader::module(source) {
            Some(procs) => self.with_kernel_procs(procs),
            None => Err(Fault::Error(SpecError::InvalidSource)),
        }
    }
}

/// Compiles programs, and the modules and the kernel which they use.
pub struct Assembler<P: ModuleProvider = ()> {
    kernel: Kernel,
    module_provider: P,
    proc_cache: ProcedureCache,
    in_debug_mode: bool,
    has_compiled: bool,
}

impl<P: ModuleProvider> View for Assembler<P> {
    type V = SpecAssembler;

    closed spec fn view(&self) -> SpecAssembler {
        SpecAssembler {
            kernel: self.kernel@,
            catalogue: self.module_provider.catalogue(),
            cache: self.proc_cache@,
            in_debug_mode: self.in_debug_mode,
            has_compiled: self.has_compiled,
        }
    }
}

impl Assembler {
    /// Returns a new assembler without modules and without a kernel.
    pub fn new() -> (r: Assembler)
        ensures
            r@ == SpecAssembler::empty(),
    {
        Assembler {
            kernel: Kernel::default(),
            module_provider: (),
            proc_cache: ProcedureCache::new(),
            in_debug_mode: false,
            has_compiled: false,
        }
    }
}

impl Default for Assembler {
    /// Returns a new assembler without modules and without a kernel.
    fn default() -> (r: Assembler)
        ensures
            r@ == SpecAssembler::empty(),
    {
        Self::new()
    }
}

impl<P: ModuleProvider> Assembler<P> {
    /// Puts the assembler into debug mode, or out of it.
    pub fn with_debug_mode(self, in_debug_mode: bool) -> (r: Assembler<P>)
        ensures
            r@ == (SpecAssembler { in_debug_mode, ..self@ }),
    {
        Assembler { in_debug_mode, ..self }
    }

    /// Lets the assembler take modules from the given provider.
    pub fn with_module_provider<Q: ModuleProvider>(self, provider: Q) -> (r: Assembler<Q>)
        ensures
            r@ == (SpecAssembler { catalogue: provider.catalogue(), ..self@ }),
    {
        Assembler {
            kernel: self.kernel,
            module_provider: provider,
            proc_cache: self.proc_cache,
            in_debug_mode: self.in_debug_mode,
            has_compiled: self.has_compiled,
        }
    }

    /// Sets the kernel to the one which the source defines. This has to happen before the first
    /// program is compiled.
    pub fn with_kernel(self, kernel_source: &str) -> (r: Result<Assembler<P>, AssemblerError>)
        requires
            !self@.has_compiled,
            self@.catalogue.well_behaved() || self@.with_kernel_source(kernel_source@) != Err::<
                SpecAssembler,
                Fault,
            >(Fault::Stuck),
        ensures
            match self@.with_kernel_source(kernel_source@) {
                Ok(assembler) => r is Ok && r->Ok_0@ == assembler,
                Err(fault) => r is Err && fault == Fault::Error(r->Err_0@),
            },
    {
        match parse_module(kernel_source) {
            Ok(module) => self.with_kernel_module(&module),
            Err(error) => Err(error),
        }
    }

    /// Sets the kernel to the one which the module defines.
    pub fn with_kernel_module(self, module: &ModuleAst) -> (r: Result<
        Assembler<P>,
        AssemblerError,
    >)
        requires
            self@.catalogue.well_behaved() || self@.with_kernel_procs(module@) != Err::<
                SpecAssembler,
                Fault,
            >(Fault::Stuck),
        ensures
            match self@.with_kernel_procs(module@) {
                Ok(assembler) => r is Ok && r->Ok_0@ == assembler,
                Err(fault) => r is Err && fault == Fault::Error(r->Err_0@),
            },
    {
        proof {
            if self@.catalogue.well_behaved() {
                crate::laws::catalogues::lemma_kernel_not_stuck(
                    self@.catalogue,
                    self@.cache,
                    module@,
                );
            }
        }
        let mut assembler = self;
        // the exported procedures of the kernel go into the cache
        let mut context = AssemblyContext::new(true);
        assert(context@.active() =~= Seq::empty());
        match Self::compile_module(
            &assembler.module_provider,
            &mut assembler.proc_cache,
            module,
            ProcedureId::KERNEL_PATH,
            &mut context,
        ) {
            Ok(_) => {},
            Err(error) => {
                return Err(error);
            },
        }
        assembler.kernel = context.into_kernel();
        Ok(assembler)
    }

    /// Returns true if the assembler is in debug mode.
    pub fn in_debug_mode(&self) -> (r: bool)
        ensures
            r == self@.in_debug_mode,
    {
        self.in_debug_mode
    }

    /// Returns the kernel of the assembler; it is empty unless one has been set.
    pub fn kernel(&self) -> (r: &Kernel)
        ensures
            r@ == self@.kernel,
    {
        &self.kernel
    }

    /// Returns the procedures which have been compiled and can be used by other modules.
    pub fn proc_cache(&self) -> (r: &ProcedureCache)
        ensures
            r@ == self@.cache,
    {
        &self.proc_cache
    }

    /// Compiles the program with the given source. Modules which the program uses are compiled
    /// too, and stay in the cache.
    pub fn compile(&mut self, source: &str) -> (r: Result<Program, AssemblerError>)
        requires
            old(self)@.catalogue.well_behaved() || old(self)@.program(source@).1 != Err::<
                SpecProgram,
                Fault,
            >(Fault::Stuck),
        ensures
            final(self)@ == old(self)@.after_program(source@),
            match old(self)@.program(source@).1 {
                Ok(program) => r is Ok && r->Ok_0@ == program,
                Err(fault) => r is Err && fault == Fault::Error(r->Err_0@),
            },
    {
        self.has_compiled = true;
        let program = match parse_program(source) {
            Ok(program) => program,
            Err(error) => {
                return Err(error);
            },
        };
        proof {
            if self@.catalogue.well_behaved() {
                crate::laws::catalogues::lemma_program_not_stuck(
                    self@.catalogue,
                    self@.cache,
                    self@.kernel,
                    program@,
                );
            }
        }
        Self::compile_program(
            &self.module_provider,
            &mut self.proc_cache,
            &self.kernel,
            &program,
        )
    }

    /// Compiles a program for the given kernel.
    fn compile_program(
        provider: &P,
        cache: &mut ProcedureCache,
        kernel: &Kernel,
        program: &ProgramAst,
    ) -> (r: Result<Program, AssemblerError>)
        requires
            provider.catalogue().program(old(cache)@, kernel@, program@).1 != Err::<
                SpecProgram,
                Fault,
            >(Fault::Stuck),
        ensures
            ({
                let out = provider.catalogue().program(old(cache)@, kernel@, program@);
                &&& final(cache)@ == out.0
                &&& match out.1 {
                    Ok(program) => r is Ok && r->Ok_0@ == program,
                    Err(fault) => r is Err && fault == Fault::Error(r->Err_0@),
                }
            }),
    {
        let mut context = AssemblyContext::new(false);
        assert(context@.modules[0].callset =~= Seq::empty());
        match Self::compile_program_procs(provider, cache, &program.local_procs, &mut context) {
            Ok(_) => {},
            Err(error) => {
                return Err(error);
            },
        }
        let ghost before = context@;
        assert(before.callset() =~= Seq::empty());
        let program_root = match Self::compile_body(
            provider,
            cache,
            &program.body,
            &mut context,
            None,
        ) {
            Ok(block) => block,
            Err(error) => {
                return Err(error);
            },
        };
        proof {
            before.lemma_with_callset(context@.callset());
        }
        let cb_table = context.into_cb_table(cache);
        Ok(Program::with_kernel(program_root, kernel.clone(), cb_table))
    }

    /// Compiles the procedures of a program and adds them to the context; a program does not
    /// export procedures.
    #[verifier::rlimit(40)]
    fn compile_program_procs(
        provider: &P,
        cache: &mut ProcedureCache,
        procs: &Vec<ProcedureAst>,
        context: &mut AssemblyContext,
    ) -> (r: Result<(), AssemblerError>)
        requires
            old(context)@.in_module(),
            provider.catalogue().program_procedures(
                old(context)@.scope(),
                old(cache)@,
                old(context)@.modules.last().callset,
                ProcedureAst::models(procs@),
            ).1 != Err::<(Seq<SpecProc>, Seq<ProcId>), Fault>(Fault::Stuck),
        ensures
            ({
                let out = provider.catalogue().program_procedures(
                    old(context)@.scope(),
                    old(cache)@,
                    old(context)@.modules.last().callset,
                    ProcedureAst::models(procs@),
                );
                &&& final(cache)@ == out.0
                &&& match out.1 {
                    Ok((compiled, callset)) => {
                        &&& r is Ok
                        &&& final(context)@.in_module()
                        &&& final(context)@.modules.drop_last()
                            == old(context)@.modules.drop_last()
                        &&& final(context)@.modules.last().stack == old(context)@.modules.last().stack
                        &&& final(context)@.modules.last().callset == callset
                        &&& final(context)@.scope() == (Scope {
                            procs: compiled,
                            ..old(context)@.scope()
                        })
                    },
                    Err(fault) => {
                        let last = old(context)@.modules.len() - 1;
                        &&& r is Err
                        &&& fault == Fault::Error(r->Err_0@)
                        &&& final(context)@.modules.len() > last
                        &&& final(context)@.modules.take(last) == old(context)@.modules.drop_last()
                        &&& final(context)@.modules[last].path == old(context)@.modules[last].path
                        &&& old(context)@.modules[last].procs.is_prefix_of(
                            final(context)@.modules[last].procs,
                        )
                    },
                }
            }),
    {
        let ghost lib = provider.catalogue();
        let ghost start = context@;
        let ghost asts = ProcedureAst::models(procs@);
        let ghost out = lib.program_procedures(
            start.scope(),
            cache@,
            start.modules.last().callset,
            asts,
        );
        assert(asts.skip(0) =~= asts);
        let mut i: usize = 0;
        while i < procs.len()
            invariant
                i <= procs.len(),
                lib == provider.catalogue(),
                asts == ProcedureAst::models(procs@),
                start == old(context)@,
                out == lib.program_procedures(
                    start.scope(),
                    old(cache)@,
                    start.modules.last().callset,
                    asts,
                ),
                !(out.1 matches Err(Fault::Stuck)),
                context@.in_module(),
                context@.modules.drop_last() == start.modules.drop_last(),
                context@.modules.last().path == start.modules.last().path,
                start.modules.last().procs.is_prefix_of(context@.modules.last().procs),
                context@.modules.last().stack == start.modules.last().stack,
                context@.is_kernel == start.is_kernel,
                context@.active() == start.active(),
                out == lib.program_procedures(
                    context@.scope(),
                    cache@,
                    context@.modules.last().callset,
                    asts.skip(i as int),
                ),
            decreases procs.len() - i,
        {
            let ghost rest = asts.skip(i as int);
            let ghost before = context@;
            proof {
                assert(rest[0] == procs@[i as int]@);
                assert(rest.drop_first() =~= asts.skip(i + 1));
                lib.lemma_program_procedures(
                    before.scope(),
                    cache@,
                    before.modules.last().callset,
                    rest,
                );
            }
            let proc = &procs[i];
            assert(before.modules.take(before.modules.len() - 1) =~= before.modules.drop_last());
            if proc.is_export {
                return Err(AssemblerError::proc_export_in_program(proc.name.as_str()));
            }
            match Self::compile_procedure(provider, cache, proc, context) {
                Ok(_) => {},
                Err(error) => {
                    return Err(error);
                },
            }
            proof {
                assert(before.scope().active == before.active());
                before.lemma_with_proc(context@.modules.last().procs.last());
            }
            i = i + 1;
        }
        proof {
            assert(asts.skip(i as int) =~= Seq::<SpecProcAst>::empty());
            lib.lemma_program_procedures(
                context@.scope(),
                cache@,
                context@.modules.last().callset,
                asts.skip(i as int),
            );
        }
        Ok(())
    }
}

/// Returns the lower sixteen bits of `n`.
fn low_half(n: u32) -> (r: u16)
    ensures
        r == n as int % 0x1_0000,
{
    assert(n as u16 == n % 0x1_0000) by (bit_vector);
    #[verifier::truncate]
    (n as u16)
}

/// Returns the operations around the body of a procedure with locals: they move the free memory
/// pointer up by the number of the locals before the body, and down by the same number after it.
fn locals_wrapper(proc: &ProcedureAst) -> (r: Option<BodyWrapper>)
    ensures
        r matches Some(w) ==> w.prologue@ == proc@.prologue() && w.epilogue@ == proc@.epilogue(),
        r is None ==> proc@.prologue() == Seq::<Operation>::empty() && proc@.epilogue() == Seq::<
            Operation,
        >::empty(),
{
    proof {
        reveal(SpecProcAst::prologue);
        reveal(SpecProcAst::epilogue);
    }
    if proc.num_locals > 0 {
        let num_locals = Felt::from(proc.num_locals);
        let mut prologue: Vec<Operation> = Vec::new();
        prologue.push(Operation::Push(num_locals));
        prologue.push(Operation::FmpUpdate);
        let mut epilogue: Vec<Operation> = Vec::new();
        epilogue.push(Operation::Push(core::ops::Neg::neg(num_locals)));
        epilogue.push(Operation::FmpUpdate);
        assert(prologue@ =~= proc@.prologue());
        assert(epilogue@ =~= proc@.epilogue());
        Some(BodyWrapper { prologue, epilogue })
    } else {
        None
    }
}

impl<P: ModuleProvider> Assembler<P> {
    /// Compiles all procedures of a module and puts those into the cache which other modules can
    /// reach: the exported ones, and those which are called.
    #[verifier::rlimit(40)]
    fn compile_module(
        provider: &P,
        cache: &mut ProcedureCache,
        module: &ModuleAst,
        path: &str,
        context: &mut AssemblyContext,
    ) -> (r: Result<(), AssemblerError>)
        requires
            provider.catalogue().module(
                old(context)@.is_kernel,
                old(context)@.active(),
                old(cache)@,
                path@,
                module@,
            ).1 != Err::<Seq<SpecProc>, Fault>(Fault::Stuck),
        ensures
            ({
                let out = provider.catalogue().module(
                    old(context)@.is_kernel,
                    old(context)@.active(),
                    old(cache)@,
                    path@,
                    module@,
                );
                &&& final(cache)@ == out.0
                &&& match out.1 {
                    Ok(procs) => r is Ok && final(context)@ == old(context)@.after_module(procs),
                    Err(fault) => {
                        &&& r is Err
                        &&& fault == Fault::Error(r->Err_0@)
                        &&& final(context)@.extends(old(context)@)
                    },
                }
            }),
        decreases
                if old(context)@.active().contains(path@) {
                    provider.catalogue().remaining(old(context)@.active())
                } else {
                    provider.catalogue().remaining(old(context)@.active().push(path@))
                },
                if old(context)@.active().contains(path@) {
                    1nat
                } else {
                    7nat
                },
                Seq::<SpecNode>::empty(),
                0nat,
    {
        let ghost lib = provider.catalogue();
        let ghost start = old(context)@;
        proof {
            start.lemma_extends_itself();
        }
        match context.begin_module(path) {
            Ok(_) => {},
            Err(error) => {
                return Err(error);
            },
        }
        let ghost inner = context@;
        assert(inner.active() =~= start.active().push(path@));
        let ghost scope = Scope {
            in_kernel: start.is_kernel,
            active: start.active().push(path@),
            procs: Seq::empty(),
        };
        assert(inner.scope() =~= scope);
        let ghost asts = module@;
        let ghost out = lib.procedures(scope, old(cache)@, Seq::empty(), asts);
        let ghost total = lib.module(start.is_kernel, start.active(), old(cache)@, path@, asts);
        assert(asts.skip(0) =~= asts);
        let mut i: usize = 0;
        while i < module.local_procs.len()
            invariant
                i <= module.local_procs.len(),
                asts == module@,
                start == old(context)@,
                total == lib.module(start.is_kernel, start.active(), old(cache)@, path@, asts),
                out matches (c, Err(fault)) ==> total == (
                    c,
                    Err::<Seq<SpecProc>, Fault>(fault),
                ),
                lib == provider.catalogue(),
                context@.in_module(),
                context@.modules.last().stack.len() == 0,
                context@.modules.drop_last() == start.modules,
                context@.is_kernel == start.is_kernel,
                context@.kernel == start.kernel,
                context@.active() == start.active().push(path@),
                !start.active().contains(path@),
                out == lib.procedures(
                    context@.scope(),
                    cache@,
                    context@.modules.last().callset,
                    asts.skip(i as int),
                ),
                !(out.1 matches Err(Fault::Stuck)),
            decreases module.local_procs.len() - i,
        {
            let ghost rest = asts.skip(i as int);
            assert(rest[0] == module.local_procs@[i as int]@);
            assert(rest.drop_first() =~= asts.skip(i + 1));
            let ghost before = context@;
            proof {
                assert(before.scope().active == before.active());
            }
            match Self::compile_procedure(provider, cache, &module.local_procs[i], context) {
                Ok(_) => {},
                Err(error) => {
                    assert(context@.modules.take(start.modules.len() as int) =~= start.modules);
                    return Err(error);
                },
            }
            proof {
                before.lemma_with_proc(context@.modules.last().procs.last());
            }
            i = i + 1;
        }
        assert(asts.skip(i as int) =~= Seq::<SpecProcAst>::empty());
        let ghost compiled = context@.modules.last().procs;
        let (module_procs, module_callset) = context.complete_module();
        assert(context@ =~= start.after_module(compiled));

        let ghost cache_before = cache@;
        assert(compiled.take(0) =~= Seq::empty());
        for proc in it: module_procs
            invariant
                it.seq() == module_procs@,
                compiled == Procedure::models(module_procs@),
                cache@ == Catalogue::published(
                    cache_before,
                    compiled.take(it.index() as int),
                    module_callset@,
                ),
        {
            assert(compiled.take(it.index() as int + 1).drop_last() =~= compiled.take(
                it.index() as int,
            ));
            assert(compiled.take(it.index() as int + 1).last() == proc@);
            if proc.is_export() || module_callset.contains(proc.id()) {
                cache.insert(proc);
            }
        }
        assert(compiled.take(compiled.len() as int) =~= compiled);
        Ok(())
    }

    /// Compiles a procedure of the innermost module and adds it to the context.
    #[verifier::rlimit(40)]
    fn compile_procedure(
        provider: &P,
        cache: &mut ProcedureCache,
        proc: &ProcedureAst,
        context: &mut AssemblyContext,
    ) -> (r: Result<(), AssemblerError>)
        requires
            old(context)@.in_module(),
            provider.catalogue().procedure(old(context)@.scope(), old(cache)@, proc@).1 != Err::<
                SpecProc,
                Fault,
            >(Fault::Stuck),
        ensures
            ({
                let out = provider.catalogue().procedure(
                    old(context)@.scope(),
                    old(cache)@,
                    proc@,
                );
                &&& final(cache)@ == out.0
                &&& match out.1 {
                    Ok(compiled) => r is Ok && final(context)@ == old(context)@.with_proc(compiled),
                    Err(fault) => {
                        &&& r is Err
                        &&& fault == Fault::Error(r->Err_0@)
                        &&& final(context)@.keeps(old(context)@)
                    },
                }
            }),
        decreases
                provider.catalogue().remaining(old(context)@.active()),
                5nat,
                Seq::<SpecNode>::empty(),
                0nat,
    {
        let ghost start = context@;
        let num_locals: u16 = low_half(proc.num_locals);
        proof {
            start.lemma_started(
                SpecProcContext {
                    name: proc.name@,
                    is_export: proc.is_export,
                    num_locals,
                    callset: Seq::empty(),
                },
            );
        }
        match context.begin_proc(proc.name.as_str(), proc.is_export, num_locals) {
            Ok(_) => {},
            Err(error) => {
                assert(start.modules.take(start.modules.len() - 1) =~= start.modules.drop_last());
                return Err(error);
            },
        }
        let ghost inner = context@;
        proof {
            inner.lemma_with_callset(inner.callset());
        }
        let wrapper = locals_wrapper(proc);
        let code_root = match Self::compile_body(provider, cache, &proc.body, context, wrapper) {
            Ok(block) => block,
            Err(error) => {
                proof {
                    context@.lemma_keeps(inner, start);
                }
                return Err(error);
            },
        };
        let ghost callset = context@.callset();
        proof {
            inner.lemma_with_callset(callset);
        }
        context.complete_proc(code_root);
        Ok(())
    }

    /// Compiles a code body into a block.
    #[verifier::rlimit(40)]
    fn compile_body(
        provider: &P,
        cache: &mut ProcedureCache,
        body: &Vec<Node>,
        context: &mut AssemblyContext,
        wrapper: Option<BodyWrapper>,
    ) -> (r: Result<CodeBlock, AssemblerError>)
        requires
            old(context)@.in_proc(),
            Self::body_outcome(
                provider.catalogue(),
                old(context)@,
                old(cache)@,
                body@,
                wrapper,
            ).1 != Err::<(Mast, Seq<ProcId>), Fault>(Fault::Stuck),
        ensures
            ({
                let out = Self::body_outcome(
                    provider.catalogue(),
                    old(context)@,
                    old(cache)@,
                    body@,
                    wrapper,
                );
                &&& final(cache)@ == out.0
                &&& match out.1 {
                    Ok((block, callset)) => {
                        &&& r is Ok
                        &&& r->Ok_0@ == block
                        &&& final(context)@ == old(context)@.with_callset(callset)
                    },
                    Err(fault) => {
                        &&& r is Err
                        &&& fault == Fault::Error(r->Err_0@)
                        &&& final(context)@.keeps(old(context)@)
                    },
                }
            }),
        decreases
                provider.catalogue().remaining(old(context)@.active()),
                4nat,
                Node::models(body@),
                0nat,
    {
        broadcast use crate::ast::lemma_node_model;

        let ghost lib = provider.catalogue();
        let ghost start = context@;
        let ghost scope = start.scope();
        let ghost nodes = Node::models(body@);
        let mut blocks: Vec<CodeBlock> = Vec::new();
        let mut span = SpanBuilder::new(wrapper);
        let ghost epilogue = span.epilogue@;
        let ghost first = Progress {
            blocks: Seq::empty(),
            ops: span.ops@,
            callset: start.callset(),
        };
        let ghost out = lib.nodes(scope, cache@, first, nodes);
        let ghost total = Self::body_outcome(lib, start, cache@, body@, wrapper);
        proof {
            start.lemma_with_callset(start.callset());
            assert(CodeBlock::models(blocks@) =~= Seq::empty());
            assert(nodes.skip(0) =~= nodes);
            assert(wrapper is None ==> span.ops@ =~= Seq::empty() && epilogue =~= Seq::empty());
            assert(total == Catalogue::closed_with(out, epilogue));
        }
        let mut i: usize = 0;
        while i < body.len()
            invariant
                i <= body.len(),
                lib == provider.catalogue(),
                nodes == Node::models(body@),
                scope == start.scope(),
                start == old(context)@,
                start.in_proc(),
                total == Self::body_outcome(lib, start, old(cache)@, body@, wrapper),
                total == Catalogue::closed_with(out, epilogue),
                context@ == start.with_callset(context@.callset()),
                span.epilogue@ == epilogue,
                out == lib.nodes(
                    scope,
                    cache@,
                    Progress {
                        blocks: CodeBlock::models(blocks@),
                        ops: span.ops@,
                        callset: context@.callset(),
                    },
                    nodes.skip(i as int),
                ),
                !(out.1 matches Err(Fault::Stuck)),
            decreases body.len() - i,
        {
            let ghost before = context@;
            let ghost progress = Progress {
                blocks: CodeBlock::models(blocks@),
                ops: span.ops@,
                callset: before.callset(),
            };
            let ghost rest = nodes.skip(i as int);
            proof {
                start.lemma_with_callset(before.callset());
                before.lemma_with_callset(before.callset());
                assert(rest[0] == body@[i as int].model());
                assert(rest.drop_first() =~= nodes.skip(i + 1));
                assert(nodes[i as int] == rest[0]);
                assert(start.scope().active == start.active());
                assert(before.scope().active == before.active());
                assert(decreases_to!(nodes => nodes[i as int]));
            }
            match &body[i] {
                Node::Instruction(instruction) => {
                    match Self::compile_instruction(provider, cache, instruction, &mut span, context) {
                        Ok(Some(block)) => {
                            span.extract_span_into(&mut blocks);
                            blocks.push(block);
                            assert(CodeBlock::models(blocks@) =~= progress.followed_by(
                                block@,
                                context@.callset(),
                            ).blocks);
                        },
                        Ok(None) => {},
                        Err(error) => {
                            proof {
                                context@.lemma_keeps(before, start);
                            }
                            return Err(error);
                        },
                    }
                },
                Node::IfElse(on_true, on_false) => {
                    span.extract_span_into(&mut blocks);
                    assert(nodes[i as int]->IfElse_0 == Node::models(on_true@));
                    assert(decreases_to!(nodes[i as int] => nodes[i as int]->IfElse_0));
                    assert(nodes[i as int]->IfElse_1 == Node::models(on_false@));
                    assert(decreases_to!(nodes[i as int] => nodes[i as int]->IfElse_1));
                    let true_block = match Self::compile_body(
                        provider,
                        cache,
                        on_true,
                        context,
                        None,
                    ) {
                        Ok(block) => block,
                        Err(error) => {
                            proof {
                                context@.lemma_keeps(before, start);
                            }
                            return Err(error);
                        },
                    };
                    proof {
                        start.lemma_with_callset(context@.callset());
                        before.lemma_with_callset(context@.callset());
                        assert(context@.scope().active == context@.active());
                    }
                    let ghost between = context@;
                    // an alternative which is not there does nothing
                    let false_block = if on_false.len() > 0 {
                        match Self::compile_body(provider, cache, on_false, context, None) {
                            Ok(block) => block,
                            Err(error) => {
                                proof {
                                    context@.lemma_keeps(between, start);
                                }
                                return Err(error);
                            },
                        }
                    } else {
                        let mut ops: Vec<Operation> = Vec::new();
                        ops.push(Operation::Noop);
                        assert(ops@ =~= seq![Operation::Noop]);
                        CodeBlock::new_span(ops)
                    };
                    let block = CodeBlock::new_split(true_block, false_block);
                    blocks.push(block);
                    assert(CodeBlock::models(blocks@) =~= progress.followed_by(
                        block@,
                        context@.callset(),
                    ).blocks);
                },
                Node::Repeat(count, repeated) => {
                    span.extract_span_into(&mut blocks);
                    assert(nodes[i as int]->Repeat_1 == Node::models(repeated@));
                    assert(decreases_to!(nodes[i as int] => nodes[i as int]->Repeat_1));
                    let block = match Self::compile_body(
                        provider,
                        cache,
                        repeated,
                        context,
                        None,
                    ) {
                        Ok(block) => block,
                        Err(error) => {
                            proof {
                                context@.lemma_keeps(before, start);
                            }
                            return Err(error);
                        },
                    };
                    let ghost blocks_before = CodeBlock::models(blocks@);
                    let mut k: u32 = 0;
                    assert(CodeBlock::models(blocks@) =~= blocks_before + Seq::new(
                        0nat,
                        |j: int| block@,
                    ));
                    while k < *count
                        invariant
                            k <= *count,
                            CodeBlock::models(blocks@) == blocks_before + Seq::new(
                                k as nat,
                                |j: int| block@,
                            ),
                        decreases *count - k,
                    {
                        let ghost models = CodeBlock::models(blocks@);
                        let copy = block.clone();
                        blocks.push(copy);
                        k = k + 1;
                        assert(CodeBlock::models(blocks@) =~= models.push(block@));
                        assert(CodeBlock::models(blocks@) =~= blocks_before + Seq::new(
                            k as nat,
                            |j: int| block@,
                        ));
                    }
                    assert(CodeBlock::models(blocks@) =~= progress.repeated(
                        block@,
                        *count as nat,
                        context@.callset(),
                    ).blocks);
                },
                Node::While(repeated) => {
                    span.extract_span_into(&mut blocks);
                    assert(nodes[i as int]->While_0 == Node::models(repeated@));
                    assert(decreases_to!(nodes[i as int] => nodes[i as int]->While_0));
                    let block = match Self::compile_body(
                        provider,
                        cache,
                        repeated,
                        context,
                        None,
                    ) {
                        Ok(block) => block,
                        Err(error) => {
                            proof {
                                context@.lemma_keeps(before, start);
                            }
                            return Err(error);
                        },
                    };
                    let block = CodeBlock::new_loop(block);
                    blocks.push(block);
                    assert(CodeBlock::models(blocks@) =~= progress.followed_by(
                        block@,
                        context@.callset(),
                    ).blocks);
                },
            }
            proof {
                start.lemma_with_callset(context@.callset());
                assert(span.ops@.len() == 0 ==> span.ops@ =~= Seq::empty());
            }
            i = i + 1;
        }
        assert(nodes.skip(i as int) =~= Seq::<SpecNode>::empty());
        let ghost end = Progress {
            blocks: CodeBlock::models(blocks@),
            ops: span.ops@ + epilogue,
            callset: context@.callset(),
        };
        span.extract_final_span_into(&mut blocks);
        assert(CodeBlock::models(blocks@) == end.flushed().blocks);
        Ok(combine_blocks(blocks))
    }

    /// The outcome of compiling a body in a context.
    spec fn body_outcome(
        lib: Catalogue,
        context: SpecContext,
        cache: Map<ProcId, SpecProc>,
        body: Seq<Node>,
        wrapper: Option<BodyWrapper>,
    ) -> Outcome<(Mast, Seq<ProcId>)> {
        lib.body(
            context.scope(),
            cache,
            context.callset(),
            match wrapper {
                Some(w) => w.prologue@,
                None => Seq::empty(),
            },
            Node::models(body),
            match wrapper {
                Some(w) => w.epilogue@,
                None => Seq::empty(),
            },
        )
    }

    /// Compiles an instruction: it adds an operation to the span, or it becomes a block.
    fn compile_instruction(
        provider: &P,
        cache: &mut ProcedureCache,
        instruction: &Instruction,
        span: &mut SpanBuilder,
        context: &mut AssemblyContext,
    ) -> (r: Result<Option<CodeBlock>, AssemblerError>)
        requires
            old(context)@.in_proc(),
            provider.catalogue().instruction(
                old(context)@.scope(),
                old(cache)@,
                old(context)@.callset(),
                instruction@,
            ).1 != Err::<(Effect, Seq<ProcId>), Fault>(Fault::Stuck),
        ensures
            ({
                let out = provider.catalogue().instruction(
                    old(context)@.scope(),
                    old(cache)@,
                    old(context)@.callset(),
                    instruction@,
                );
                &&& final(cache)@ == out.0
                &&& final(span).epilogue@ == old(span).epilogue@
                &&& match out.1 {
                    Ok((Effect::Op(op), callset)) => {
                        &&& r == Ok::<Option<CodeBlock>, AssemblerError>(None)
                        &&& final(span).ops@ == old(span).ops@.push(op)
                        &&& final(context)@ == old(context)@.with_callset(callset)
                    },
                    Ok((Effect::Block(block), callset)) => {
                        &&& r is Ok
                        &&& r->Ok_0 is Some
                        &&& r->Ok_0->Some_0@ == block
                        &&& final(span).ops@ == old(span).ops@
                        &&& final(context)@ == old(context)@.with_callset(callset)
                    },
                    Err(fault) => {
                        &&& r is Err
                        &&& fault == Fault::Error(r->Err_0@)
                        &&& final(context)@.extends(old(context)@)
                    },
                }
            }),
        decreases
                provider.catalogue().remaining(old(context)@.active()),
                3nat,
                Seq::<SpecNode>::empty(),
                0nat,
    {
        proof {
            context@.lemma_with_callset(context@.callset());
            context@.lemma_extends_itself();
        }
        let result = match instruction {
            Instruction::Add => {
                span.add_op(Operation::Add);
                return Ok(None);
            },
            Instruction::Push(felt) => {
                span.add_op(Operation::Push(*felt));
                return Ok(None);
            },
            Instruction::ExecLocal(index) => context.invoke_local(*index, Invocation::Exec),
            Instruction::CallLocal(index) => context.invoke_local(*index, Invocation::Call),
            Instruction::ExecImported(id) => {
                match Self::get_imported_proc(provider, cache, id, context) {
                    Ok(proc) => context.invoke(proc, Invocation::Exec),
                    Err(error) => Err(error),
                }
            },
            Instruction::CallImported(id) => {
                match Self::get_imported_proc(provider, cache, id, context) {
                    Ok(proc) => context.invoke(proc, Invocation::Call),
                    Err(error) => Err(error),
                }
            },
            Instruction::SysCall(name) => {
                let id = ProcedureId::new(ProcedureId::KERNEL_PATH, name.as_str());
                match cache.get(&id) {
                    Some(proc) => context.invoke(proc, Invocation::SysCall),
                    None => Err(AssemblerError::UndefinedKernelProc(name.clone())),
                }
            },
        };
        match result {
            Ok(block) => Ok(Some(block)),
            Err(error) => Err(error),
        }
    }

    /// Returns the procedure with the given identifier: from the cache, or else after its module
    /// has been compiled.
    fn get_imported_proc<'c>(
        provider: &P,
        cache: &'c mut ProcedureCache,
        proc_id: &ProcedureId,
        context: &mut AssemblyContext,
    ) -> (r: Result<&'c Procedure, AssemblerError>)
        requires
            old(context)@.in_proc(),
            provider.catalogue().imported(old(context)@.scope(), old(cache)@, proc_id@).1 != Err::<
                SpecProc,
                Fault,
            >(Fault::Stuck),
        ensures
            ({
                let out = provider.catalogue().imported(
                    old(context)@.scope(),
                    old(cache)@,
                    proc_id@,
                );
                &&& final(cache)@ == out.0
                &&& match out.1 {
                    Ok(proc) => r is Ok && r->Ok_0@ == proc && final(context)@ == old(context)@,
                    Err(fault) => {
                        &&& r is Err
                        &&& fault == Fault::Error(r->Err_0@)
                        &&& final(context)@.extends(old(context)@)
                        &&& (provider.catalogue().lookup)(proc_id@) is None ==> final(context)@
                            == old(context)@
                    },
                }
            }),
        decreases
                provider.catalogue().remaining(old(context)@.active()),
                2nat,
                Seq::<SpecNode>::empty(),
                0nat,
    {
        proof {
            context@.lemma_extends_itself();
        }
        if cache.get(proc_id).is_none() {
            let module = match provider.get_module(proc_id) {
                Some(module) => module,
                None => {
                    return Err(AssemblerError::undefined_imported_proc(proc_id));
                },
            };
            proof {
                provider.catalogue().lemma_remaining(context@.active(), module@.path);
            }
            match Self::compile_module(provider, cache, module.module(), module.path(), context) {
                Ok(_) => {},
                Err(error) => {
                    return Err(error);
                },
            }
        }
        Ok(cache.get(proc_id).unwrap())
    }
}

} // verus!
