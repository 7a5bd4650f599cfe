use assembly::felt::MODULUS;
use assembly::parsers::{combine_blocks, parse_module, parse_program};
use assembly::{
    Assembler, AssemblerError, CodeBlock, Digest, Felt, Instruction, ModuleAst, ModuleProvider,
    NamedModuleAst, Node, Operation, ProcedureAst, ProcedureId,
};

/// Serves modules by their paths.
struct Modules {
    modules: Vec<(String, ModuleAst)>,
}

impl Modules {
    fn new(sources: &[(&str, &str)]) -> Modules {
        let mut modules = Vec::new();
        for (path, source) in sources {
            modules.push((path.to_string(), parse_module(source).unwrap()));
        }
        Modules { modules }
    }
}

impl ModuleProvider for Modules {
    fn get_source(&self, _path: &str) -> Option<&str> {
        None
    }

    fn get_module(&self, id: &ProcedureId) -> Option<NamedModuleAst<'_>> {
        for (path, module) in self.modules.iter() {
            let exported = module.local_procs.iter().any(|p| p.is_export && p.name == id.name());
            if path == id.module() && exported {
                return Some(NamedModuleAst::new(path, module));
            }
        }
        None
    }
}

fn push(n: u64) -> Operation {
    Operation::Push(n.into())
}

fn span(ops: &[Operation]) -> CodeBlock {
    CodeBlock::new_span(ops.to_vec())
}

fn cached_names(assembler: &Assembler<Modules>) -> Vec<String> {
    let mut names = Vec::new();
    for proc in assembler.proc_cache().values().iter() {
        names.push(format!("{}::{}", proc.id().module(), proc.id().name()));
    }
    names.sort();
    names
}

/// Collects the digests of the procedures which a block calls, and of those which it calls in the
/// kernel.
fn targets(block: &CodeBlock, calls: &mut Vec<Digest>, syscalls: &mut Vec<Digest>) {
    match block {
        CodeBlock::Span(_) => {}
        CodeBlock::Join(a, b) => {
            targets(a, calls, syscalls);
            targets(b, calls, syscalls);
        }
        CodeBlock::Split(a, b) => {
            targets(a, calls, syscalls);
            targets(b, calls, syscalls);
        }
        CodeBlock::Loop(a) => targets(a, calls, syscalls),
        CodeBlock::Call(d) => calls.push(*d),
        CodeBlock::SysCall(d) => syscalls.push(*d),
    }
}

#[test]
fn new_assembler_is_empty() {
    let assembler = Assembler::new();
    assert!(!assembler.in_debug_mode());
    assert_eq!(assembler.kernel().proc_hashes().len(), 0);
    assert_eq!(assembler.proc_cache().len(), 0);

    let assembler = Assembler::default();
    assert!(!assembler.in_debug_mode());
    assert_eq!(assembler.kernel().proc_hashes().len(), 0);
    assert_eq!(assembler.proc_cache().len(), 0);
}

#[test]
fn debug_mode_is_kept_and_changes_no_code() {
    let source = "begin push.1 push.2 add end";
    let mut debug = Assembler::new().with_debug_mode(true);
    assert!(debug.in_debug_mode());
    let mut plain = Assembler::new().with_debug_mode(true).with_debug_mode(false);
    assert!(!plain.in_debug_mode());
    assert_eq!(debug.compile(source).unwrap().hash(), plain.compile(source).unwrap().hash());
    assert!(debug.in_debug_mode());
}

#[test]
fn kernel_consists_of_its_exported_procedures() {
    let source = "
        proc.one push.1 end
        export.two exec.one push.2 end
        export.three push.3 end";
    let two = span(&[push(1), push(2)]).hash();
    let three = span(&[push(3)]).hash();

    let assembler = Assembler::new().with_kernel(source).unwrap();
    assert_eq!(assembler.kernel().proc_hashes(), &vec![two, three]);
    assert_eq!(assembler.proc_cache().len(), 2);
    let one = ProcedureId::new(ProcedureId::KERNEL_PATH, "one");
    assert!(assembler.proc_cache().get(&one).is_none());

    let module = parse_module(source).unwrap();
    let assembler = Assembler::new().with_kernel_module(&module).unwrap();
    assert_eq!(assembler.kernel().proc_hashes(), &vec![two, three]);
}

#[test]
fn program_carries_the_kernel() {
    let mut assembler = Assembler::new().with_kernel("export.foo add end").unwrap();
    let program = assembler.compile("begin syscall.foo end").unwrap();
    let foo = span(&[Operation::Add]);
    assert_eq!(program.root(), &CodeBlock::new_syscall(foo.hash()));
    assert_eq!(program.kernel().proc_hashes(), &vec![foo.hash()]);
    assert_eq!(program.cb_table().get(foo.hash()), Some(&foo));
}

#[test]
fn spans_are_built_from_operations() {
    let mut assembler = Assembler::new();
    let program = assembler.compile("begin push.1 push.2 add end").unwrap();
    assert_eq!(program.root(), &span(&[push(1), push(2), Operation::Add]));
    assert_eq!(program.hash(), program.root().hash());
    assert_eq!(program.kernel().proc_hashes().len(), 0);
}

#[test]
fn missing_alternative_does_nothing() {
    let mut assembler = Assembler::new();
    let program = assembler.compile("begin if.true push.1 end end").unwrap();
    let expected = CodeBlock::new_split(span(&[push(1)]), span(&[Operation::Noop]));
    assert_eq!(program.root(), &expected);
}

#[test]
fn repetition_copies_its_body() {
    let mut assembler = Assembler::new();
    let program = assembler.compile("begin repeat.3 push.1 add end end").unwrap();
    let expected = span(&[
        push(1),
        Operation::Add,
        push(1),
        Operation::Add,
        push(1),
        Operation::Add,
    ]);
    assert_eq!(program.root(), &expected);

    let program = assembler.compile("begin repeat.0 push.1 end end").unwrap();
    assert_eq!(program.root(), &span(&[Operation::Noop]));
}

#[test]
fn loops_follow_what_precedes_them() {
    let mut assembler = Assembler::new();
    let program = assembler.compile("begin push.1 while.true add end push.2 end").unwrap();
    let body = CodeBlock::new_loop(span(&[Operation::Add]));
    let expected = combine_blocks(vec![span(&[push(1)]), body, span(&[push(2)])]);
    assert_eq!(program.root(), &expected);
}

#[test]
fn locals_are_reserved_and_released() {
    let mut assembler = Assembler::new();
    let program = assembler.compile("proc.foo.4 add end begin exec.foo end").unwrap();
    let expected = span(&[
        push(4),
        Operation::FmpUpdate,
        Operation::Add,
        push(MODULUS - 4),
        Operation::FmpUpdate,
    ]);
    assert_eq!(program.root(), &expected);
    assert_eq!((4u128 + (MODULUS - 4) as u128) % MODULUS as u128, 0);
}

#[test]
fn number_of_locals_is_kept_in_sixteen_bits() {
    let module = ModuleAst {
        local_procs: vec![ProcedureAst {
            name: "foo".to_string(),
            is_export: true,
            num_locals: 65_537,
            body: vec![Node::Instruction(Instruction::Add)],
        }],
    };
    let assembler = Assembler::new().with_kernel_module(&module).unwrap();
    let foo = ProcedureId::new(ProcedureId::KERNEL_PATH, "foo");
    let proc = assembler.proc_cache().get(&foo).unwrap();
    assert_eq!(proc.num_locals(), 1);
    let expected = span(&[
        push(65_537),
        Operation::FmpUpdate,
        Operation::Add,
        push(MODULUS - 65_537),
        Operation::FmpUpdate,
    ]);
    assert_eq!(proc.code_root(), &expected);
}

#[test]
fn called_procedures_are_in_the_table() {
    let source = "
        proc.inner push.1 end
        proc.outer call.inner push.2 end
        proc.unused push.3 end
        begin call.outer end";
    let mut assembler = Assembler::new();
    let program = assembler.compile(source).unwrap();
    let inner = span(&[push(1)]);
    let outer = combine_blocks(vec![CodeBlock::new_call(inner.hash()), span(&[push(2)])]);
    assert_eq!(program.root(), &CodeBlock::new_call(outer.hash()));
    assert_eq!(program.cb_table().get(outer.hash()), Some(&outer));
    assert_eq!(program.cb_table().get(inner.hash()), Some(&inner));
    assert_eq!(program.cb_table().get(span(&[push(3)]).hash()), None);
    // procedures of a program are not kept
    assert_eq!(assembler.proc_cache().len(), 0);
}

#[test]
fn executed_procedures_bring_what_they_call() {
    let source = "
        proc.inner push.1 end
        proc.outer call.inner end
        begin exec.outer end";
    let program = Assembler::new().compile(source).unwrap();
    let inner = span(&[push(1)]);
    assert_eq!(program.root(), &CodeBlock::new_call(inner.hash()));
    assert_eq!(program.cb_table().get(inner.hash()), Some(&inner));
}

#[test]
fn cache_holds_exported_and_called_procedures() {
    let modules = Modules::new(&[(
        "lib::math",
        "proc.used push.1 end
         proc.hidden push.2 end
         export.f call.used exec.hidden end
         export.g push.3 end",
    )]);
    let mut assembler = Assembler::new().with_module_provider(modules);
    let program = assembler.compile("use.lib::math begin exec.math::f end").unwrap();
    assert_eq!(
        cached_names(&assembler),
        vec!["lib::math::f", "lib::math::g", "lib::math::used"]
    );
    let used = span(&[push(1)]);
    let f = combine_blocks(vec![CodeBlock::new_call(used.hash()), span(&[push(2)])]);
    assert_eq!(program.root(), &f);
    assert_eq!(program.cb_table().get(used.hash()), Some(&used));

    let id = ProcedureId::new("lib::math", "f");
    let proc = assembler.proc_cache().get(&id).unwrap();
    assert!(proc.is_export());
    assert_eq!(proc.callset().len(), 1);
    assert_eq!(proc.callset().get(0).name(), "used");
}

#[test]
fn compiled_programs_find_whatever_they_invoke() {
    let modules = Modules::new(&[
        ("a", "use.b proc.x call.b::y push.1 end export.f call.x syscall.k end"),
        ("b", "export.y syscall.k push.2 end"),
    ]);
    let mut assembler = Assembler::new()
        .with_kernel("export.k add end")
        .unwrap()
        .with_module_provider(modules);
    let program = assembler
        .compile("use.a proc.p exec.a::f push.9 end begin if.true call.p else call.a::f end end")
        .unwrap();

    let mut calls = Vec::new();
    let mut syscalls = Vec::new();
    targets(program.root(), &mut calls, &mut syscalls);
    let mut seen: Vec<Digest> = Vec::new();
    while let Some(digest) = calls.pop() {
        if !seen.contains(&digest) {
            seen.push(digest);
            let block = program.cb_table().get(digest).unwrap();
            assert_eq!(block.hash(), digest);
            targets(block, &mut calls, &mut syscalls);
        }
    }
    // the procedures p, f, x and y
    assert_eq!(seen.len(), 4);
    assert!(!syscalls.is_empty());
    for digest in syscalls {
        assert!(program.kernel().proc_hashes().contains(&digest));
        assert!(program.cb_table().get(digest).is_some());
    }
}

#[test]
fn compiling_again_gives_the_same_program() {
    let modules = Modules::new(&[("a", "export.f push.1 end"), ("b", "export.g push.2 end")]);
    let mut assembler = Assembler::new().with_module_provider(modules);
    let source = "use.a begin call.a::f end";
    let first = assembler.compile(source).unwrap();
    assert_eq!(cached_names(&assembler), vec!["a::f"]);
    assembler.compile("use.b begin call.b::g end").unwrap();
    assert_eq!(cached_names(&assembler), vec!["a::f", "b::g"]);
    let second = assembler.compile(source).unwrap();
    assert_eq!(cached_names(&assembler), vec!["a::f", "b::g"]);
    assert_eq!(first.root(), second.root());
    let f = span(&[push(1)]);
    assert_eq!(first.cb_table().get(f.hash()), Some(&f));
    assert_eq!(second.cb_table().get(f.hash()), Some(&f));
}

#[test]
fn failed_compilation_keeps_the_modules_it_compiled() {
    let modules = Modules::new(&[("a", "export.f push.1 end")]);
    let mut assembler = Assembler::new().with_module_provider(modules);
    let result = assembler.compile("use.a use.b begin exec.a::f exec.b::g end");
    assert!(matches!(result, Err(AssemblerError::UndefinedImportedProc(_))));
    assert_eq!(cached_names(&assembler), vec!["a::f"]);
    let program = assembler.compile("use.a begin exec.a::f end").unwrap();
    assert_eq!(program.root(), &span(&[push(1)]));
}

#[test]
fn kernel_can_use_modules() {
    let modules = Modules::new(&[("a", "export.f push.1 end")]);
    let assembler = Assembler::new()
        .with_module_provider(modules)
        .with_kernel("use.a export.k exec.a::f add end")
        .unwrap();
    let k = span(&[push(1), Operation::Add]);
    assert_eq!(assembler.kernel().proc_hashes(), &vec![k.hash()]);
    assert_eq!(cached_names(&assembler), vec!["#sys::k", "a::f"]);
}

#[test]
fn source_must_be_a_program() {
    let mut assembler = Assembler::new();
    let result = assembler.compile("export.foo add end");
    assert!(matches!(result, Err(AssemblerError::InvalidSource)));
    let result = Assembler::new().with_kernel("begin add end");
    assert!(matches!(result, Err(AssemblerError::InvalidSource)));
}

#[test]
fn programs_do_not_export() {
    let result = Assembler::new().compile("export.foo add end begin exec.foo end");
    match result {
        Err(AssemblerError::ProcExportInProgram(name)) => assert_eq!(name, "foo"),
        _ => panic!("expected an error"),
    }
}

#[test]
fn names_of_procedures_differ() {
    let result = Assembler::new().compile("proc.foo add end proc.foo add end begin add end");
    match result {
        Err(AssemblerError::DuplicateProcName(name)) => assert_eq!(name, "foo"),
        _ => panic!("expected an error"),
    }
}

#[test]
fn local_procedures_precede_their_uses() {
    let module = ModuleAst {
        local_procs: vec![ProcedureAst {
            name: "foo".to_string(),
            is_export: true,
            num_locals: 0,
            body: vec![Node::Instruction(Instruction::ExecLocal(7))],
        }],
    };
    let result = Assembler::new().with_kernel_module(&module);
    assert!(matches!(result, Err(AssemblerError::UndefinedLocalProc(7))));
}

#[test]
fn imported_procedures_exist() {
    let result = Assembler::new().compile("use.a::b begin exec.b::c end");
    match result {
        Err(AssemblerError::UndefinedImportedProc(id)) => {
            assert_eq!(id.module(), "a::b");
            assert_eq!(id.name(), "c");
        }
        _ => panic!("expected an error"),
    }
}

#[test]
fn kernel_procedures_exist() {
    let mut assembler = Assembler::new().with_kernel("export.foo add end").unwrap();
    match assembler.compile("begin syscall.bar end") {
        Err(AssemblerError::UndefinedKernelProc(name)) => assert_eq!(name, "bar"),
        _ => panic!("expected an error"),
    }
}

#[test]
fn modules_do_not_depend_on_themselves() {
    let modules = Modules::new(&[
        ("a", "use.b export.f exec.b::g end"),
        ("b", "use.a export.g exec.a::f end"),
    ]);
    let mut assembler = Assembler::new().with_module_provider(modules);
    match assembler.compile("use.a begin exec.a::f end") {
        Err(AssemblerError::CircularModuleDependency(path)) => assert_eq!(path, "a"),
        _ => panic!("expected an error"),
    }
    assert_eq!(assembler.proc_cache().len(), 0);
}

#[test]
fn kernels_do_not_call() {
    let result = Assembler::new().with_kernel("proc.foo add end export.bar call.foo end");
    match result {
        Err(AssemblerError::CallInKernel(id)) => {
            assert_eq!(id.module(), ProcedureId::KERNEL_PATH);
            assert_eq!(id.name(), "foo");
        }
        _ => panic!("expected an error"),
    }
}

#[test]
fn second_kernel_leaves_procedures_of_the_first() {
    let assembler = Assembler::new().with_kernel("export.foo push.1 end").unwrap();
    let mut assembler = assembler.with_kernel("export.bar push.2 end").unwrap();
    let foo = span(&[push(1)]).hash();
    let bar = span(&[push(2)]).hash();
    assert_eq!(assembler.kernel().proc_hashes(), &vec![bar]);
    let program = assembler.compile("begin syscall.foo end").unwrap();
    assert_eq!(program.root(), &CodeBlock::new_syscall(foo));
    assert!(!program.kernel().proc_hashes().contains(&foo));
}

#[test]
fn empty_provider_serves_nothing() {
    let id = ProcedureId::new("a", "f");
    assert!(().get_source("a").is_none());
    assert!(().get_module(&id).is_none());
}

#[test]
fn parsed_programs_keep_their_order() {
    let program = parse_program("proc.a add end proc.b.2 exec.a end begin exec.b push.5 end");
    let program = program.unwrap();
    assert_eq!(program.local_procs.len(), 2);
    assert_eq!(program.local_procs[0].name, "a");
    assert_eq!(program.local_procs[1].num_locals, 2);
    assert!(matches!(program.body[0], Node::Instruction(Instruction::ExecLocal(1))));
    assert!(matches!(
        program.body[1],
        Node::Instruction(Instruction::Push(Felt { value: 5 }))
    ));
}

#[test]
fn earlier_programs_play_no_part() {
    let sources = [
        ("a", "use.b export.f exec.b::g push.1 end export.h push.2 end"),
        ("b", "use.c export.g call.c::k end"),
        ("c", "proc.i push.3 end export.k call.i end"),
        ("d", "use.c use.e export.x call.c::k exec.e::y end"),
    ];
    let programs = [
        "use.a begin call.a::f exec.a::h end",
        "use.b use.c begin exec.b::g call.c::k end",
        "use.d begin exec.d::x end",
        "use.a begin exec.a::nothing end",
    ];
    for earlier in programs {
        for source in programs {
            let mut used = Assembler::new().with_module_provider(Modules::new(&sources));
            let _ = used.compile(earlier);
            let mut fresh = Assembler::new().with_module_provider(Modules::new(&sources));
            match (used.compile(source), fresh.compile(source)) {
                (Ok(a), Ok(b)) => assert_eq!(a.root(), b.root()),
                (Err(a), Err(b)) => assert_eq!(format!("{:?}", a), format!("{:?}", b)),
                _ => panic!("expected the same outcome"),
            }
        }
    }
}

#[test]
fn modules_out_of_reach_play_no_part() {
    let sources = [
        ("m", "proc.h push.1 end proc.i push.2 end export.f call.h exec.i end"),
        ("n", "use.m export.x exec.m::h end"),
    ];
    let programs = [
        "use.m begin exec.m::f end",
        "use.m begin exec.m::i end",
        "use.m begin exec.m::missing end",
        "use.m use.n begin exec.m::f exec.n::x end",
    ];
    for earlier in programs {
        for source in &programs[..3] {
            let mut used = Assembler::new().with_module_provider(Modules::new(&sources));
            let _ = used.compile(earlier);
            let mut fresh = Assembler::new().with_module_provider(Modules::new(&sources));
            match (used.compile(source), fresh.compile(source)) {
                (Ok(a), Ok(b)) => assert_eq!(a.root(), b.root()),
                (Err(a), Err(b)) => {
                    assert!(matches!(a, AssemblerError::UndefinedImportedProc(_)));
                    assert_eq!(format!("{:?}", a), format!("{:?}", b));
                }
                _ => panic!("expected the same outcome"),
            }
        }
    }
}

#[test]
fn kernel_with_the_former_names_replaces_a_kernel() {
    let sources = [("m", "export.f push.7 end"), ("n", "export.g syscall.foo end")];
    let mut assembler = Assembler::new()
        .with_module_provider(Modules::new(&sources))
        .with_kernel("use.m export.foo exec.m::f end")
        .unwrap()
        .with_kernel("export.foo push.2 end export.bar push.3 end")
        .unwrap();
    let foo = span(&[push(2)]);
    let bar = span(&[push(3)]);
    assert_eq!(assembler.kernel().proc_hashes(), &vec![foo.hash(), bar.hash()]);
    assert_eq!(cached_names(&assembler), vec!["#sys::bar", "#sys::foo", "m::f"]);
    let program = assembler
        .compile("use.m begin syscall.foo syscall.bar call.m::f end")
        .unwrap();
    let mut calls = Vec::new();
    let mut syscalls = Vec::new();
    targets(program.root(), &mut calls, &mut syscalls);
    assert_eq!(syscalls, vec![foo.hash(), bar.hash()]);
    assert_eq!(calls, vec![span(&[push(7)]).hash()]);
    for digest in syscalls {
        assert!(program.kernel().proc_hashes().contains(&digest));
        assert!(program.cb_table().get(digest).is_some());
    }
    for digest in calls {
        assert!(program.cb_table().get(digest).is_some());
    }
    let program = assembler.compile("use.n begin exec.n::g end").unwrap();
    assert_eq!(program.root(), &CodeBlock::new_syscall(foo.hash()));
    assert!(program.cb_table().get(foo.hash()).is_some());
}

#[test]
fn kernel_set_again_changes_nothing() {
    let source = "export.foo push.2 end";
    let modules = Modules::new(&[]);
    let first = Assembler::new()
        .with_module_provider(modules)
        .with_kernel("export.foo push.1 end export.bar add end")
        .unwrap()
        .with_kernel(source)
        .unwrap();
    let hashes = first.kernel().proc_hashes().clone();
    let names = cached_names(&first);
    assert_eq!(hashes, vec![span(&[push(2)]).hash()]);
    assert_eq!(names, vec!["#sys::bar", "#sys::foo"]);
    let second = first.with_kernel(source).unwrap();
    assert_eq!(second.kernel().proc_hashes(), &hashes);
    assert_eq!(cached_names(&second), names);
    let foo = second.proc_cache().get(&ProcedureId::new("#sys", "foo")).unwrap();
    assert_eq!(foo.code_root(), &span(&[push(2)]));
}

#[test]
fn called_internals_are_found_only_once_compiled() {
    let sources = [("m", "proc.h push.1 end export.f call.h end")];
    let mut assembler = Assembler::new().with_module_provider(Modules::new(&sources));
    let source = "use.m begin exec.m::h end";
    let result = assembler.compile(source);
    assert!(matches!(result, Err(AssemblerError::UndefinedImportedProc(_))));
    assembler.compile("use.m begin exec.m::f end").unwrap();
    assert_eq!(assembler.compile(source).unwrap().root(), &span(&[push(1)]));
}

#[test]
fn failed_modules_leave_nothing_at_their_path() {
    let sources = [
        ("a", "use.b use.c export.f exec.b::g end export.h exec.c::missing end"),
        ("b", "export.g push.1 end"),
    ];
    let mut assembler = Assembler::new().with_module_provider(Modules::new(&sources));
    let result = assembler.compile("use.a begin exec.a::f end");
    assert!(matches!(result, Err(AssemblerError::UndefinedImportedProc(_))));
    assert_eq!(cached_names(&assembler), vec!["b::g"]);
    for proc in assembler.proc_cache().values().iter() {
        let found = assembler.proc_cache().get(proc.id()).unwrap();
        assert_eq!(found.id().name(), proc.id().name());
    }
}

#[test]
fn prologue_and_epilogue_stand_around_an_empty_body() {
    let source = "proc.foo.2 repeat.0 add end end begin exec.foo end";
    let program = Assembler::new().compile(source).unwrap();
    let expected = span(&[
        push(2),
        Operation::FmpUpdate,
        push(MODULUS - 2),
        Operation::FmpUpdate,
    ]);
    assert_eq!(program.root(), &expected);
}

#[test]
fn prologue_and_epilogue_stay_out_of_branches() {
    let source = "proc.foo.2 if.true add end while.true add end end begin exec.foo end";
    let program = Assembler::new().compile(source).unwrap();
    let expected = combine_blocks(vec![
        span(&[push(2), Operation::FmpUpdate]),
        CodeBlock::new_split(span(&[Operation::Add]), span(&[Operation::Noop])),
        CodeBlock::new_loop(span(&[Operation::Add])),
        span(&[push(MODULUS - 2), Operation::FmpUpdate]),
    ]);
    assert_eq!(program.root(), &expected);
}
