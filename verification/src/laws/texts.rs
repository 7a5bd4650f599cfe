//! From the text of a source to the code of which it speaks.
use vstd::prelude::*;

use crate::assembler::SpecAssembler;
use crate::ast::{SpecInstruction, SpecNode, SpecProcAst, SpecProgramAst};
use crate::code_block::Mast;
use crate::felt::{Felt, MODULUS};
use crate::hasher::Digest;
use crate::laws::{blocks, meaning, rows, shapes, sources, tokens, units, words};
use crate::operation::Operation;
use crate::parsers::parser::SpecReader;
use crate::parsers::token::{SpecTarget, SpecToken};
use crate::procedure::{CallSet, ProcId, SpecProc};
use crate::program::SpecProgram;
use crate::semantics::{Catalogue, Fault, Outcome, Scope};

verus! {

/// The word which executes in place, or calls, the procedure of a module which is imported under
/// the given name.
pub open spec fn use_of(is_call: bool, alias: Seq<char>, name: Seq<char>) -> Seq<char> {
    let target = alias.push(':').push(':') + name;
    if is_call {
        tokens::dotted("call"@, target)
    } else {
        tokens::dotted("exec"@, target)
    }
}

/// The instruction which executes in place, or calls, a procedure of another module.
pub open spec fn instruction_of(is_call: bool, id: ProcId) -> SpecInstruction {
    if is_call {
        SpecInstruction::CallImported(id)
    } else {
        SpecInstruction::ExecImported(id)
    }
}

/// Words of nodes which stand one behind the other.
proof fn lemma_spells_append(
    imports: Seq<(Seq<char>, Seq<char>)>,
    procs: Seq<SpecProcAst>,
    first: Seq<Seq<char>>,
    first_nodes: Seq<SpecNode>,
    second: Seq<Seq<char>>,
    second_nodes: Seq<SpecNode>,
)
    requires
        sources::spells_nodes(imports, procs, first, first_nodes),
        sources::spells_nodes(imports, procs, second, second_nodes),
    ensures
        sources::spells_nodes(imports, procs, first + second, first_nodes + second_nodes),
    decreases second_nodes.len(),
{
    let all = first + second;
    let nodes = first_nodes + second_nodes;
    if second_nodes.len() == 0 {
        assert(all =~= first);
        assert(nodes =~= first_nodes);
    } else {
        let k = choose|k: int|
            0 <= k <= second.len() && sources::spells_nodes(
                imports,
                procs,
                #[trigger] second.take(k),
                second_nodes.drop_last(),
            ) && sources::spells_node(
                imports,
                procs,
                second.skip(k),
                second_nodes[second_nodes.len() - 1],
            );
        lemma_spells_append(
            imports,
            procs,
            first,
            first_nodes,
            second.take(k),
            second_nodes.drop_last(),
        );
        let j = first.len() + k;
        assert(all.take(j) =~= first + second.take(k));
        assert(all.skip(j) =~= second.skip(k));
        assert(nodes.drop_last() =~= first_nodes + second_nodes.drop_last());
        assert(nodes[nodes.len() - 1] == second_nodes[second_nodes.len() - 1]);
    }
}

/// A word of an instruction, as words of nodes.
proof fn lemma_spells_one(
    imports: Seq<(Seq<char>, Seq<char>)>,
    procs: Seq<SpecProcAst>,
    word: Seq<char>,
    instruction: SpecInstruction,
)
    requires
        sources::spells_instruction(imports, procs, word, instruction),
    ensures
        sources::spells_nodes(
            imports,
            procs,
            seq![word],
            seq![SpecNode::Instruction(instruction)],
        ),
{
    let node = SpecNode::Instruction(instruction);
    let one = seq![word];
    assert(one.take(0) =~= Seq::empty());
    assert(one.skip(0) =~= one);
    assert(one[0] == word);
    assert(sources::spells_node(imports, procs, one, node));
    assert(seq![node].drop_last() =~= Seq::empty());
    assert(sources::spells_nodes(imports, procs, one.take(0), seq![node].drop_last()));
    assert(seq![node][seq![node].len() - 1] == node);
}

/// A source which imports modules and has a main body denotes the program of that body.
proof fn lemma_main_source(
    source: Seq<char>,
    uses: Seq<Seq<char>>,
    imports: Seq<(Seq<char>, Seq<char>)>,
    body_words: Seq<Seq<char>>,
    body: Seq<SpecNode>,
)
    requires
        sources::spells_imports(uses, imports),
        sources::spells_nodes(imports, Seq::empty(), body_words, body),
        body.len() > 0,
        words::laid_out(source, uses.push("begin"@) + body_words.push("end"@)),
    ensures
        SpecReader::program(source) == Some(SpecProgramAst { procs: Seq::empty(), body }),
{
    let all = uses.push("begin"@) + body_words.push("end"@);
    let program = SpecProgramAst { procs: Seq::empty(), body };
    let k = uses.len() as int;
    let main = all.skip(k);
    let last = main.len() - 1;
    assert(all.take(k) =~= uses);
    assert(main[0] == "begin"@);
    assert(main[last] == "end"@);
    assert(main.subrange(1, last) =~= body_words);
    assert(sources::spells_main(imports, program.procs, main, body));
    assert(sources::spells_procs(imports, all.take(k), program.procs));
    assert(sources::spells_program(all, program));
    sources::lemma_program_source(source, all, program);
}

/// If a source imports modules under different names, both `exec.x::f` and `call.x::f` in its
/// main body denote the procedure `f` of the module at the path whose last name is `x`, whatever
/// the order and the number of the imports, and whatever stands around the word.
pub proof fn lemma_imported_names(
    source: Seq<char>,
    uses: Seq<Seq<char>>,
    imports: Seq<(Seq<char>, Seq<char>)>,
    alias: Seq<char>,
    path: Seq<char>,
    name: Seq<char>,
    is_call: bool,
    front_words: Seq<Seq<char>>,
    front: Seq<SpecNode>,
    back_words: Seq<Seq<char>>,
    back: Seq<SpecNode>,
)
    requires
        sources::spells_imports(uses, imports),
        sources::is_imported(imports, alias, path),
        tokens::is_label(name),
        sources::spells_nodes(imports, Seq::empty(), front_words, front),
        sources::spells_nodes(imports, Seq::empty(), back_words, back),
        words::laid_out(
            source,
            uses.push("begin"@) + (front_words.push(use_of(is_call, alias, name))
                + back_words).push("end"@),
        ),
    ensures
        SpecReader::program(source) == Some(
            SpecProgramAst {
                procs: Seq::empty(),
                body: front.push(
                    SpecNode::Instruction(instruction_of(is_call, ProcId { module: path, name })),
                ) + back,
            },
        ),
{
    let procs = Seq::<SpecProcAst>::empty();
    let id = ProcId { module: path, name };
    let word = use_of(is_call, alias, name);
    let instruction = instruction_of(is_call, id);
    let node = SpecNode::Instruction(instruction);
    let target = SpecTarget::Imported(alias, name);
    let text = alias.push(':').push(':') + name;
    let i = choose|i: int| 0 <= i < imports.len() && #[trigger] imports[i] == (alias, path);
    assert(tokens::spelled(uses[i], SpecToken::Use(imports[i].1, imports[i].0)));
    let names = choose|names: Seq<Seq<char>>| #[trigger]
        tokens::are_labels(names) && path == tokens::pathed(names) && alias == names.last();
    assert(tokens::is_label(names[names.len() - 1]));
    assert(tokens::names_target(text, target));
    if is_call {
        assert(word == tokens::dotted("call"@, text));
        assert(tokens::spelled(word, SpecToken::Call(target)));
        assert(sources::means(imports, procs, SpecToken::Call(target), instruction));
    } else {
        assert(word == tokens::dotted("exec"@, text));
        assert(tokens::spelled(word, SpecToken::Exec(target)));
        assert(sources::means(imports, procs, SpecToken::Exec(target), instruction));
    }
    lemma_spells_one(imports, procs, word, instruction);
    lemma_spells_append(imports, procs, front_words, front, seq![word], seq![node]);
    assert(front_words + seq![word] =~= front_words.push(word));
    assert(front + seq![node] =~= front.push(node));
    lemma_spells_append(
        imports,
        procs,
        front_words.push(word),
        front.push(node),
        back_words,
        back,
    );
    lemma_main_source(
        source,
        uses,
        imports,
        front_words.push(word) + back_words,
        front.push(node) + back,
    );
}

/// True if the word is the head of the procedure: `proc` or `export`, a dot and the name, and
/// behind another dot the number of locals, which can be left out if there are none.
pub open spec fn is_head(head: Seq<char>, proc: SpecProcAst) -> bool {
    let short = if proc.is_export {
        "export"@.push('.') + proc.name
    } else {
        "proc"@.push('.') + proc.name
    };
    ||| head == short && proc.num_locals == 0
    ||| exists|number: Seq<char>|
        head == short.push('.') + number && #[trigger] words::writes(
            number,
            proc.num_locals as int,
        )
}

/// A source which is a single procedure, with or without `export`, and with or without a number
/// of locals behind its name, denotes a procedure with exactly that name, that number of locals
/// and that body.
pub proof fn lemma_procedure_text(
    source: Seq<char>,
    head: Seq<char>,
    body_words: Seq<Seq<char>>,
    proc: SpecProcAst,
)
    requires
        words::laid_out(source, seq![head] + body_words.push("end"@)),
        tokens::is_label(proc.name),
        proc.num_locals <= 0xffff,
        is_head(head, proc),
        proc.body.len() > 0,
        sources::spells_nodes(Seq::empty(), Seq::empty(), body_words, proc.body),
    ensures
        SpecReader::module(source) == Some(seq![proc]),
{
    let all = seq![head] + body_words.push("end"@);
    let none = Seq::<(Seq<char>, Seq<char>)>::empty();
    let procs = seq![proc];
    let last = all.len() - 1;
    let short = if proc.is_export {
        "export"@.push('.') + proc.name
    } else {
        "proc"@.push('.') + proc.name
    };
    assert(short == tokens::head(proc.is_export, proc.name));
    if !(head == short && proc.num_locals == 0) {
        let number = choose|number: Seq<char>|
            head == short.push('.') + number && #[trigger] words::writes(
                number,
                proc.num_locals as int,
            );
        assert(head == tokens::dotted(short, number));
    }
    assert(tokens::spelled(
        head,
        SpecToken::Proc(proc.name, proc.is_export, proc.num_locals),
    ));
    assert(all[0] == head);
    assert(all[last] == "end"@);
    assert(all.subrange(1, last) =~= body_words);
    assert(sources::spells_proc(none, Seq::empty(), all, proc));
    assert(all.take(0) =~= Seq::empty());
    assert(all.skip(0) =~= all);
    assert(procs.drop_last() =~= Seq::empty());
    assert(sources::spells_imports(all.take(0), none));
    assert(sources::spells_procs(none, all.take(0), procs.drop_last()));
    assert(sources::spells_procs(none, all, procs));
    sources::lemma_module_source(source, all, procs);
}

/// True if a module comes to one procedure whose code is the blocks of its body, with a span before
/// them which pushes the number of its locals and moves the free memory pointer by it, and a span
/// behind them which pushes the negation of that number and moves the pointer by it. So the code
/// starts with the first two operations and ends with the last two.
pub open spec fn reserves_and_releases(
    lib: Catalogue,
    in_kernel: bool,
    cache: Map<ProcId, SpecProc>,
    path: Seq<char>,
    proc: SpecProcAst,
    outcome: Outcome<Seq<SpecProc>>,
) -> bool {
    let n = proc.num_locals as u64;
    let up = seq![Operation::Push(Felt { value: n }), Operation::FmpUpdate];
    let down = seq![
        Operation::Push(Felt { value: (MODULUS - n) as u64 }),
        Operation::FmpUpdate,
    ];
    let scope = Scope { in_kernel, active: seq![path], procs: Seq::empty() };
    match rows::row(lib, scope, cache, Seq::empty(), proc.body) {
        (after, Err(fault)) => outcome == (after, Err::<Seq<SpecProc>, Fault>(fault)),
        (_, Ok((body, _))) => {
            let all = shapes::glued(
                shapes::glued(seq![Mast::Span(up)], body),
                seq![Mast::Span(down)],
            );
            &&& outcome.1 matches Ok(compiled)
            &&& compiled.len() == 1
            &&& compiled[0].id == (ProcId { module: path, name: proc.name })
            &&& compiled[0].is_export == proc.is_export
            &&& compiled[0].root == Mast::tree(all)
            &&& starts_and_ends(compiled[0].root.atoms(), up, down)
        },
    }
}

/// A module of one procedure, exported or not, which has locals: its code reserves them before
/// its body and releases them behind it. An error in the body is an error in the module.
pub proof fn lemma_procedure_code(
    lib: Catalogue,
    in_kernel: bool,
    cache: Map<ProcId, SpecProc>,
    path: Seq<char>,
    proc: SpecProcAst,
)
    requires
        proc.num_locals > 0,
    ensures
        reserves_and_releases(
            lib,
            in_kernel,
            cache,
            path,
            proc,
            lib.module(in_kernel, Seq::empty(), cache, path, seq![proc]),
        ),
{
    let scope = Scope { in_kernel, active: seq![path], procs: Seq::empty() };
    lemma_module_of_one(lib, in_kernel, cache, path, proc);
    lemma_wrapped(lib, scope, cache, proc);
    match rows::row(lib, scope, cache, Seq::empty(), proc.body) {
        (_, Ok((body, _))) => {
            lemma_starts_and_ends(
                units::reserving(proc.num_locals),
                body,
                units::releasing(proc.num_locals),
            );
        },
        _ => {},
    }
}

/// The code which is compiled from a source of one procedure with locals, such as
/// `export.name.n`, a body and `end`, reserves them before the body and releases them behind it.
pub proof fn lemma_procedure_source(
    source: Seq<char>,
    head: Seq<char>,
    body_words: Seq<Seq<char>>,
    proc: SpecProcAst,
    lib: Catalogue,
    in_kernel: bool,
    cache: Map<ProcId, SpecProc>,
    path: Seq<char>,
)
    requires
        words::laid_out(source, seq![head] + body_words.push("end"@)),
        tokens::is_label(proc.name),
        0 < proc.num_locals <= 0xffff,
        is_head(head, proc),
        proc.body.len() > 0,
        sources::spells_nodes(Seq::empty(), Seq::empty(), body_words, proc.body),
    ensures
        SpecReader::module(source) matches Some(procs) && reserves_and_releases(
            lib,
            in_kernel,
            cache,
            path,
            proc,
            lib.module(in_kernel, Seq::empty(), cache, path, procs),
        ),
{
    lemma_procedure_text(source, head, body_words, proc);
    lemma_procedure_code(lib, in_kernel, cache, path, proc);
}

/// True if the atoms start with the first operations and end with the second.
pub open spec fn starts_and_ends(
    atoms: Seq<Mast>,
    first: Seq<Operation>,
    second: Seq<Operation>,
) -> bool {
    &&& atoms.len() >= first.len() + second.len()
    &&& forall|i: int|
        0 <= i < first.len() ==> #[trigger] atoms[i] == Mast::Span(seq![first[i]])
    &&& forall|i: int|
        0 <= i < second.len() ==> atoms[atoms.len() - second.len() + i] == Mast::Span(
            seq![#[trigger] second[i]],
        )
}

/// What two rows of blocks execute, one after the other.
proof fn lemma_append_atoms(first: Seq<Mast>, second: Seq<Mast>)
    ensures
        Mast::all_atoms(first + second) == Mast::all_atoms(first) + Mast::all_atoms(second),
    decreases second.len(),
{
    let all = first + second;
    if second.len() == 0 {
        assert(all =~= first);
        assert(Mast::all_atoms(all) =~= Mast::all_atoms(first) + Mast::all_atoms(second));
    } else {
        lemma_append_atoms(first, second.drop_last());
        assert(all.drop_last() =~= first + second.drop_last());
        assert(all.last() == second.last());
        assert(Mast::all_atoms(all) =~= Mast::all_atoms(first) + Mast::all_atoms(second));
    }
}

/// What a single block executes.
proof fn lemma_one_atoms(block: Mast)
    ensures
        Mast::all_atoms(seq![block]) == block.atoms(),
{
    reveal_with_fuel(Mast::all_atoms, 2);
    assert(seq![block].drop_last() =~= Seq::empty());
    assert(Mast::all_atoms(seq![block]) =~= block.atoms());
}

/// What is executed does not change when a span and a span become one.
proof fn lemma_glued_atoms(first: Seq<Mast>, second: Seq<Mast>)
    ensures
        Mast::all_atoms(shapes::glued(first, second)) == Mast::all_atoms(first)
            + Mast::all_atoms(second),
{
    lemma_append_atoms(first, second);
    if first.len() > 0 && second.len() > 0 {
        match (first.last(), second[0]) {
            (Mast::Span(before), Mast::Span(after)) => {
                let front = first.drop_last();
                let back = second.drop_first();
                let middle = seq![Mast::Span(before + after)];
                assert(first =~= front + seq![first.last()]);
                assert(second =~= seq![second[0]] + back);
                lemma_append_atoms(front, seq![first.last()]);
                lemma_append_atoms(seq![second[0]], back);
                lemma_append_atoms(front, middle);
                lemma_append_atoms(front + middle, back);
                lemma_one_atoms(first.last());
                lemma_one_atoms(second[0]);
                lemma_one_atoms(Mast::Span(before + after));
                blocks::lemma_span_atoms(before, after);
                assert(Mast::all_atoms(shapes::glued(first, second)) =~= Mast::all_atoms(first)
                    + Mast::all_atoms(second));
            },
            _ => {},
        }
    }
}

/// How code starts and ends which has operations around it.
proof fn lemma_starts_and_ends(up: Seq<Operation>, body: Seq<Mast>, down: Seq<Operation>)
    ensures
        ({
            let all = shapes::glued(
                shapes::glued(seq![Mast::Span(up)], body),
                seq![Mast::Span(down)],
            );
            starts_and_ends(Mast::tree(all).atoms(), up, down)
        }),
{
    let start = shapes::glued(seq![Mast::Span(up)], body);
    let all = shapes::glued(start, seq![Mast::Span(down)]);
    let atoms = Mast::tree(all).atoms();
    let middle = Mast::all_atoms(body);
    blocks::lemma_tree_keeps_atoms(all);
    lemma_glued_atoms(seq![Mast::Span(up)], body);
    lemma_glued_atoms(start, seq![Mast::Span(down)]);
    lemma_one_atoms(Mast::Span(up));
    lemma_one_atoms(Mast::Span(down));
    assert(atoms == Mast::Span(up).atoms() + middle + Mast::Span(down).atoms());
    assert forall|i: int| 0 <= i < up.len() implies #[trigger] atoms[i] == Mast::Span(
        seq![up[i]],
    ) by {
        assert(atoms[i] == Mast::Span(up).atoms()[i]);
    }
    assert forall|i: int| 0 <= i < down.len() implies atoms[atoms.len() - down.len() + i]
        == Mast::Span(seq![#[trigger] down[i]]) by {
        assert(atoms[atoms.len() - down.len() + i] == Mast::Span(down).atoms()[i]);
    }
}

/// The outcome of a body with operations around it.
spec fn wrapped(
    up: Seq<Operation>,
    row: Outcome<(Seq<Mast>, Seq<ProcId>)>,
    down: Seq<Operation>,
) -> Outcome<(Mast, Seq<ProcId>)> {
    match row {
        (after, Err(fault)) => (after, Err(fault)),
        (after, Ok((body, end))) => {
            let all = shapes::glued(
                shapes::glued(seq![Mast::Span(up)], body),
                seq![Mast::Span(down)],
            );
            (after, Ok((Mast::tree(all), end)))
        },
    }
}

/// The outcome of a procedure with locals.
proof fn lemma_wrapped(
    lib: Catalogue,
    scope: Scope,
    cache: Map<ProcId, SpecProc>,
    proc: SpecProcAst,
)
    requires
        proc.num_locals > 0,
        scope.procs.len() == 0,
    ensures
        units::finishes(
            proc,
            ProcId { module: scope.active.last(), name: proc.name },
            wrapped(
                units::reserving(proc.num_locals),
                rows::row(lib, scope, cache, Seq::empty(), proc.body),
                units::releasing(proc.num_locals),
            ),
            lib.procedure(scope, cache, proc),
        ),
{
    let up = units::reserving(proc.num_locals);
    let down = units::releasing(proc.num_locals);
    let id = ProcId { module: scope.active.last(), name: proc.name };
    let none = Seq::<ProcId>::empty();
    assert(!units::has_id(scope.procs, id));
    assert(up.len() == 2 && down.len() == 2);
    let body = lib.body(scope, cache, none, up, proc.body, down);
    assert(body == wrapped(up, rows::row(lib, scope, cache, none, proc.body), down)) by {
        rows::lemma_body_of_row(lib, scope, cache, none, up, proc.body, down);
    }
    units::lemma_procedure(lib, scope, cache, proc);
}

/// A module of one procedure comes to that procedure.
proof fn lemma_module_of_one(
    lib: Catalogue,
    in_kernel: bool,
    cache: Map<ProcId, SpecProc>,
    path: Seq<char>,
    proc: SpecProcAst,
)
    ensures
        ({
            let scope = Scope { in_kernel, active: seq![path], procs: Seq::empty() };
            let outcome = lib.module(in_kernel, Seq::empty(), cache, path, seq![proc]);
            match lib.procedure(scope, cache, proc) {
                (after, Err(fault)) => outcome == (after, Err::<Seq<SpecProc>, Fault>(fault)),
                (_, Ok(compiled)) => outcome.1 == Ok::<Seq<SpecProc>, Fault>(seq![compiled]),
            }
        }),
{
    let scope = Scope { in_kernel, active: seq![path], procs: Seq::empty() };
    let none = Seq::<ProcId>::empty();
    assert(Seq::<Seq<char>>::empty().push(path) =~= seq![path]);
    units::lemma_module(lib, in_kernel, Seq::empty(), cache, path, seq![proc]);
    units::lemma_procedures_in_turn(
        lib,
        scope,
        cache,
        none,
        proc,
        Seq::empty(),
        Seq::empty(),
    );
    match lib.procedure(scope, cache, proc) {
        (_, Ok(compiled)) => {
            assert(Seq::<SpecProc>::empty().push(compiled) =~= seq![compiled]);
        },
        _ => {},
    }
}

/// A source of which the main body is a single word denotes the instruction of which the word is
/// a spelling.
proof fn lemma_one_word(source: Seq<char>, word: Seq<char>, instruction: SpecInstruction)
    requires
        words::laid_out(source, seq!["begin"@, word, "end"@]),
        sources::spells_instruction(Seq::empty(), Seq::empty(), word, instruction),
    ensures
        SpecReader::program(source) == Some(
            SpecProgramAst {
                procs: Seq::empty(),
                body: seq![SpecNode::Instruction(instruction)],
            },
        ),
{
    let none = Seq::<(Seq<char>, Seq<char>)>::empty();
    let uses = Seq::<Seq<char>>::empty();
    lemma_spells_one(none, Seq::empty(), word, instruction);
    assert(uses.push("begin"@) + seq![word].push("end"@) =~= seq!["begin"@, word, "end"@]);
    assert(sources::spells_imports(uses, none));
    lemma_main_source(
        source,
        uses,
        none,
        seq![word],
        seq![SpecNode::Instruction(instruction)],
    );
}

/// The outcome of a program without procedures.
proof fn lemma_only_main(
    assembler: SpecAssembler,
    source: Seq<char>,
    body: Seq<SpecNode>,
)
    requires
        SpecReader::program(source) == Some(SpecProgramAst { procs: Seq::empty(), body }),
    ensures
        ({
            let scope = Scope {
                in_kernel: false,
                active: seq!["#exec"@],
                procs: Seq::empty(),
            };
            let none = Seq::<ProcId>::empty();
            match rows::plain_body(assembler.catalogue, scope, assembler.cache, none, body) {
                (after, Err(fault)) => assembler.program(source) == (
                    after,
                    Err::<SpecProgram, Fault>(fault),
                ),
                (after, Ok((block, called))) => {
                    let outcome = assembler.program(source);
                    &&& outcome.0 == after
                    &&& outcome.1 matches Ok(program)
                    &&& program.root == block
                    &&& program.kernel == assembler.kernel
                    &&& units::tabulates(
                        Seq::empty(),
                        after,
                        CallSet::merging(none, called),
                        program.table,
                    )
                },
            }
        }),
{
    let lib = assembler.catalogue;
    let cache = assembler.cache;
    let none = Seq::<ProcId>::empty();
    let program = SpecProgramAst { procs: Seq::empty(), body };
    let scope = Scope { in_kernel: false, active: seq!["#exec"@], procs: Seq::empty() };
    units::lemma_sources(assembler, source);
    units::lemma_program(lib, cache, assembler.kernel, program);
    lib.lemma_program_procedures(scope, cache, none, program.procs);
}

/// The source `begin push.n end`, with `n` below the modulus, compiles to the operation which
/// pushes the element with the value `n`, and to nothing else; the source `begin add end`
/// compiles to the operation which adds, and to nothing else.
pub proof fn lemma_operation_text(
    assembler: SpecAssembler,
    source: Seq<char>,
    number: Seq<char>,
    n: int,
)
    requires
        words::writes(number, n),
        n < MODULUS,
    ensures
        words::laid_out(source, seq!["begin"@, "push"@.push('.') + number, "end"@]) ==> {
            let outcome = assembler.program(source);
            &&& outcome.0 == assembler.cache
            &&& outcome.1 matches Ok(program)
            &&& program.root == Mast::Span(
                seq![Operation::Push(Felt { value: n as u64 })],
            )
            &&& program.kernel == assembler.kernel
            &&& program.table == Map::<Digest, Mast>::empty()
        },
        words::laid_out(source, seq!["begin"@, "add"@, "end"@]) ==> {
            let outcome = assembler.program(source);
            &&& outcome.0 == assembler.cache
            &&& outcome.1 matches Ok(program)
            &&& program.root == Mast::Span(seq![Operation::Add])
            &&& program.kernel == assembler.kernel
            &&& program.table == Map::<Digest, Mast>::empty()
        },
{
    let none = Seq::<(Seq<char>, Seq<char>)>::empty();
    let scope = Scope { in_kernel: false, active: seq!["#exec"@], procs: Seq::empty() };
    let felt = Felt { value: n as u64 };
    meaning::lemma_operations(
        assembler.catalogue,
        scope,
        assembler.cache,
        Seq::empty(),
        felt,
    );
    shapes::lemma_merging_parts(Seq::empty(), Seq::empty(), Seq::empty(), arbitrary());
    if words::laid_out(source, seq!["begin"@, "push"@.push('.') + number, "end"@]) {
        let word = tokens::dotted("push"@, number);
        let token = SpecToken::Push(n as u64);
        let instruction = SpecInstruction::Push(felt);
        assert(tokens::spelled(word, token));
        assert(sources::means(none, Seq::empty(), token, instruction));
        lemma_one_word(source, word, instruction);
        lemma_only_main(assembler, source, seq![SpecNode::Instruction(instruction)]);
        lemma_empty_table(assembler.cache, assembler.program(source).1->Ok_0.table);
    }
    if words::laid_out(source, seq!["begin"@, "add"@, "end"@]) {
        let token = SpecToken::Add;
        let instruction = SpecInstruction::Add;
        assert(tokens::spelled("add"@, token));
        assert(sources::means(none, Seq::empty(), token, instruction));
        lemma_one_word(source, "add"@, instruction);
        lemma_only_main(assembler, source, seq![SpecNode::Instruction(instruction)]);
        lemma_empty_table(assembler.cache, assembler.program(source).1->Ok_0.table);
    }
}

/// A table is empty where nothing is called.
proof fn lemma_empty_table(cache: Map<ProcId, SpecProc>, table: Map<Digest, Mast>)
    requires
        units::tabulates(Seq::empty(), cache, Seq::empty(), table),
    ensures
        table == Map::<Digest, Mast>::empty(),
{
    let none = Seq::<ProcId>::empty();
    assert forall|digest: Digest| !#[trigger] table.contains_key(digest) by {
        if table.contains_key(digest) {
            let (id, proc) = choose|id: ProcId, proc: SpecProc| #[trigger]
                units::is_target(Seq::empty(), cache, none, digest, id, proc) && table[digest]
                    == proc.root;
            assert(none.contains(id));
        }
    }
    assert(table =~= Map::empty());
}

/// The source `begin syscall.f end` compiles to a system call of the digest of the kernel
/// procedure `f`, whatever its locals and its code.
pub proof fn lemma_system_call_text(
    assembler: SpecAssembler,
    source: Seq<char>,
    name: Seq<char>,
)
    requires
        tokens::is_label(name),
        words::laid_out(source, seq!["begin"@, "syscall"@.push('.') + name, "end"@]),
        assembler.cache.contains_key(ProcId { module: "#sys"@, name }),
    ensures
        ({
            let proc = assembler.cache[ProcId { module: "#sys"@, name }];
            let outcome = assembler.program(source);
            &&& outcome.0 == assembler.cache
            &&& outcome.1 matches Ok(program)
            &&& program.root == Mast::SysCall(proc.root.digest())
            &&& program.kernel == assembler.kernel
        }),
{
    let none = Seq::<(Seq<char>, Seq<char>)>::empty();
    let scope = Scope { in_kernel: false, active: seq!["#exec"@], procs: Seq::empty() };
    let word = tokens::dotted("syscall"@, name);
    let token = SpecToken::SysCall(name);
    let instruction = SpecInstruction::SysCall(name);
    assert(tokens::spelled(word, token));
    assert(sources::means(none, Seq::empty(), token, instruction));
    lemma_one_word(source, word, instruction);
    lemma_only_main(assembler, source, seq![SpecNode::Instruction(instruction)]);
    meaning::lemma_system_call(
        assembler.catalogue,
        scope,
        assembler.cache,
        Seq::empty(),
        name,
    );
}

} // verus!
