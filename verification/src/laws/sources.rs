//! What sources denote: the grammar of programs and modules.
use vstd::prelude::*;

use crate::ast::{SpecInstruction, SpecNode, SpecProcAst, SpecProgramAst};
use crate::felt::{Felt, MODULUS};
use crate::laws::{tokens, words};
use crate::parsers::parser::{SpecFrame, SpecKind, SpecReader};
use crate::parsers::token::{SpecTarget, SpecToken};
use crate::procedure::ProcId;

verus! {

/// True if the procedure at the given position is the first with the given name.
pub open spec fn is_first(procs: Seq<SpecProcAst>, index: int, name: Seq<char>) -> bool {
    &&& 0 <= index < procs.len()
    &&& procs[index].name == name
    &&& forall|i: int| 0 <= i < index ==> (#[trigger] procs[i]).name != name
}

/// True if the module at the path is imported and known by the given name.
pub open spec fn is_imported(
    imports: Seq<(Seq<char>, Seq<char>)>,
    alias: Seq<char>,
    path: Seq<char>,
) -> bool {
    exists|i: int| 0 <= i < imports.len() && #[trigger] imports[i] == (alias, path)
}

/// True if no two imported modules are known by the same name.
pub open spec fn are_told_apart(imports: Seq<(Seq<char>, Seq<char>)>) -> bool {
    forall|i: int, j: int|
        0 <= i < j < imports.len() ==> (#[trigger] imports[i]).0 != (#[trigger] imports[j]).0
}

/// True if the token stands for the instruction, behind the given imports and procedures: a name
/// alone stands for the first procedure with that name, and the name of a module and another for
/// the procedure of that other name in the module which was imported under the first.
pub open spec fn means(
    imports: Seq<(Seq<char>, Seq<char>)>,
    procs: Seq<SpecProcAst>,
    token: SpecToken,
    instruction: SpecInstruction,
) -> bool {
    match instruction {
        SpecInstruction::Add => token == SpecToken::Add,
        SpecInstruction::Push(felt) => token == SpecToken::Push(felt.value),
        SpecInstruction::ExecLocal(index) => {
            &&& token matches SpecToken::Exec(SpecTarget::Local(name))
            &&& is_first(procs, index as int, name)
        },
        SpecInstruction::ExecImported(id) => {
            &&& token matches SpecToken::Exec(SpecTarget::Imported(alias, name))
            &&& id.name == name
            &&& is_imported(imports, alias, id.module)
        },
        SpecInstruction::CallLocal(index) => {
            &&& token matches SpecToken::Call(SpecTarget::Local(name))
            &&& is_first(procs, index as int, name)
        },
        SpecInstruction::CallImported(id) => {
            &&& token matches SpecToken::Call(SpecTarget::Imported(alias, name))
            &&& id.name == name
            &&& is_imported(imports, alias, id.module)
        },
        SpecInstruction::SysCall(name) => token == SpecToken::SysCall(name),
    }
}

/// True if the word is a spelling of the instruction.
pub open spec fn spells_instruction(
    imports: Seq<(Seq<char>, Seq<char>)>,
    procs: Seq<SpecProcAst>,
    word: Seq<char>,
    instruction: SpecInstruction,
) -> bool {
    exists|token: SpecToken| #[trigger]
        tokens::spelled(word, token) && means(imports, procs, token, instruction)
}

/// True if the words are a spelling of the node: an instruction is one word; other nodes start
/// with a word of their own, have their bodies behind it, and end with `end`.
pub open spec fn spells_node(
    imports: Seq<(Seq<char>, Seq<char>)>,
    procs: Seq<SpecProcAst>,
    words: Seq<Seq<char>>,
    node: SpecNode,
) -> bool
    decreases node, 0nat,
{
    let last = words.len() - 1;
    match node {
        SpecNode::Instruction(instruction) => words.len() == 1 && spells_instruction(
            imports,
            procs,
            words[0],
            instruction,
        ),
        SpecNode::IfElse(on_true, on_false) => {
            &&& last > 0
            &&& tokens::spelled(words[0], SpecToken::IfTrue)
            &&& tokens::spelled(words[last], SpecToken::End)
            &&& on_true.len() > 0
            &&& if on_false.len() == 0 {
                spells_nodes(imports, procs, words.subrange(1, last), on_true)
            } else {
                exists|k: int|
                    0 < k < last && tokens::spelled(#[trigger] words[k], SpecToken::Else)
                        && spells_nodes(imports, procs, words.subrange(1, k), on_true)
                        && spells_nodes(imports, procs, words.subrange(k + 1, last), on_false)
            }
        },
        SpecNode::Repeat(count, body) => {
            &&& last > 0
            &&& tokens::spelled(words[0], SpecToken::Repeat(count))
            &&& tokens::spelled(words[last], SpecToken::End)
            &&& body.len() > 0
            &&& spells_nodes(imports, procs, words.subrange(1, last), body)
        },
        SpecNode::While(body) => {
            &&& last > 0
            &&& tokens::spelled(words[0], SpecToken::WhileTrue)
            &&& tokens::spelled(words[last], SpecToken::End)
            &&& body.len() > 0
            &&& spells_nodes(imports, procs, words.subrange(1, last), body)
        },
    }
}

/// True if the words are spellings of the nodes, one behind the other.
pub open spec fn spells_nodes(
    imports: Seq<(Seq<char>, Seq<char>)>,
    procs: Seq<SpecProcAst>,
    words: Seq<Seq<char>>,
    nodes: Seq<SpecNode>,
) -> bool
    decreases nodes, 1nat,
{
    if nodes.len() == 0 {
        words.len() == 0
    } else {
        exists|k: int|
            0 <= k <= words.len() && spells_nodes(
                imports,
                procs,
                #[trigger] words.take(k),
                nodes.drop_last(),
            ) && spells_node(imports, procs, words.skip(k), nodes[nodes.len() - 1])
    }
}

/// True if the words import the modules, one behind the other: each word names the path of a
/// module, which is known from there on by the last name in its path.
pub open spec fn spells_imports(
    words: Seq<Seq<char>>,
    imports: Seq<(Seq<char>, Seq<char>)>,
) -> bool {
    &&& words.len() == imports.len()
    &&& are_told_apart(imports)
    &&& forall|i: int|
        0 <= i < words.len() ==> tokens::spelled(
            #[trigger] words[i],
            SpecToken::Use(imports[i].1, imports[i].0),
        )
}

/// True if the words are a spelling of the procedure: its head, its body, and `end`.
pub open spec fn spells_proc(
    imports: Seq<(Seq<char>, Seq<char>)>,
    before: Seq<SpecProcAst>,
    words: Seq<Seq<char>>,
    proc: SpecProcAst,
) -> bool {
    let last = words.len() - 1;
    &&& last > 0
    &&& tokens::spelled(words[0], SpecToken::Proc(proc.name, proc.is_export, proc.num_locals))
    &&& tokens::spelled(words[last], SpecToken::End)
    &&& proc.body.len() > 0
    &&& spells_nodes(imports, before, words.subrange(1, last), proc.body)
}

/// True if the words import the modules and define the procedures behind that, in this order.
pub open spec fn spells_procs(
    imports: Seq<(Seq<char>, Seq<char>)>,
    words: Seq<Seq<char>>,
    procs: Seq<SpecProcAst>,
) -> bool
    decreases procs.len(),
{
    if procs.len() == 0 {
        spells_imports(words, imports)
    } else {
        exists|k: int|
            0 <= k <= words.len() && spells_procs(
                imports,
                #[trigger] words.take(k),
                procs.drop_last(),
            ) && spells_proc(imports, procs.drop_last(), words.skip(k), procs.last())
    }
}

/// True if the words are a spelling of the main body of a program.
pub open spec fn spells_main(
    imports: Seq<(Seq<char>, Seq<char>)>,
    procs: Seq<SpecProcAst>,
    words: Seq<Seq<char>>,
    body: Seq<SpecNode>,
) -> bool {
    let last = words.len() - 1;
    &&& last > 0
    &&& tokens::spelled(words[0], SpecToken::Begin)
    &&& tokens::spelled(words[last], SpecToken::End)
    &&& body.len() > 0
    &&& spells_nodes(imports, procs, words.subrange(1, last), body)
}

/// True if the words are a spelling of a module with the given procedures.
pub open spec fn spells_module(words: Seq<Seq<char>>, procs: Seq<SpecProcAst>) -> bool {
    exists|imports: Seq<(Seq<char>, Seq<char>)>| #[trigger] spells_procs(imports, words, procs)
}

/// True if the words are a spelling of the program: imports, procedures, and the main body.
pub open spec fn spells_program(words: Seq<Seq<char>>, program: SpecProgramAst) -> bool {
    exists|imports: Seq<(Seq<char>, Seq<char>)>, k: int|
        0 <= k <= words.len() && #[trigger] spells_procs(imports, words.take(k), program.procs)
            && spells_main(imports, program.procs, words.skip(k), program.body)
}

/// The element of a number below the modulus has that number.
pub proof fn lemma_felt(n: int)
    ensures
        Felt::of(n).wf(),
        (Felt::of(n).value - n) % (MODULUS as int) == 0,
        0 <= n < MODULUS ==> Felt::of(n).value == n,
{
    let m = MODULUS as int;
    vstd::arithmetic::div_mod::lemma_fundamental_div_mod(n, m);
    assert(n % m - n == m * (-(n / m))) by (nonlinear_arith)
        requires
            n == m * (n / m) + n % m,
    ;
    vstd::arithmetic::div_mod::lemma_mod_multiples_basic(-(n / m), m);
    assert(m * (-(n / m)) == (-(n / m)) * m) by (nonlinear_arith);
    if 0 <= n < MODULUS {
        vstd::arithmetic::div_mod::lemma_small_mod(n as nat, MODULUS as nat);
    }
}

/// The position of a name is that of the first procedure with it.
proof fn lemma_position(procs: Seq<SpecProcAst>, name: Seq<char>)
    ensures
        SpecReader::position(procs, name) matches Some(index) ==> is_first(procs, index, name),
        SpecReader::position(procs, name) is None ==> forall|i: int|
            0 <= i < procs.len() ==> (#[trigger] procs[i]).name != name,
    decreases procs.len(),
{
    if procs.len() > 0 {
        let front = procs.drop_last();
        lemma_position(front, name);
        match SpecReader::position(front, name) {
            Some(index) => {
                assert(procs[index] == front[index]);
                assert forall|i: int| 0 <= i < index implies (#[trigger] procs[i]).name
                    != name by {
                    assert(front[i] == procs[i]);
                }
            },
            None => {
                assert forall|i: int| 0 <= i < front.len() implies (#[trigger] procs[i]).name
                    != name by {
                    assert(front[i] == procs[i]);
                }
            },
        }
    }
}

/// The path for a name is that of a module which is imported under it.
proof fn lemma_path_of(imports: Seq<(Seq<char>, Seq<char>)>, alias: Seq<char>)
    ensures
        SpecReader::path_of(imports, alias) matches Some(path) ==> is_imported(
            imports,
            alias,
            path,
        ),
        SpecReader::path_of(imports, alias) is None ==> forall|i: int|
            0 <= i < imports.len() ==> (#[trigger] imports[i]).0 != alias,
    decreases imports.len(),
{
    if imports.len() > 0 {
        let front = imports.drop_last();
        lemma_path_of(front, alias);
        match SpecReader::path_of(front, alias) {
            Some(path) => {
                let i = choose|i: int| 0 <= i < front.len() && #[trigger] front[i] == (alias, path);
                assert(imports[i] == (alias, path));
            },
            None => {
                assert forall|i: int| 0 <= i < front.len() implies (#[trigger] imports[i]).0
                    != alias by {
                    assert(front[i] == imports[i]);
                }
                assert(imports[imports.len() - 1] == imports.last());
            },
        }
    }
}

/// A token is read as the instruction for which it stands.
proof fn lemma_means(reader: SpecReader, token: SpecToken, instruction: SpecInstruction)
    requires
        are_told_apart(reader.imports),
        token matches SpecToken::Push(value) ==> value < MODULUS,
    ensures
        reader.instruction(token) == Some(instruction) <==> means(
            reader.imports,
            reader.procs,
            token,
            instruction,
        ),
{
    match token {
        SpecToken::Push(value) => {
            lemma_felt(value as int);
            if let SpecInstruction::Push(felt) = instruction {
                assert(felt == Felt { value: felt.value });
            }
        },
        SpecToken::Exec(SpecTarget::Local(name)) => {
            lemma_position(reader.procs, name);
        },
        SpecToken::Call(SpecTarget::Local(name)) => {
            lemma_position(reader.procs, name);
        },
        SpecToken::Exec(SpecTarget::Imported(alias, name)) => {
            lemma_path_of(reader.imports, alias);
            lemma_one_path(reader.imports, alias);
            if let SpecInstruction::ExecImported(id) = instruction {
                assert(id =~= ProcId { module: id.module, name: id.name });
            }
        },
        SpecToken::Call(SpecTarget::Imported(alias, name)) => {
            lemma_path_of(reader.imports, alias);
            lemma_one_path(reader.imports, alias);
            if let SpecInstruction::CallImported(id) = instruction {
                assert(id =~= ProcId { module: id.module, name: id.name });
            }
        },
        _ => {},
    }
}

/// A name stands for one module at most.
proof fn lemma_one_path(imports: Seq<(Seq<char>, Seq<char>)>, alias: Seq<char>)
    requires
        are_told_apart(imports),
    ensures
        forall|a: Seq<char>, b: Seq<char>|
            #[trigger] is_imported(imports, alias, a) && #[trigger] is_imported(imports, alias, b)
                ==> a == b,
{
    assert forall|a: Seq<char>, b: Seq<char>| #[trigger]
        is_imported(imports, alias, a) && #[trigger] is_imported(imports, alias, b) implies a
        == b by {
        let i = choose|i: int| 0 <= i < imports.len() && #[trigger] imports[i] == (alias, a);
        let j = choose|j: int| 0 <= j < imports.len() && #[trigger] imports[j] == (alias, b);
        if i < j {
            assert(imports[i].0 != imports[j].0);
        }
        if j < i {
            assert(imports[j].0 != imports[i].0);
        }
    }
}

/// A word is read as the instruction of which it is a spelling.
proof fn lemma_instruction_word(
    reader: SpecReader,
    word: Seq<char>,
    instruction: SpecInstruction,
)
    requires
        are_told_apart(reader.imports),
    ensures
        spells_instruction(reader.imports, reader.procs, word, instruction) <==> (
        SpecToken::read(word) matches Some(token) && reader.instruction(token) == Some(
            instruction,
        )),
{
    match SpecToken::read(word) {
        Some(token) => {
            tokens::lemma_token(word, token);
            lemma_means(reader, token, instruction);
        },
        None => {},
    }
    if spells_instruction(reader.imports, reader.procs, word, instruction) {
        let token = choose|token: SpecToken| #[trigger]
            tokens::spelled(word, token) && means(
                reader.imports,
                reader.procs,
                token,
                instruction,
            );
        tokens::lemma_token(word, token);
    }
}

/// Words are read one after another.
proof fn lemma_run_append(
    reader: SpecReader,
    is_program: bool,
    first: Seq<Seq<char>>,
    second: Seq<Seq<char>>,
)
    ensures
        reader.run(is_program, first + second) == (match reader.run(is_program, first) {
            Some(next) => next.run(is_program, second),
            None => None,
        }),
    decreases first.len(),
{
    if first.len() == 0 {
        assert(first + second =~= second);
    } else {
        assert((first + second)[0] == first[0]);
        assert((first + second).drop_first() =~= first.drop_first() + second);
        match reader.after(is_program, first[0]) {
            Some(next) => {
                lemma_run_append(next, is_program, first.drop_first(), second);
            },
            None => {},
        }
    }
}

/// The last word is read behind the others.
proof fn lemma_run_push(
    reader: SpecReader,
    is_program: bool,
    words: Seq<Seq<char>>,
    word: Seq<char>,
)
    ensures
        reader.run(is_program, words.push(word)) == (match reader.run(is_program, words) {
            Some(next) => next.after(is_program, word),
            None => None,
        }),
{
    assert(words.push(word) =~= words + seq![word]);
    lemma_run_append(reader, is_program, words, seq![word]);
    match reader.run(is_program, words) {
        Some(next) => {
            reveal_with_fuel(SpecReader::run, 3);
            assert(seq![word].drop_first() =~= Seq::empty());
        },
        None => {},
    }
}

/// The state with nodes added to the innermost body.
spec fn plus(reader: SpecReader, nodes: Seq<SpecNode>) -> SpecReader {
    let top = reader.frames.last();
    SpecReader {
        frames: reader.frames.drop_last().push(
            SpecFrame { kind: top.kind, nodes: top.nodes + nodes },
        ),
        ..reader
    }
}

/// The state with a body opened and nodes in it.
spec fn filled(reader: SpecReader, kind: SpecKind, nodes: Seq<SpecNode>) -> SpecReader {
    SpecReader { frames: reader.frames.push(SpecFrame { kind, nodes }), ..reader }
}

/// A body which is opened and gets nodes.
proof fn lemma_plus(
    reader: SpecReader,
    kind: SpecKind,
    nodes: Seq<SpecNode>,
    node: SpecNode,
)
    ensures
        plus(reader.opened(kind), nodes) == filled(reader, kind, nodes),
        reader.frames.len() > 0 ==> {
            &&& plus(reader, Seq::empty()) == reader
            &&& reader.with_node(node) == Some(plus(reader, seq![node]))
            &&& plus(plus(reader, nodes), seq![node]) == plus(reader, nodes.push(node))
        },
{
    let opened = reader.opened(kind);
    assert(opened.frames.drop_last() =~= reader.frames);
    assert(opened.frames.last().nodes + nodes =~= nodes);
    assert(plus(opened, nodes) =~= filled(reader, kind, nodes));
    if reader.frames.len() > 0 {
        let top = reader.frames.last();
        assert(top.nodes + Seq::<SpecNode>::empty() =~= top.nodes);
        assert(plus(reader, Seq::empty()) =~= reader);
        assert(top.nodes + seq![node] =~= top.nodes.push(node));
        assert(top.nodes + nodes + seq![node] =~= top.nodes + nodes.push(node));
        assert(plus(plus(reader, nodes), seq![node]) =~= plus(reader, nodes.push(node)));
    }
}

/// The state when a body has been opened and its nodes have been read.
proof fn lemma_run_filled(
    reader: SpecReader,
    is_program: bool,
    words: Seq<Seq<char>>,
    start: int,
    end: int,
    kind: SpecKind,
    nodes: Seq<SpecNode>,
)
    requires
        0 < start <= end <= words.len(),
        reader.run(is_program, words.take(start)) matches Some(middle) && {
            &&& middle == reader.opened(kind)
            &&& middle.run(is_program, words.subrange(start, end)) == Some(plus(middle, nodes))
        },
    ensures
        reader.run(is_program, words.take(end)) == Some(filled(reader, kind, nodes)),
{
    assert(words.take(end) =~= words.take(start) + words.subrange(start, end));
    lemma_run_append(reader, is_program, words.take(start), words.subrange(start, end));
    lemma_plus(reader, kind, nodes, arbitrary());
}

/// The state after one word.
proof fn lemma_run_one(reader: SpecReader, is_program: bool, words: Seq<Seq<char>>)
    requires
        words.len() > 0,
    ensures
        reader.run(is_program, words.take(1)) == reader.after(is_program, words[0]),
{
    lemma_run_push(reader, is_program, Seq::empty(), words[0]);
    assert(words.take(1) =~= Seq::empty().push(words[0]));
}

/// The nodes which words spell are read from them.
proof fn lemma_run_nodes(
    reader: SpecReader,
    is_program: bool,
    words: Seq<Seq<char>>,
    nodes: Seq<SpecNode>,
)
    requires
        reader.frames.len() > 0,
        are_told_apart(reader.imports),
        spells_nodes(reader.imports, reader.procs, words, nodes),
    ensures
        reader.run(is_program, words) == Some(plus(reader, nodes)),
    decreases nodes, 1nat,
{
    if nodes.len() == 0 {
        lemma_plus(reader, SpecKind::Main, nodes, arbitrary());
        assert(nodes =~= Seq::empty());
    } else {
        let front = nodes.drop_last();
        let node = nodes[nodes.len() - 1];
        let k = choose|k: int|
            0 <= k <= words.len() && spells_nodes(
                reader.imports,
                reader.procs,
                #[trigger] words.take(k),
                front,
            ) && spells_node(reader.imports, reader.procs, words.skip(k), node);
        lemma_run_nodes(reader, is_program, words.take(k), front);
        let middle = plus(reader, front);
        lemma_run_node(middle, is_program, words.skip(k), node);
        assert(words.take(k) + words.skip(k) =~= words);
        lemma_run_append(reader, is_program, words.take(k), words.skip(k));
        lemma_plus(reader, SpecKind::Main, front, node);
        assert(front.push(node) =~= nodes);
    }
}

/// The node which words spell is read from them.
proof fn lemma_run_node(
    reader: SpecReader,
    is_program: bool,
    words: Seq<Seq<char>>,
    node: SpecNode,
)
    requires
        reader.frames.len() > 0,
        are_told_apart(reader.imports),
        spells_node(reader.imports, reader.procs, words, node),
    ensures
        reader.run(is_program, words) == Some(plus(reader, seq![node])),
    decreases node, 0nat,
{
    let last = words.len() - 1;
    lemma_plus(reader, SpecKind::Main, Seq::empty(), node);
    lemma_run_one(reader, is_program, words);
    if let SpecNode::Instruction(instruction) = node {
        lemma_instruction_word(reader, words[0], instruction);
        assert(words.take(1) =~= words);
    } else {
        lemma_run_push(reader, is_program, words.take(last), words[last]);
        assert(words.take(last).push(words[last]) =~= words);
        tokens::lemma_token(words[last], SpecToken::End);
        match node {
            SpecNode::Instruction(_) => {},
            SpecNode::IfElse(on_true, on_false) => {
                let opened = reader.opened(SpecKind::IfTrue);
                tokens::lemma_token(words[0], SpecToken::IfTrue);
                if on_false.len() == 0 {
                    lemma_run_nodes(opened, is_program, words.subrange(1, last), on_true);
                    lemma_run_filled(
                        reader,
                        is_program,
                        words,
                        1,
                        last,
                        SpecKind::IfTrue,
                        on_true,
                    );
                    let inner = filled(reader, SpecKind::IfTrue, on_true);
                    assert(inner.frames.drop_last() =~= reader.frames);
                    assert((SpecReader { frames: inner.frames.drop_last(), ..inner }) =~= reader);
                    assert(on_false =~= Seq::empty());
                } else {
                    let k = choose|k: int|
                        0 < k < last && tokens::spelled(#[trigger] words[k], SpecToken::Else)
                            && spells_nodes(
                            reader.imports,
                            reader.procs,
                            words.subrange(1, k),
                            on_true,
                        ) && spells_nodes(
                            reader.imports,
                            reader.procs,
                            words.subrange(k + 1, last),
                            on_false,
                        );
                    let kind = SpecKind::Else(on_true);
                    let second = reader.opened(kind);
                    lemma_run_nodes(opened, is_program, words.subrange(1, k), on_true);
                    lemma_run_filled(reader, is_program, words, 1, k, SpecKind::IfTrue, on_true);
                    tokens::lemma_token(words[k], SpecToken::Else);
                    lemma_run_push(reader, is_program, words.take(k), words[k]);
                    assert(words.take(k).push(words[k]) =~= words.take(k + 1));
                    let inner = filled(reader, SpecKind::IfTrue, on_true);
                    assert(inner.frames.drop_last() =~= reader.frames);
                    assert((SpecReader { frames: inner.frames.drop_last(), ..inner }) =~= reader);
                    lemma_run_nodes(second, is_program, words.subrange(k + 1, last), on_false);
                    lemma_run_filled(reader, is_program, words, k + 1, last, kind, on_false);
                    let inner = filled(reader, kind, on_false);
                    assert(inner.frames.drop_last() =~= reader.frames);
                    assert((SpecReader { frames: inner.frames.drop_last(), ..inner }) =~= reader);
                }
            },
            SpecNode::Repeat(count, body) => {
                let kind = SpecKind::Repeat(count);
                tokens::lemma_token(words[0], SpecToken::Repeat(count));
                lemma_run_nodes(reader.opened(kind), is_program, words.subrange(1, last), body);
                lemma_run_filled(reader, is_program, words, 1, last, kind, body);
                let inner = filled(reader, kind, body);
                assert(inner.frames.drop_last() =~= reader.frames);
                assert((SpecReader { frames: inner.frames.drop_last(), ..inner }) =~= reader);
            },
            SpecNode::While(body) => {
                let kind = SpecKind::While;
                tokens::lemma_token(words[0], SpecToken::WhileTrue);
                lemma_run_nodes(reader.opened(kind), is_program, words.subrange(1, last), body);
                lemma_run_filled(reader, is_program, words, 1, last, kind, body);
                let inner = filled(reader, kind, body);
                assert(inner.frames.drop_last() =~= reader.frames);
                assert((SpecReader { frames: inner.frames.drop_last(), ..inner }) =~= reader);
            },
        }
    }
}

/// The state between procedures.
spec fn resting(
    imports: Seq<(Seq<char>, Seq<char>)>,
    procs: Seq<SpecProcAst>,
    main: Option<Seq<SpecNode>>,
) -> SpecReader {
    SpecReader { imports, procs, main, frames: Seq::empty() }
}

/// The imports which words spell are read from them.
proof fn lemma_run_imports(
    is_program: bool,
    words: Seq<Seq<char>>,
    imports: Seq<(Seq<char>, Seq<char>)>,
)
    requires
        spells_imports(words, imports),
    ensures
        SpecReader::start().run(is_program, words) == Some(
            resting(imports, Seq::empty(), None),
        ),
    decreases words.len(),
{
    if words.len() == 0 {
        assert(imports =~= Seq::empty());
        assert(SpecReader::start() =~= resting(imports, Seq::empty(), None));
    } else {
        let front = words.drop_last();
        let before = imports.drop_last();
        assert(spells_imports(front, before)) by {
            assert forall|i: int| 0 <= i < front.len() implies tokens::spelled(
                #[trigger] front[i],
                SpecToken::Use(before[i].1, before[i].0),
            ) by {
                assert(front[i] == words[i] && before[i] == imports[i]);
            }
            assert forall|i: int, j: int| 0 <= i < j < before.len() implies (
            #[trigger] before[i]).0 != (#[trigger] before[j]).0 by {
                assert(before[i] == imports[i] && before[j] == imports[j]);
            }
        }
        lemma_run_imports(is_program, front, before);
        let last = words.len() - 1;
        let (alias, path) = imports[last];
        assert(front.push(words[last]) =~= words);
        lemma_run_push(SpecReader::start(), is_program, front, words[last]);
        tokens::lemma_token(words[last], SpecToken::Use(path, alias));
        lemma_path_of(before, alias);
        if SpecReader::path_of(before, alias) is Some {
            let other = SpecReader::path_of(before, alias)->0;
            let i = choose|i: int| 0 <= i < before.len() && #[trigger] before[i] == (alias, other);
            assert(imports[i].0 != imports[last].0);
        }
        assert(before.push((alias, path)) =~= imports);
    }
}

/// The procedure which words spell is read from them.
proof fn lemma_run_proc(
    is_program: bool,
    imports: Seq<(Seq<char>, Seq<char>)>,
    before: Seq<SpecProcAst>,
    words: Seq<Seq<char>>,
    proc: SpecProcAst,
)
    requires
        are_told_apart(imports),
        spells_proc(imports, before, words, proc),
    ensures
        resting(imports, before, None).run(is_program, words) == Some(
            resting(imports, before.push(proc), None),
        ),
{
    let reader = resting(imports, before, None);
    let last = words.len() - 1;
    let kind = SpecKind::Proc(proc.name, proc.is_export, proc.num_locals);
    tokens::lemma_token(
        words[0],
        SpecToken::Proc(proc.name, proc.is_export, proc.num_locals),
    );
    tokens::lemma_token(words[last], SpecToken::End);
    lemma_run_one(reader, is_program, words);
    lemma_run_nodes(reader.opened(kind), is_program, words.subrange(1, last), proc.body);
    lemma_run_filled(reader, is_program, words, 1, last, kind, proc.body);
    assert(words.take(last).push(words[last]) =~= words);
    lemma_run_push(reader, is_program, words.take(last), words[last]);
    let inner = filled(reader, kind, proc.body);
    assert(inner.frames.drop_last() =~= reader.frames);
    assert(proc =~= SpecProcAst {
        name: proc.name,
        is_export: proc.is_export,
        num_locals: proc.num_locals,
        body: proc.body,
    });
}

/// Imports which words spell are told apart.
proof fn lemma_told_apart(
    imports: Seq<(Seq<char>, Seq<char>)>,
    words: Seq<Seq<char>>,
    procs: Seq<SpecProcAst>,
)
    requires
        spells_procs(imports, words, procs),
    ensures
        are_told_apart(imports),
    decreases procs.len(),
{
    if procs.len() > 0 {
        let k = choose|k: int|
            0 <= k <= words.len() && spells_procs(
                imports,
                #[trigger] words.take(k),
                procs.drop_last(),
            ) && spells_proc(imports, procs.drop_last(), words.skip(k), procs.last());
        lemma_told_apart(imports, words.take(k), procs.drop_last());
    }
}

/// The procedures which words spell are read from them.
proof fn lemma_run_procs(
    is_program: bool,
    imports: Seq<(Seq<char>, Seq<char>)>,
    words: Seq<Seq<char>>,
    procs: Seq<SpecProcAst>,
)
    requires
        spells_procs(imports, words, procs),
    ensures
        SpecReader::start().run(is_program, words) == Some(resting(imports, procs, None)),
    decreases procs.len(),
{
    if procs.len() == 0 {
        lemma_run_imports(is_program, words, imports);
        assert(procs =~= Seq::empty());
    } else {
        let before = procs.drop_last();
        let k = choose|k: int|
            0 <= k <= words.len() && spells_procs(imports, #[trigger] words.take(k), before)
                && spells_proc(imports, before, words.skip(k), procs.last());
        lemma_told_apart(imports, words, procs);
        lemma_run_procs(is_program, imports, words.take(k), before);
        lemma_run_proc(is_program, imports, before, words.skip(k), procs.last());
        assert(words.take(k) + words.skip(k) =~= words);
        lemma_run_append(SpecReader::start(), is_program, words.take(k), words.skip(k));
        assert(before.push(procs.last()) =~= procs);
    }
}

/// The main body which words spell is read from them.
proof fn lemma_run_main(
    imports: Seq<(Seq<char>, Seq<char>)>,
    procs: Seq<SpecProcAst>,
    words: Seq<Seq<char>>,
    body: Seq<SpecNode>,
)
    requires
        are_told_apart(imports),
        spells_main(imports, procs, words, body),
    ensures
        resting(imports, procs, None).run(true, words) == Some(
            resting(imports, procs, Some(body)),
        ),
{
    let reader = resting(imports, procs, None);
    let last = words.len() - 1;
    let kind = SpecKind::Main;
    tokens::lemma_token(words[0], SpecToken::Begin);
    tokens::lemma_token(words[last], SpecToken::End);
    lemma_run_one(reader, true, words);
    lemma_run_nodes(reader.opened(kind), true, words.subrange(1, last), body);
    lemma_run_filled(reader, true, words, 1, last, kind, body);
    assert(words.take(last).push(words[last]) =~= words);
    lemma_run_push(reader, true, words.take(last), words[last]);
    let inner = filled(reader, kind, body);
    assert(inner.frames.drop_last() =~= reader.frames);
}

/// True if the words are a spelling of a body which has been opened and holds some nodes.
spec fn spells_frame(
    is_program: bool,
    imports: Seq<(Seq<char>, Seq<char>)>,
    procs: Seq<SpecProcAst>,
    is_outermost: bool,
    words: Seq<Seq<char>>,
    frame: SpecFrame,
) -> bool {
    words.len() > 0 && match frame.kind {
        SpecKind::Main => {
            &&& is_program && is_outermost
            &&& tokens::spelled(words[0], SpecToken::Begin)
            &&& spells_nodes(imports, procs, words.skip(1), frame.nodes)
        },
        SpecKind::Proc(name, is_export, num_locals) => {
            &&& is_outermost
            &&& tokens::spelled(words[0], SpecToken::Proc(name, is_export, num_locals))
            &&& spells_nodes(imports, procs, words.skip(1), frame.nodes)
        },
        SpecKind::IfTrue => {
            &&& !is_outermost
            &&& tokens::spelled(words[0], SpecToken::IfTrue)
            &&& spells_nodes(imports, procs, words.skip(1), frame.nodes)
        },
        SpecKind::Else(on_true) => {
            &&& !is_outermost
            &&& tokens::spelled(words[0], SpecToken::IfTrue)
            &&& on_true.len() > 0
            &&& exists|k: int|
                0 < k < words.len() && tokens::spelled(#[trigger] words[k], SpecToken::Else)
                    && spells_nodes(imports, procs, words.subrange(1, k), on_true)
                    && spells_nodes(imports, procs, words.skip(k + 1), frame.nodes)
        },
        SpecKind::While => {
            &&& !is_outermost
            &&& tokens::spelled(words[0], SpecToken::WhileTrue)
            &&& spells_nodes(imports, procs, words.skip(1), frame.nodes)
        },
        SpecKind::Repeat(count) => {
            &&& !is_outermost
            &&& tokens::spelled(words[0], SpecToken::Repeat(count))
            &&& spells_nodes(imports, procs, words.skip(1), frame.nodes)
        },
    }
}

/// The state outside of the innermost body.
spec fn outer(reader: SpecReader) -> SpecReader {
    SpecReader { frames: reader.frames.drop_last(), ..reader }
}

/// True if the words are a spelling of what has been read.
spec fn spells_reader(is_program: bool, words: Seq<Seq<char>>, reader: SpecReader) -> bool
    decreases reader.frames.len(),
{
    if reader.frames.len() > 0 {
        &&& reader.main is None
        &&& exists|k: int|
            0 <= k <= words.len() && spells_reader(
                is_program,
                #[trigger] words.take(k),
                outer(reader),
            ) && spells_frame(
                is_program,
                reader.imports,
                reader.procs,
                reader.frames.len() == 1,
                words.skip(k),
                reader.frames.last(),
            )
    } else {
        match reader.main {
            None => spells_procs(reader.imports, words, reader.procs),
            Some(body) => is_program && exists|k: int|
                0 <= k <= words.len() && spells_procs(
                    reader.imports,
                    #[trigger] words.take(k),
                    reader.procs,
                ) && spells_main(reader.imports, reader.procs, words.skip(k), body),
        }
    }
}

/// Imports which have been read are told apart.
proof fn lemma_reader_told_apart(is_program: bool, words: Seq<Seq<char>>, reader: SpecReader)
    requires
        spells_reader(is_program, words, reader),
    ensures
        are_told_apart(reader.imports),
    decreases reader.frames.len(),
{
    if reader.frames.len() > 0 {
        let k = choose|k: int|
            0 <= k <= words.len() && spells_reader(
                is_program,
                #[trigger] words.take(k),
                outer(reader),
            ) && spells_frame(
                is_program,
                reader.imports,
                reader.procs,
                reader.frames.len() == 1,
                words.skip(k),
                reader.frames.last(),
            );
        lemma_reader_told_apart(is_program, words.take(k), outer(reader));
    } else {
        match reader.main {
            None => {
                lemma_told_apart(reader.imports, words, reader.procs);
            },
            Some(body) => {
                let k = choose|k: int|
                    0 <= k <= words.len() && spells_procs(
                        reader.imports,
                        #[trigger] words.take(k),
                        reader.procs,
                    ) && spells_main(reader.imports, reader.procs, words.skip(k), body);
                lemma_told_apart(reader.imports, words.take(k), reader.procs);
            },
        }
    }
}

/// One more node behind others.
proof fn lemma_spells_push(
    imports: Seq<(Seq<char>, Seq<char>)>,
    procs: Seq<SpecProcAst>,
    words: Seq<Seq<char>>,
    nodes: Seq<SpecNode>,
    more: Seq<Seq<char>>,
    node: SpecNode,
)
    requires
        spells_nodes(imports, procs, words, nodes),
        spells_node(imports, procs, more, node),
    ensures
        spells_nodes(imports, procs, words + more, nodes.push(node)),
{
    let all = words + more;
    let longer = nodes.push(node);
    assert(longer.drop_last() =~= nodes);
    assert(all.take(words.len() as int) =~= words);
    assert(all.skip(words.len() as int) =~= more);
    assert(longer[longer.len() - 1] == node);
}

/// One more node in a body.
proof fn lemma_frame_push(
    is_program: bool,
    imports: Seq<(Seq<char>, Seq<char>)>,
    procs: Seq<SpecProcAst>,
    is_outermost: bool,
    words: Seq<Seq<char>>,
    frame: SpecFrame,
    more: Seq<Seq<char>>,
    node: SpecNode,
)
    requires
        spells_frame(is_program, imports, procs, is_outermost, words, frame),
        spells_node(imports, procs, more, node),
    ensures
        spells_frame(
            is_program,
            imports,
            procs,
            is_outermost,
            words + more,
            SpecFrame { kind: frame.kind, nodes: frame.nodes.push(node) },
        ),
{
    let all = words + more;
    assert(all[0] == words[0]);
    if let SpecKind::Else(on_true) = frame.kind {
        let k = choose|k: int|
            0 < k < words.len() && tokens::spelled(#[trigger] words[k], SpecToken::Else)
                && spells_nodes(imports, procs, words.subrange(1, k), on_true) && spells_nodes(
                imports,
                procs,
                words.skip(k + 1),
                frame.nodes,
            );
        lemma_spells_push(imports, procs, words.skip(k + 1), frame.nodes, more, node);
        assert(all.skip(k + 1) =~= words.skip(k + 1) + more);
        assert(all.subrange(1, k) =~= words.subrange(1, k));
        assert(all[k] == words[k]);
    } else {
        lemma_spells_push(imports, procs, words.skip(1), frame.nodes, more, node);
        assert(all.skip(1) =~= words.skip(1) + more);
    }
}

/// One more node in the innermost body.
proof fn lemma_reader_push(
    is_program: bool,
    words: Seq<Seq<char>>,
    reader: SpecReader,
    more: Seq<Seq<char>>,
    node: SpecNode,
)
    requires
        reader.frames.len() > 0,
        spells_reader(is_program, words, reader),
        spells_node(reader.imports, reader.procs, more, node),
    ensures
        reader.with_node(node) matches Some(next) && spells_reader(
            is_program,
            words + more,
            next,
        ),
{
    let next = reader.with_node(node)->0;
    let all = words + more;
    let k = choose|k: int|
        0 <= k <= words.len() && spells_reader(
            is_program,
            #[trigger] words.take(k),
            outer(reader),
        ) && spells_frame(
            is_program,
            reader.imports,
            reader.procs,
            reader.frames.len() == 1,
            words.skip(k),
            reader.frames.last(),
        );
    lemma_frame_push(
        is_program,
        reader.imports,
        reader.procs,
        reader.frames.len() == 1,
        words.skip(k),
        reader.frames.last(),
        more,
        node,
    );
    assert(all.take(k) =~= words.take(k));
    assert(all.skip(k) =~= words.skip(k) + more);
    assert(next.frames.drop_last() =~= reader.frames.drop_last());
    assert(outer(next) =~= outer(reader));
}

/// A body is opened.
proof fn lemma_reader_open(
    is_program: bool,
    words: Seq<Seq<char>>,
    reader: SpecReader,
    word: Seq<char>,
    kind: SpecKind,
)
    requires
        spells_reader(is_program, words, reader),
        reader.main is None,
        match kind {
            SpecKind::Main => is_program && reader.frames.len() == 0 && tokens::spelled(
                word,
                SpecToken::Begin,
            ),
            SpecKind::Proc(name, is_export, num_locals) => reader.frames.len() == 0
                && tokens::spelled(word, SpecToken::Proc(name, is_export, num_locals)),
            SpecKind::IfTrue => reader.frames.len() > 0 && tokens::spelled(
                word,
                SpecToken::IfTrue,
            ),
            SpecKind::Else(_) => false,
            SpecKind::While => reader.frames.len() > 0 && tokens::spelled(
                word,
                SpecToken::WhileTrue,
            ),
            SpecKind::Repeat(count) => reader.frames.len() > 0 && tokens::spelled(
                word,
                SpecToken::Repeat(count),
            ),
        },
    ensures
        spells_reader(is_program, words.push(word), reader.opened(kind)),
{
    let next = reader.opened(kind);
    let all = words.push(word);
    let k = words.len() as int;
    assert(all.take(k) =~= words);
    assert(all.skip(k) =~= seq![word]);
    assert(seq![word].skip(1) =~= Seq::empty());
    assert(next.frames.drop_last() =~= reader.frames);
    assert(outer(next) =~= reader);
}

/// The innermost body is closed.
proof fn lemma_reader_close(
    is_program: bool,
    words: Seq<Seq<char>>,
    reader: SpecReader,
    word: Seq<char>,
)
    requires
        reader.frames.len() > 0,
        spells_reader(is_program, words, reader),
        tokens::spelled(word, SpecToken::End),
    ensures
        reader.closed() matches Some(next) ==> spells_reader(is_program, words.push(word), next),
{
    let imports = reader.imports;
    let procs = reader.procs;
    let frame = reader.frames.last();
    let nodes = frame.nodes;
    let all = words.push(word);
    let k = choose|k: int|
        0 <= k <= words.len() && spells_reader(
            is_program,
            #[trigger] words.take(k),
            outer(reader),
        ) && spells_frame(
            is_program,
            imports,
            procs,
            reader.frames.len() == 1,
            words.skip(k),
            frame,
        );
    let part = words.skip(k).push(word);
    let last = part.len() - 1;
    assert(all.take(k) =~= words.take(k));
    assert(all.skip(k) =~= part);
    assert(words.take(k) + part =~= all);
    assert(part[0] == words.skip(k)[0]);
    assert(part[last] == word);
    assert(part.subrange(1, last) =~= words.skip(k).skip(1));
    if nodes.len() > 0 {
        match frame.kind {
            SpecKind::Main => {
                assert(outer(reader).frames =~= Seq::empty());
                assert(spells_main(imports, procs, part, nodes));
            },
            SpecKind::Proc(name, is_export, num_locals) => {
                let proc = SpecProcAst { name, is_export, num_locals, body: nodes };
                assert(outer(reader).frames =~= Seq::empty());
                assert(procs.push(proc).drop_last() =~= procs);
                assert(procs.push(proc).last() == proc);
                assert(spells_proc(imports, procs, part, proc));
                assert(spells_procs(imports, all.take(k), procs));
                assert(spells_procs(imports, all, procs.push(proc)));
            },
            SpecKind::IfTrue => {
                let node = SpecNode::IfElse(nodes, Seq::empty());
                assert(spells_node(imports, procs, part, node));
                lemma_reader_push(is_program, words.take(k), outer(reader), part, node);
            },
            SpecKind::Else(on_true) => {
                let node = SpecNode::IfElse(on_true, nodes);
                let inner = words.skip(k);
                let j = choose|j: int|
                    0 < j < inner.len() && tokens::spelled(#[trigger] inner[j], SpecToken::Else)
                        && spells_nodes(imports, procs, inner.subrange(1, j), on_true)
                        && spells_nodes(imports, procs, inner.skip(j + 1), nodes);
                assert(part[j] == inner[j]);
                assert(part.subrange(1, j) =~= inner.subrange(1, j));
                assert(part.subrange(j + 1, last) =~= inner.skip(j + 1));
                assert(spells_node(imports, procs, part, node));
                lemma_reader_push(is_program, words.take(k), outer(reader), part, node);
            },
            SpecKind::While => {
                let node = SpecNode::While(nodes);
                assert(spells_node(imports, procs, part, node));
                lemma_reader_push(is_program, words.take(k), outer(reader), part, node);
            },
            SpecKind::Repeat(count) => {
                let node = SpecNode::Repeat(count, nodes);
                assert(spells_node(imports, procs, part, node));
                lemma_reader_push(is_program, words.take(k), outer(reader), part, node);
            },
        }
    }
}

/// The second of two alternatives is opened.
proof fn lemma_reader_alternate(
    is_program: bool,
    words: Seq<Seq<char>>,
    reader: SpecReader,
    word: Seq<char>,
)
    requires
        reader.frames.len() > 0,
        spells_reader(is_program, words, reader),
        tokens::spelled(word, SpecToken::Else),
    ensures
        reader.alternated() matches Some(next) ==> spells_reader(
            is_program,
            words.push(word),
            next,
        ),
{
    match reader.alternated() {
        None => {},
        Some(next) => {
            let imports = reader.imports;
            let procs = reader.procs;
            let frame = reader.frames.last();
            let all = words.push(word);
            let k = choose|k: int|
                0 <= k <= words.len() && spells_reader(
                    is_program,
                    #[trigger] words.take(k),
                    outer(reader),
                ) && spells_frame(
                    is_program,
                    imports,
                    procs,
                    reader.frames.len() == 1,
                    words.skip(k),
                    frame,
                );
            let inner = words.skip(k);
            let part = inner.push(word);
            let j = inner.len() as int;
            assert(all.take(k) =~= words.take(k));
            assert(all.skip(k) =~= part);
            assert(part[0] == inner[0]);
            assert(part[j] == word);
            assert(part.subrange(1, j) =~= inner.skip(1));
            assert(part.skip(j + 1) =~= Seq::empty());
            assert(spells_nodes(imports, procs, part.skip(j + 1), Seq::empty()));
            assert(next.frames.drop_last() =~= reader.frames.drop_last());
            assert(outer(next) =~= outer(reader));
        },
    }
}

/// A module is imported.
proof fn lemma_reader_import(
    is_program: bool,
    words: Seq<Seq<char>>,
    reader: SpecReader,
    word: Seq<char>,
    path: Seq<char>,
    alias: Seq<char>,
)
    requires
        reader.frames.len() == 0,
        reader.main is None,
        reader.procs.len() == 0,
        spells_reader(is_program, words, reader),
        SpecReader::path_of(reader.imports, alias) is None,
        tokens::spelled(word, SpecToken::Use(path, alias)),
    ensures
        spells_reader(
            is_program,
            words.push(word),
            SpecReader { imports: reader.imports.push((alias, path)), ..reader },
        ),
{
    let imports = reader.imports;
    let longer = imports.push((alias, path));
    let all = words.push(word);
    lemma_path_of(imports, alias);
    assert forall|i: int| 0 <= i < all.len() implies tokens::spelled(
        #[trigger] all[i],
        SpecToken::Use(longer[i].1, longer[i].0),
    ) by {
        if i < words.len() {
            assert(all[i] == words[i] && longer[i] == imports[i]);
        }
    }
    assert forall|i: int, j: int| 0 <= i < j < longer.len() implies (#[trigger] longer[i]).0 != (
    #[trigger] longer[j]).0 by {
        assert(longer[i] == imports[i]);
        if j < imports.len() {
            assert(longer[j] == imports[j]);
        }
    }
    assert(spells_imports(all, longer));
}

/// What has been read is spelled by the words when there is one word more.
proof fn lemma_reader_step(
    is_program: bool,
    words: Seq<Seq<char>>,
    reader: SpecReader,
    word: Seq<char>,
)
    requires
        spells_reader(is_program, words, reader),
    ensures
        reader.after(is_program, word) matches Some(next) ==> spells_reader(
            is_program,
            words.push(word),
            next,
        ),
{
    match SpecToken::read(word) {
        None => {},
        Some(token) => {
            tokens::lemma_token(word, token);
            lemma_reader_told_apart(is_program, words, reader);
            if reader.frames.len() == 0 {
                match token {
                    SpecToken::Use(path, alias) => {
                        if reader.outside(is_program, token) is Some {
                            lemma_reader_import(is_program, words, reader, word, path, alias);
                        }
                    },
                    SpecToken::Proc(name, is_export, num_locals) => {
                        if reader.main is None {
                            let kind = SpecKind::Proc(name, is_export, num_locals);
                            lemma_reader_open(is_program, words, reader, word, kind);
                        }
                    },
                    SpecToken::Begin => {
                        if reader.main is None && is_program {
                            lemma_reader_open(is_program, words, reader, word, SpecKind::Main);
                        }
                    },
                    _ => {},
                }
            } else {
                match token {
                    SpecToken::End => {
                        lemma_reader_close(is_program, words, reader, word);
                    },
                    SpecToken::Else => {
                        lemma_reader_alternate(is_program, words, reader, word);
                    },
                    SpecToken::IfTrue => {
                        lemma_reader_open(is_program, words, reader, word, SpecKind::IfTrue);
                    },
                    SpecToken::WhileTrue => {
                        lemma_reader_open(is_program, words, reader, word, SpecKind::While);
                    },
                    SpecToken::Repeat(count) => {
                        let kind = SpecKind::Repeat(count);
                        lemma_reader_open(is_program, words, reader, word, kind);
                    },
                    _ => {
                        match reader.instruction(token) {
                            Some(instruction) => {
                                let node = SpecNode::Instruction(instruction);
                                lemma_instruction_word(reader, word, instruction);
                                assert(seq![word][0] == word);
                                lemma_reader_push(is_program, words, reader, seq![word], node);
                                assert(words + seq![word] =~= words.push(word));
                            },
                            None => {},
                        }
                    },
                }
            }
        },
    }
}

/// What has been read is spelled by the words.
proof fn lemma_reader(is_program: bool, words: Seq<Seq<char>>)
    ensures
        SpecReader::start().run(is_program, words) matches Some(reader) ==> spells_reader(
            is_program,
            words,
            reader,
        ),
    decreases words.len(),
{
    let start = SpecReader::start();
    if words.len() == 0 {
        assert(spells_imports(words, start.imports));
        assert(spells_procs(start.imports, words, start.procs));
    } else {
        let front = words.drop_last();
        lemma_reader(is_program, front);
        assert(front.push(words[words.len() - 1]) =~= words);
        lemma_run_push(start, is_program, front, words[words.len() - 1]);
        match start.run(is_program, front) {
            Some(reader) => {
                lemma_reader_step(is_program, front, reader, words[words.len() - 1]);
            },
            None => {},
        }
    }
}

/// A source denotes a module with the given procedures exactly if its words are a spelling of
/// such a module.
pub proof fn lemma_module_source(
    source: Seq<char>,
    words: Seq<Seq<char>>,
    procs: Seq<SpecProcAst>,
)
    requires
        words::laid_out(source, words),
    ensures
        SpecReader::module(source) == Some(procs) <==> spells_module(words, procs),
{
    words::lemma_words(source, words);
    lemma_reader(false, words);
    if spells_module(words, procs) {
        let imports = choose|imports: Seq<(Seq<char>, Seq<char>)>| #[trigger]
            spells_procs(imports, words, procs);
        lemma_run_procs(false, imports, words, procs);
    }
    if SpecReader::module(source) == Some(procs) {
        let end = SpecReader::start().run(false, words)->0;
        assert(spells_procs(end.imports, words, procs));
    }
}

/// A source denotes a program exactly if its words are a spelling of that program.
pub proof fn lemma_program_source(
    source: Seq<char>,
    words: Seq<Seq<char>>,
    program: SpecProgramAst,
)
    requires
        words::laid_out(source, words),
    ensures
        SpecReader::program(source) == Some(program) <==> spells_program(words, program),
{
    words::lemma_words(source, words);
    lemma_reader(true, words);
    if spells_program(words, program) {
        let (imports, k) = choose|imports: Seq<(Seq<char>, Seq<char>)>, k: int|
            0 <= k <= words.len() && #[trigger] spells_procs(
                imports,
                words.take(k),
                program.procs,
            ) && spells_main(imports, program.procs, words.skip(k), program.body);
        lemma_told_apart(imports, words.take(k), program.procs);
        lemma_run_procs(true, imports, words.take(k), program.procs);
        lemma_run_main(imports, program.procs, words.skip(k), program.body);
        assert(words.take(k) + words.skip(k) =~= words);
        lemma_run_append(SpecReader::start(), true, words.take(k), words.skip(k));
        assert(program =~= SpecProgramAst { procs: program.procs, body: program.body });
    }
    if SpecReader::program(source) == Some(program) {
        let end = SpecReader::start().run(true, words)->0;
        let k = choose|k: int|
            0 <= k <= words.len() && spells_procs(
                end.imports,
                #[trigger] words.take(k),
                end.procs,
            ) && spells_main(end.imports, end.procs, words.skip(k), end.main->0);
        assert(spells_procs(end.imports, words.take(k), program.procs));
    }
}

} // verus!
