//! Turning words into programs and modules.
use vstd::prelude::*;

use crate::ast::{
    Instruction, ModuleAst, Node, ProcedureAst, ProgramAst, SpecInstruction, SpecNode, SpecProcAst,
    SpecProgramAst,
};
use crate::error::{AssemblerError, SpecError};
use crate::felt::Felt;
use crate::parsers::token::{SpecTarget, SpecToken, Target, Token};
use crate::procedure::{ProcId, ProcedureId};
use crate::text::{same_text, Separator};

verus! {

/// Model of what a code body which is being read belongs to.
pub enum SpecKind {
    Main,
    Proc(Seq<char>, bool, u32),
    IfTrue,
    Else(Seq<SpecNode>),
    While,
    Repeat(u32),
}

/// Model of a code body which is being read.
#[verifier::ext_equal]
pub struct SpecFrame {
    pub kind: SpecKind,
    pub nodes: Seq<SpecNode>,
}

/// Model of a program or module which is being read.
#[verifier::ext_equal]
pub struct SpecReader {
    /// Imported modules: the name by which each is known, and its path.
    pub imports: Seq<(Seq<char>, Seq<char>)>,
    /// Procedures which are complete.
    pub procs: Seq<SpecProcAst>,
    /// The body of the program, once it is complete.
    pub main: Option<Seq<SpecNode>>,
    /// Bodies which are open, from the outermost to the innermost.
    pub frames: Seq<SpecFrame>,
}

impl SpecReader {
    /// The state before the first word.
    pub open spec fn start() -> SpecReader {
        SpecReader {
            imports: Seq::empty(),
            procs: Seq::empty(),
            main: None,
            frames: Seq::empty(),
        }
    }

    /// The position of the first procedure with the given name.
    pub open spec fn position(procs: Seq<SpecProcAst>, name: Seq<char>) -> Option<int>
        decreases procs.len(),
    {
        if procs.len() == 0 {
            None
        } else {
            match Self::position(procs.drop_last(), name) {
                Some(index) => Some(index),
                None => if procs.last().name == name {
                    Some(procs.len() - 1)
                } else {
                    None
                },
            }
        }
    }

    /// The path of the first imported module which is known by the given name.
    pub open spec fn path_of(
        imports: Seq<(Seq<char>, Seq<char>)>,
        alias: Seq<char>,
    ) -> Option<Seq<char>>
        decreases imports.len(),
    {
        if imports.len() == 0 {
            None
        } else {
            match Self::path_of(imports.drop_last(), alias) {
                Some(path) => Some(path),
                None => if imports.last().0 == alias {
                    Some(imports.last().1)
                } else {
                    None
                },
            }
        }
    }

    /// The position of the procedure of this module which the name stands for, if it has a
    /// number of sixteen bits.
    pub open spec fn local(self, name: Seq<char>) -> Option<u16> {
        match Self::position(self.procs, name) {
            Some(index) if index <= 0xffff => Some(index as u16),
            _ => None,
        }
    }

    /// The identifier of the procedure `name` of the imported module which is known by `alias`.
    pub open spec fn imported(self, alias: Seq<char>, name: Seq<char>) -> Option<ProcId> {
        match Self::path_of(self.imports, alias) {
            Some(path) => Some(ProcId { module: path, name }),
            None => None,
        }
    }

    /// The instruction for a token, if it is one and the procedure which it names is known.
    pub open spec fn instruction(self, token: SpecToken) -> Option<SpecInstruction> {
        match token {
            SpecToken::Add => Some(SpecInstruction::Add),
            SpecToken::Push(value) => Some(SpecInstruction::Push(Felt::of(value as int))),
            SpecToken::Exec(SpecTarget::Local(name)) => match self.local(name) {
                Some(index) => Some(SpecInstruction::ExecLocal(index)),
                None => None,
            },
            SpecToken::Exec(SpecTarget::Imported(alias, name)) => match self.imported(
                alias,
                name,
            ) {
                Some(id) => Some(SpecInstruction::ExecImported(id)),
                None => None,
            },
            SpecToken::Call(SpecTarget::Local(name)) => match self.local(name) {
                Some(index) => Some(SpecInstruction::CallLocal(index)),
                None => None,
            },
            SpecToken::Call(SpecTarget::Imported(alias, name)) => match self.imported(
                alias,
                name,
            ) {
                Some(id) => Some(SpecInstruction::CallImported(id)),
                None => None,
            },
            SpecToken::SysCall(name) => Some(SpecInstruction::SysCall(name)),
            _ => None,
        }
    }

    /// The state with a body opened.
    pub open spec fn opened(self, kind: SpecKind) -> SpecReader {
        SpecReader {
            frames: self.frames.push(SpecFrame { kind, nodes: Seq::empty() }),
            ..self
        }
    }

    /// The state with a node added to the innermost body.
    pub open spec fn with_node(self, node: SpecNode) -> Option<SpecReader> {
        if self.frames.len() == 0 {
            None
        } else {
            let top = self.frames.last();
            let frame = SpecFrame { kind: top.kind, nodes: top.nodes.push(node) };
            Some(SpecReader { frames: self.frames.drop_last().push(frame), ..self })
        }
    }

    /// The state with the innermost body closed; a body must not be empty.
    pub open spec fn closed(self) -> Option<SpecReader> {
        if self.frames.len() == 0 || self.frames.last().nodes.len() == 0 {
            None
        } else {
            let nodes = self.frames.last().nodes;
            let outer = SpecReader { frames: self.frames.drop_last(), ..self };
            match self.frames.last().kind {
                SpecKind::Main => Some(SpecReader { main: Some(nodes), ..outer }),
                SpecKind::Proc(name, is_export, num_locals) => Some(
                    SpecReader {
                        procs: outer.procs.push(
                            SpecProcAst { name, is_export, num_locals, body: nodes },
                        ),
                        ..outer
                    },
                ),
                SpecKind::IfTrue => outer.with_node(SpecNode::IfElse(nodes, Seq::empty())),
                SpecKind::Else(on_true) => outer.with_node(SpecNode::IfElse(on_true, nodes)),
                SpecKind::While => outer.with_node(SpecNode::While(nodes)),
                SpecKind::Repeat(count) => outer.with_node(SpecNode::Repeat(count, nodes)),
            }
        }
    }

    /// The state with the innermost body, the first alternative of two, followed by the second.
    pub open spec fn alternated(self) -> Option<SpecReader> {
        if self.frames.len() == 0 || self.frames.last().nodes.len() == 0 {
            None
        } else {
            match self.frames.last().kind {
                SpecKind::IfTrue => Some(
                    (SpecReader { frames: self.frames.drop_last(), ..self }).opened(
                        SpecKind::Else(self.frames.last().nodes),
                    ),
                ),
                _ => None,
            }
        }
    }

    /// The state after a word outside of all bodies.
    pub open spec fn outside(self, is_program: bool, token: SpecToken) -> Option<SpecReader> {
        if self.main is Some {
            None
        } else {
            match token {
                SpecToken::Use(path, alias) => if self.procs.len() > 0 || Self::path_of(
                    self.imports,
                    alias,
                ) is Some {
                    None
                } else {
                    Some(SpecReader { imports: self.imports.push((alias, path)), ..self })
                },
                SpecToken::Proc(name, is_export, num_locals) => Some(
                    self.opened(SpecKind::Proc(name, is_export, num_locals)),
                ),
                SpecToken::Begin if is_program => Some(self.opened(SpecKind::Main)),
                _ => None,
            }
        }
    }

    /// The state after a word inside a body.
    pub open spec fn inside(self, token: SpecToken) -> Option<SpecReader> {
        match token {
            SpecToken::End => self.closed(),
            SpecToken::Else => self.alternated(),
            SpecToken::IfTrue => Some(self.opened(SpecKind::IfTrue)),
            SpecToken::WhileTrue => Some(self.opened(SpecKind::While)),
            SpecToken::Repeat(count) => Some(self.opened(SpecKind::Repeat(count))),
            _ => match self.instruction(token) {
                Some(instruction) => self.with_node(SpecNode::Instruction(instruction)),
                None => None,
            },
        }
    }

    /// The state after a word.
    pub open spec fn after(self, is_program: bool, word: Seq<char>) -> Option<SpecReader> {
        match SpecToken::read(word) {
            None => None,
            Some(token) => if self.frames.len() == 0 {
                self.outside(is_program, token)
            } else {
                self.inside(token)
            },
        }
    }

    /// The state after the given words.
    pub open spec fn run(self, is_program: bool, words: Seq<Seq<char>>) -> Option<SpecReader>
        decreases words.len(),
    {
        if words.len() == 0 {
            Some(self)
        } else {
            match self.after(is_program, words[0]) {
                None => None,
                Some(next) => next.run(is_program, words.drop_first()),
            }
        }
    }

    /// The program which a source denotes, if it denotes one.
    pub open spec fn program(source: Seq<char>) -> Option<SpecProgramAst> {
        match Self::start().run(true, Separator::words(source)) {
            Some(end) if end.frames.len() == 0 && end.main is Some => Some(
                SpecProgramAst { procs: end.procs, body: end.main->0 },
            ),
            _ => None,
        }
    }

    /// The procedures of the module which a source denotes, if it denotes one.
    pub open spec fn module(source: Seq<char>) -> Option<Seq<SpecProcAst>> {
        match Self::start().run(false, Separator::words(source)) {
            Some(end) if end.frames.len() == 0 => Some(end.procs),
            _ => None,
        }
    }
}

/// What a code body which is being read belongs to.
enum Kind {
    Main,
    Proc(String, bool, u32),
    IfTrue,
    Else(Vec<Node>),
    While,
    Repeat(u32),
}

impl View for Kind {
    type V = SpecKind;

    closed spec fn view(&self) -> SpecKind {
        match *self {
            Kind::Main => SpecKind::Main,
            Kind::Proc(name, is_export, num_locals) => SpecKind::Proc(
                name@,
                is_export,
                num_locals,
            ),
            Kind::IfTrue => SpecKind::IfTrue,
            Kind::Else(on_true) => SpecKind::Else(Node::models(on_true@)),
            Kind::While => SpecKind::While,
            Kind::Repeat(count) => SpecKind::Repeat(count),
        }
    }
}

/// A code body which is being read.
struct Frame {
    kind: Kind,
    nodes: Vec<Node>,
}

impl View for Frame {
    type V = SpecFrame;

    closed spec fn view(&self) -> SpecFrame {
        SpecFrame { kind: self.kind@, nodes: Node::models(self.nodes@) }
    }
}

/// A program or module which is being read.
struct Reader {
    imports: Vec<(String, String)>,
    procs: Vec<ProcedureAst>,
    main: Option<Vec<Node>>,
    frames: Vec<Frame>,
}

impl View for Reader {
    type V = SpecReader;

    closed spec fn view(&self) -> SpecReader {
        SpecReader {
            imports: Seq::new(
                self.imports@.len(),
                |i: int| (self.imports@[i].0@, self.imports@[i].1@),
            ),
            procs: ProcedureAst::models(self.procs@),
            main: match self.main {
                Some(nodes) => Some(Node::models(nodes@)),
                None => None,
            },
            frames: Seq::new(self.frames@.len(), |i: int| self.frames@[i]@),
        }
    }
}

impl Reader {
    /// Returns the state before the first word.
    fn new() -> (r: Reader)
        ensures
            r@ == SpecReader::start(),
    {
        let r = Reader {
            imports: Vec::new(),
            procs: Vec::new(),
            main: None,
            frames: Vec::new(),
        };
        assert(r@ =~= SpecReader::start());
        r
    }

    /// Returns the position of the procedure of this module which the name stands for.
    fn local(&self, name: &str) -> (r: Option<u16>)
        ensures
            r == self@.local(name@),
    {
        let ghost procs = self@.procs;
        assert(procs.take(0) =~= Seq::<SpecProcAst>::empty());
        let mut i: usize = 0;
        while i < self.procs.len()
            invariant
                i <= self.procs.len(),
                procs == ProcedureAst::models(self.procs@),
                procs == self@.procs,
                SpecReader::position(procs.take(i as int), name@) is None,
            decreases self.procs.len() - i,
        {
            assert(procs.take(i + 1).drop_last() =~= procs.take(i as int));
            if same_text(self.procs[i].name.as_str(), name) {
                proof {
                    lemma_position(procs, i as int, name@);
                }
                return if i <= 0xffff {
                    Some(i as u16)
                } else {
                    None
                };
            }
            i = i + 1;
        }
        assert(procs.take(i as int) =~= procs);
        None
    }

    /// Returns the path of the imported module which is known by the given name.
    fn path_of(&self, alias: &str) -> (r: Option<String>)
        ensures
            r matches Some(path) ==> SpecReader::path_of(self@.imports, alias@) == Some(path@),
            r is None ==> SpecReader::path_of(self@.imports, alias@) is None,
    {
        let ghost imports = self@.imports;
        assert(imports.take(0) =~= Seq::<(Seq<char>, Seq<char>)>::empty());
        let mut i: usize = 0;
        while i < self.imports.len()
            invariant
                i <= self.imports.len(),
                imports.len() == self.imports@.len(),
                imports == self@.imports,
                SpecReader::path_of(imports.take(i as int), alias@) is None,
            decreases self.imports.len() - i,
        {
            assert(imports.take(i + 1).drop_last() =~= imports.take(i as int));
            if same_text(self.imports[i].0.as_str(), alias) {
                proof {
                    lemma_path_of(imports, i as int, alias@);
                }
                return Some(self.imports[i].1.clone());
            }
            i = i + 1;
        }
        assert(imports.take(i as int) =~= imports);
        None
    }

    /// Returns the identifier of the procedure `name` of the imported module which is known by
    /// `alias`.
    fn imported(&self, alias: &str, name: &str) -> (r: Option<ProcedureId>)
        ensures
            r matches Some(id) ==> self@.imported(alias@, name@) == Some(id@),
            r is None ==> self@.imported(alias@, name@) is None,
    {
        match self.path_of(alias) {
            Some(path) => Some(ProcedureId::new(path.as_str(), name)),
            None => None,
        }
    }

    /// Returns the instruction for a token, if it is one and the procedure which it names is
    /// known.
    fn instruction(&self, token: &Token) -> (r: Option<Instruction>)
        ensures
            r matches Some(instruction) ==> self@.instruction(token@) == Some(instruction@),
            r is None ==> self@.instruction(token@) is None,
    {
        match token {
            Token::Add => Some(Instruction::Add),
            Token::Push(value) => Some(Instruction::Push(Felt::from(*value))),
            Token::Exec(Target::Local(name)) => match self.local(name.as_str()) {
                Some(index) => Some(Instruction::ExecLocal(index)),
                None => None,
            },
            Token::Exec(Target::Imported(alias, name)) => match self.imported(
                alias.as_str(),
                name.as_str(),
            ) {
                Some(id) => Some(Instruction::ExecImported(id)),
                None => None,
            },
            Token::Call(Target::Local(name)) => match self.local(name.as_str()) {
                Some(index) => Some(Instruction::CallLocal(index)),
                None => None,
            },
            Token::Call(Target::Imported(alias, name)) => match self.imported(
                alias.as_str(),
                name.as_str(),
            ) {
                Some(id) => Some(Instruction::CallImported(id)),
                None => None,
            },
            Token::SysCall(name) => Some(Instruction::SysCall(name.clone())),
            _ => None,
        }
    }

    /// Opens a body.
    fn open_body(self, kind: Kind) -> (r: Reader)
        ensures
            r@ == self@.opened(kind@),
    {
        let Reader { imports, procs, main, frames } = self;
        let mut frames = frames;
        let frame = Frame { kind, nodes: Vec::new() };
        assert(frame@ =~= (SpecFrame { kind: kind@, nodes: Seq::empty() }));
        frames.push(frame);
        let r = Reader { imports, procs, main, frames };
        assert(r@ =~= self@.opened(kind@));
        r
    }

    /// Adds a node to the innermost body.
    fn add_node(self, node: Node) -> (r: Option<Reader>)
        ensures
            r matches Some(next) ==> self@.with_node(node@) == Some(next@),
            r is None ==> self@.with_node(node@) is None,
    {
        let Reader { imports, procs, main, frames } = self;
        let mut frames = frames;
        match frames.pop() {
            None => None,
            Some(frame) => {
                let ghost top = frame@;
                let Frame { kind, nodes } = frame;
                let mut nodes = nodes;
                nodes.push(node);
                let frame = Frame { kind, nodes };
                assert(frame@.nodes =~= top.nodes.push(node@));
                frames.push(frame);
                let next = Reader { imports, procs, main, frames };
                assert(next@ =~= self@.with_node(node@)->0);
                Some(next)
            },
        }
    }

    /// Closes the innermost body.
    fn close_body(self) -> (r: Option<Reader>)
        ensures
            r matches Some(next) ==> self@.closed() == Some(next@),
            r is None ==> self@.closed() is None,
    {
        broadcast use crate::ast::lemma_node_model;

        let Reader { imports, procs, main, frames } = self;
        let mut frames = frames;
        match frames.pop() {
            None => None,
            Some(frame) => {
                let ghost top = frame@;
                let Frame { kind, nodes } = frame;
                if nodes.len() == 0 {
                    return None;
                }
                let outer = Reader { imports, procs, main, frames };
                assert(outer@ =~= (SpecReader { frames: self@.frames.drop_last(), ..self@ }));
                match kind {
                    Kind::Main => {
                        let next = Reader { main: Some(nodes), ..outer };
                        assert(next@ =~= self@.closed()->0);
                        Some(next)
                    },
                    Kind::Proc(name, is_export, num_locals) => {
                        let Reader { imports, procs, main, frames } = outer;
                        let mut procs = procs;
                        procs.push(ProcedureAst { name, is_export, num_locals, body: nodes });
                        let next = Reader { imports, procs, main, frames };
                        assert(next@.procs =~= self@.closed()->0.procs);
                        assert(next@ =~= self@.closed()->0);
                        Some(next)
                    },
                    Kind::IfTrue => {
                        let empty: Vec<Node> = Vec::new();
                        assert(Node::models(empty@) =~= Seq::<SpecNode>::empty());
                        outer.add_node(Node::IfElse(nodes, empty))
                    },
                    Kind::Else(on_true) => outer.add_node(Node::IfElse(on_true, nodes)),
                    Kind::While => outer.add_node(Node::While(nodes)),
                    Kind::Repeat(count) => outer.add_node(Node::Repeat(count, nodes)),
                }
            },
        }
    }

    /// Ends the first of two alternatives and starts the second.
    fn alternate(self) -> (r: Option<Reader>)
        ensures
            r matches Some(next) ==> self@.alternated() == Some(next@),
            r is None ==> self@.alternated() is None,
    {
        let Reader { imports, procs, main, frames } = self;
        let mut frames = frames;
        match frames.pop() {
            None => None,
            Some(frame) => {
                let ghost top = frame@;
                let Frame { kind, nodes } = frame;
                if nodes.len() == 0 {
                    return None;
                }
                match kind {
                    Kind::IfTrue => {
                        let outer = Reader { imports, procs, main, frames };
                        assert(outer@ =~= (SpecReader {
                            frames: self@.frames.drop_last(),
                            ..self@
                        }));
                        Some(outer.open_body(Kind::Else(nodes)))
                    },
                    _ => None,
                }
            },
        }
    }

    /// Returns the state after a word outside of all bodies.
    fn outside(self, is_program: bool, token: Token) -> (r: Option<Reader>)
        ensures
            r matches Some(next) ==> self@.outside(is_program, token@) == Some(next@),
            r is None ==> self@.outside(is_program, token@) is None,
    {
        if self.main.is_some() {
            return None;
        }
        match token {
            Token::Use(path, alias) => {
                if self.procs.len() > 0 || self.path_of(alias.as_str()).is_some() {
                    return None;
                }
                let Reader { imports, procs, main, frames } = self;
                let mut imports = imports;
                imports.push((alias, path));
                let next = Reader { imports, procs, main, frames };
                assert(next@.imports =~= self@.imports.push((alias@, path@)));
                Some(next)
            },
            Token::Proc(name, is_export, num_locals) => Some(
                self.open_body(Kind::Proc(name, is_export, num_locals)),
            ),
            Token::Begin => if is_program {
                Some(self.open_body(Kind::Main))
            } else {
                None
            },
            _ => None,
        }
    }

    /// Returns the state after a word inside a body.
    fn inside(self, token: Token) -> (r: Option<Reader>)
        ensures
            r matches Some(next) ==> self@.inside(token@) == Some(next@),
            r is None ==> self@.inside(token@) is None,
    {
        match token {
            Token::End => self.close_body(),
            Token::Else => self.alternate(),
            Token::IfTrue => Some(self.open_body(Kind::IfTrue)),
            Token::WhileTrue => Some(self.open_body(Kind::While)),
            Token::Repeat(count) => Some(self.open_body(Kind::Repeat(count))),
            token => match self.instruction(&token) {
                Some(instruction) => self.add_node(Node::Instruction(instruction)),
                None => None,
            },
        }
    }

    /// Returns the state after all words of the source, if they can follow one another.
    fn read(source: &str, is_program: bool) -> (r: Option<Reader>)
        ensures
            r matches Some(end) ==> SpecReader::start().run(is_program, Separator::words(source@))
                == Some(end@),
            r is None ==> SpecReader::start().run(is_program, Separator::words(source@)) is None,
    {
        let parts = Separator::Space.split(source);
        let ghost contents = Separator::Space.parts(source@);
        let ghost total = SpecReader::start().run(is_program, Separator::words(source@));
        let mut reader = Reader::new();
        let mut i: usize = 0;
        assert(contents.skip(0) =~= contents);
        while i < parts.len()
            invariant
                i <= parts.len(),
                contents == Separator::contents(parts@),
                total == SpecReader::start().run(is_program, Separator::words(source@)),
                total == reader@.run(is_program, Separator::nonempty(contents.skip(i as int))),
            decreases parts.len() - i,
        {
            let ghost rest = contents.skip(i as int);
            proof {
                assert(rest[0] == parts@[i as int]@);
                assert(rest.drop_first() =~= contents.skip(i + 1));
                if rest[0].len() > 0 {
                    let words = Separator::nonempty(rest);
                    assert(words[0] == rest[0]);
                    assert(words.drop_first() =~= Separator::nonempty(contents.skip(i + 1)));
                }
            }
            if !parts[i].as_str().is_empty() {
                let token = match Token::read(parts[i].as_str()) {
                    Some(token) => token,
                    None => {
                        return None;
                    },
                };
                let next = if reader.frames.len() == 0 {
                    reader.outside(is_program, token)
                } else {
                    reader.inside(token)
                };
                reader = match next {
                    Some(next) => next,
                    None => {
                        return None;
                    },
                };
            }
            i = i + 1;
        }
        assert(contents.skip(i as int) =~= Seq::<Seq<char>>::empty());
        Some(reader)
    }
}

/// The first procedure with a name has its position.
proof fn lemma_position(procs: Seq<SpecProcAst>, i: int, name: Seq<char>)
    requires
        0 <= i < procs.len(),
        procs[i].name == name,
        SpecReader::position(procs.take(i), name) is None,
    ensures
        SpecReader::position(procs, name) == Some(i),
    decreases procs.len(),
{
    let before = procs.drop_last();
    if i == procs.len() - 1 {
        assert(before =~= procs.take(i));
    } else {
        assert(before.take(i) =~= procs.take(i));
        lemma_position(before, i, name);
    }
}

/// The first imported module with a name gives the path.
proof fn lemma_path_of(imports: Seq<(Seq<char>, Seq<char>)>, i: int, alias: Seq<char>)
    requires
        0 <= i < imports.len(),
        imports[i].0 == alias,
        SpecReader::path_of(imports.take(i), alias) is None,
    ensures
        SpecReader::path_of(imports, alias) == Some(imports[i].1),
    decreases imports.len(),
{
    let before = imports.drop_last();
    if i == imports.len() - 1 {
        assert(before =~= imports.take(i));
    } else {
        assert(before.take(i) =~= imports.take(i));
        lemma_path_of(before, i, alias);
    }
}

/// Reads a program.
pub fn parse_program(source: &str) -> (r: Result<ProgramAst, AssemblerError>)
    ensures
        match SpecReader::program(source@) {
            Some(program) => r is Ok && r->Ok_0@ == program,
            None => r is Err && r->Err_0@ == SpecError::InvalidSource,
        },
{
    match Reader::read(source, true) {
        Some(end) => {
            let Reader { imports, procs, main, frames } = end;
            if frames.len() > 0 {
                return Err(AssemblerError::InvalidSource);
            }
            match main {
                Some(body) => Ok(ProgramAst { local_procs: procs, body }),
                None => Err(AssemblerError::InvalidSource),
            }
        },
        None => Err(AssemblerError::InvalidSource),
    }
}

/// Reads a module.
pub fn parse_module(source: &str) -> (r: Result<ModuleAst, AssemblerError>)
    ensures
        match SpecReader::module(source@) {
            Some(procs) => r is Ok && r->Ok_0@ == procs,
            None => r is Err && r->Err_0@ == SpecError::InvalidSource,
        },
{
    match Reader::read(source, false) {
        Some(end) => {
            if end.frames.len() > 0 {
                return Err(AssemblerError::InvalidSource);
            }
            Ok(ModuleAst { local_procs: end.procs })
        },
        None => Err(AssemblerError::InvalidSource),
    }
}

} // verus!
