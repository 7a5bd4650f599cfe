//! Words of the assembly language.
use vstd::prelude::*;

use crate::felt::MODULUS;
use crate::text::{same_text, Decimal, Separator};

verus! {

/// Model of the name of a procedure as an instruction gives it.
pub enum SpecTarget {
    Local(Seq<char>),
    Imported(Seq<char>, Seq<char>),
}

/// Model of a word of the assembly language.
pub enum SpecToken {
    Use(Seq<char>, Seq<char>),
    Proc(Seq<char>, bool, u32),
    Begin,
    End,
    Else,
    IfTrue,
    WhileTrue,
    Repeat(u32),
    Add,
    Push(u64),
    Exec(SpecTarget),
    Call(SpecTarget),
    SysCall(Seq<char>),
}

/// The name of a procedure as an instruction gives it.
pub enum Target {
    /// A procedure of the same module.
    Local(String),
    /// A procedure of an imported module: the name of the module, and that of the procedure.
    Imported(String, String),
}

/// A word of the assembly language.
pub enum Token {
    /// `use.a::b`: the path of a module, and the name by which it is known from here on.
    Use(String, String),
    /// `proc.a`, `proc.a.1`, `export.a`, `export.a.1`: the name of a procedure, whether it is
    /// exported, and the number of its locals.
    Proc(String, bool, u32),
    /// `begin`
    Begin,
    /// `end`
    End,
    /// `else`
    Else,
    /// `if.true`
    IfTrue,
    /// `while.true`
    WhileTrue,
    /// `repeat.1`
    Repeat(u32),
    /// `add`
    Add,
    /// `push.1`
    Push(u64),
    /// `exec.a`, `exec.a::b`
    Exec(Target),
    /// `call.a`, `call.a::b`
    Call(Target),
    /// `syscall.a`
    SysCall(String),
}

impl View for Target {
    type V = SpecTarget;

    open spec fn view(&self) -> SpecTarget {
        match *self {
            Target::Local(name) => SpecTarget::Local(name@),
            Target::Imported(module, name) => SpecTarget::Imported(module@, name@),
        }
    }
}

impl View for Token {
    type V = SpecToken;

    open spec fn view(&self) -> SpecToken {
        match *self {
            Token::Use(path, alias) => SpecToken::Use(path@, alias@),
            Token::Proc(name, is_export, num_locals) => SpecToken::Proc(
                name@,
                is_export,
                num_locals,
            ),
            Token::Begin => SpecToken::Begin,
            Token::End => SpecToken::End,
            Token::Else => SpecToken::Else,
            Token::IfTrue => SpecToken::IfTrue,
            Token::WhileTrue => SpecToken::WhileTrue,
            Token::Repeat(count) => SpecToken::Repeat(count),
            Token::Add => SpecToken::Add,
            Token::Push(value) => SpecToken::Push(value),
            Token::Exec(target) => SpecToken::Exec(target@),
            Token::Call(target) => SpecToken::Call(target@),
            Token::SysCall(name) => SpecToken::SysCall(name@),
        }
    }
}

impl SpecTarget {
    /// The segments of a path; those at odd positions stand between the two colons of a `::`.
    pub open spec fn segments(text: Seq<char>) -> Seq<Seq<char>> {
        Separator::Char(':').parts(text)
    }

    /// True if the segments are those of a path: nonempty names with `::` between them.
    pub open spec fn is_path(segments: Seq<Seq<char>>) -> bool {
        segments.len() % 2 == 1 && forall|i: int|
            0 <= i < segments.len() ==> ((#[trigger] segments[i]).len() == 0 <==> i % 2 == 1)
    }

    /// True if the text is a name.
    pub open spec fn is_name(text: Seq<char>) -> bool {
        Self::segments(text).len() == 1 && text.len() > 0
    }

    /// The procedure which the text names, if it names one.
    pub open spec fn read(text: Seq<char>) -> Option<SpecTarget> {
        let segments = Self::segments(text);
        if Self::is_name(text) {
            Some(SpecTarget::Local(text))
        } else if segments.len() == 3 && Self::is_path(segments) {
            Some(SpecTarget::Imported(segments[0], segments[2]))
        } else {
            None
        }
    }
}

impl SpecToken {
    /// The token for a word, if it is a word of the assembly language.
    pub open spec fn read(word: Seq<char>) -> Option<SpecToken> {
        let parts = Separator::Char('.').parts(word);
        if parts.len() == 1 {
            Self::read_plain(parts[0])
        } else if parts.len() == 2 {
            Self::read_pair(parts[0], parts[1])
        } else if parts.len() == 3 {
            Self::read_proc(parts[0], parts[1], Decimal::number(parts[2], 0xffff))
        } else {
            None
        }
    }

    /// The token for a word without an argument.
    pub open spec fn read_plain(word: Seq<char>) -> Option<SpecToken> {
        if word == "begin"@ {
            Some(SpecToken::Begin)
        } else if word == "end"@ {
            Some(SpecToken::End)
        } else if word == "else"@ {
            Some(SpecToken::Else)
        } else if word == "add"@ {
            Some(SpecToken::Add)
        } else {
            None
        }
    }

    /// The token for a word with one argument.
    pub open spec fn read_pair(word: Seq<char>, argument: Seq<char>) -> Option<SpecToken> {
        if word == "use"@ {
            let segments = SpecTarget::segments(argument);
            if SpecTarget::is_path(segments) {
                Some(SpecToken::Use(argument, segments.last()))
            } else {
                None
            }
        } else if word == "if"@ {
            if argument == "true"@ {
                Some(SpecToken::IfTrue)
            } else {
                None
            }
        } else if word == "while"@ {
            if argument == "true"@ {
                Some(SpecToken::WhileTrue)
            } else {
                None
            }
        } else if word == "repeat"@ {
            match Decimal::number(argument, u32::MAX as int) {
                Some(count) => Some(SpecToken::Repeat(count as u32)),
                None => None,
            }
        } else if word == "push"@ {
            match Decimal::number(argument, MODULUS - 1) {
                Some(value) => Some(SpecToken::Push(value as u64)),
                None => None,
            }
        } else if word == "exec"@ {
            match SpecTarget::read(argument) {
                Some(target) => Some(SpecToken::Exec(target)),
                None => None,
            }
        } else if word == "call"@ {
            match SpecTarget::read(argument) {
                Some(target) => Some(SpecToken::Call(target)),
                None => None,
            }
        } else if word == "syscall"@ {
            if SpecTarget::is_name(argument) {
                Some(SpecToken::SysCall(argument))
            } else {
                None
            }
        } else {
            Self::read_proc(word, argument, Some(0))
        }
    }

    /// The token for the head of a procedure with the given number of locals.
    pub open spec fn read_proc(word: Seq<char>, name: Seq<char>, num_locals: Option<int>) -> Option<
        SpecToken,
    > {
        if (word == "proc"@ || word == "export"@) && SpecTarget::is_name(name)
            && num_locals is Some {
            Some(SpecToken::Proc(name, word == "export"@, num_locals->0 as u32))
        } else {
            None
        }
    }
}

/// Returns true if the text is a name.
fn is_name(text: &str) -> (r: bool)
    ensures
        r == SpecTarget::is_name(text@),
{
    let segments = Separator::Char(':').split(text);
    assert(segments@.len() == SpecTarget::segments(text@).len());
    segments.len() == 1 && !text.is_empty()
}

/// Returns true if the segments are those of a path.
fn is_path(segments: &Vec<String>) -> (r: bool)
    ensures
        r == SpecTarget::is_path(Separator::contents(segments@)),
{
    let ghost contents = Separator::contents(segments@);
    if segments.len() % 2 == 0 {
        return false;
    }
    let mut i: usize = 0;
    while i < segments.len()
        invariant
            i <= segments.len(),
            contents == Separator::contents(segments@),
            forall|j: int|
                0 <= j < i ==> ((#[trigger] contents[j]).len() == 0 <==> j % 2 == 1),
        decreases segments.len() - i,
    {
        assert(contents[i as int] == segments@[i as int]@);
        if segments[i].as_str().is_empty() != (i % 2 == 1) {
            return false;
        }
        i = i + 1;
    }
    true
}

impl Target {
    /// Returns the procedure which the text names, if it names one.
    fn read(text: &str) -> (r: Option<Target>)
        ensures
            r matches Some(target) ==> SpecTarget::read(text@) == Some(target@),
            r is None ==> SpecTarget::read(text@) is None,
    {
        if is_name(text) {
            return Some(Target::Local(text.to_owned()));
        }
        let segments = Separator::Char(':').split(text);
        assert(segments@.len() == SpecTarget::segments(text@).len());
        if segments.len() == 3 && is_path(&segments) {
            assert(segments@[0]@ == SpecTarget::segments(text@)[0]);
            assert(segments@[2]@ == SpecTarget::segments(text@)[2]);
            Some(Target::Imported(segments[0].clone(), segments[2].clone()))
        } else {
            None
        }
    }
}

impl Token {
    /// Returns the token for a word, if it is a word of the assembly language.
    pub fn read(word: &str) -> (r: Option<Token>)
        ensures
            r matches Some(token) ==> SpecToken::read(word@) == Some(token@),
            r is None ==> SpecToken::read(word@) is None,
    {
        let parts = Separator::Char('.').split(word);
        let ghost contents = Separator::Char('.').parts(word@);
        assert(parts@.len() == contents.len());
        assert(forall|i: int| 0 <= i < contents.len() ==> parts@[i]@ == #[trigger] contents[i]);
        if parts.len() == 1 {
            Self::read_plain(parts[0].as_str())
        } else if parts.len() == 2 {
            Self::read_pair(parts[0].as_str(), parts[1].as_str())
        } else if parts.len() == 3 {
            Self::read_proc(
                parts[0].as_str(),
                parts[1].as_str(),
                Decimal::parse(parts[2].as_str(), 0xffff),
            )
        } else {
            None
        }
    }

    /// Returns the token for a word without an argument.
    fn read_plain(word: &str) -> (r: Option<Token>)
        ensures
            r matches Some(token) ==> SpecToken::read_plain(word@) == Some(token@),
            r is None ==> SpecToken::read_plain(word@) is None,
    {
        if same_text(word, "begin") {
            Some(Token::Begin)
        } else if same_text(word, "end") {
            Some(Token::End)
        } else if same_text(word, "else") {
            Some(Token::Else)
        } else if same_text(word, "add") {
            Some(Token::Add)
        } else {
            None
        }
    }

    /// Returns the token for a word with one argument.
    fn read_pair(word: &str, argument: &str) -> (r: Option<Token>)
        ensures
            r matches Some(token) ==> SpecToken::read_pair(word@, argument@) == Some(token@),
            r is None ==> SpecToken::read_pair(word@, argument@) is None,
    {
        if same_text(word, "use") {
            let segments = Separator::Char(':').split(argument);
            let ghost contents = SpecTarget::segments(argument@);
            assert(segments@.len() == contents.len());
            if is_path(&segments) {
                let alias = segments[segments.len() - 1].clone();
                assert(alias@ == contents.last());
                Some(Token::Use(argument.to_owned(), alias))
            } else {
                None
            }
        } else if same_text(word, "if") {
            if same_text(argument, "true") {
                Some(Token::IfTrue)
            } else {
                None
            }
        } else if same_text(word, "while") {
            if same_text(argument, "true") {
                Some(Token::WhileTrue)
            } else {
                None
            }
        } else if same_text(word, "repeat") {
            match Decimal::parse(argument, u32::MAX as u64) {
                Some(count) => Some(Token::Repeat(count as u32)),
                None => None,
            }
        } else if same_text(word, "push") {
            match Decimal::parse(argument, MODULUS - 1) {
                Some(value) => Some(Token::Push(value)),
                None => None,
            }
        } else if same_text(word, "exec") {
            match Target::read(argument) {
                Some(target) => Some(Token::Exec(target)),
                None => None,
            }
        } else if same_text(word, "call") {
            match Target::read(argument) {
                Some(target) => Some(Token::Call(target)),
                None => None,
            }
        } else if same_text(word, "syscall") {
            if is_name(argument) {
                Some(Token::SysCall(argument.to_owned()))
            } else {
                None
            }
        } else {
            Self::read_proc(word, argument, Some(0))
        }
    }

    /// Returns the token for the head of a procedure with the given number of locals.
    fn read_proc(word: &str, name: &str, num_locals: Option<u64>) -> (r: Option<Token>)
        requires
            num_locals matches Some(n) ==> n <= 0xffff,
        ensures
            ({
                let spec = SpecToken::read_proc(
                    word@,
                    name@,
                    match num_locals {
                        Some(n) => Some(n as int),
                        None => None,
                    },
                );
                &&& r matches Some(token) ==> spec == Some(token@)
                &&& r is None ==> spec is None
            }),
    {
        let is_export = same_text(word, "export");
        if !is_export && !same_text(word, "proc") {
            return None;
        }
        match num_locals {
            Some(num_locals) => if is_name(name) {
                Some(Token::Proc(name.to_owned(), is_export, num_locals as u32))
            } else {
                None
            },
            None => None,
        }
    }
}

} // verus!
