//! How the words of the assembly language are spelled.
use vstd::prelude::*;

use crate::felt::MODULUS;
use crate::laws::words;
use crate::parsers::token::{SpecTarget, SpecToken};
use crate::text::{Decimal, Separator};

verus! {

/// True if the text can be the name of a procedure, or one of the names in a path.
pub open spec fn is_label(text: Seq<char>) -> bool {
    text.len() > 0 && words::lacks(text, ':') && words::lacks(text, '.')
}

/// True if all texts can be names.
pub open spec fn are_labels(names: Seq<Seq<char>>) -> bool {
    names.len() > 0 && forall|i: int| 0 <= i < names.len() ==> is_label(#[trigger] names[i])
}

/// The two texts with a dot between them.
pub open spec fn dotted(head: Seq<char>, argument: Seq<char>) -> Seq<char> {
    head.push('.') + argument
}

/// The path made of the names, with two colons between every two of them.
pub open spec fn pathed(names: Seq<Seq<char>>) -> Seq<char>
    decreases names.len(),
{
    if names.len() <= 1 {
        names[0]
    } else {
        pathed(names.drop_last()).push(':').push(':') + names.last()
    }
}

/// True if the text names the procedure: by its name alone, or by the name of a module and its
/// own, with two colons between them.
pub open spec fn names_target(text: Seq<char>, target: SpecTarget) -> bool {
    match target {
        SpecTarget::Local(name) => is_label(name) && text == name,
        SpecTarget::Imported(module, name) => {
            &&& is_label(module)
            &&& is_label(name)
            &&& text == module.push(':').push(':') + name
        },
    }
}

/// The head of a procedure with the given name, without the number of its locals.
pub open spec fn head(is_export: bool, name: Seq<char>) -> Seq<char> {
    if is_export {
        dotted("export"@, name)
    } else {
        dotted("proc"@, name)
    }
}

/// True if the word is a spelling of the token.
pub open spec fn spelled(word: Seq<char>, token: SpecToken) -> bool {
    match token {
        SpecToken::Use(path, alias) => word == dotted("use"@, path) && exists|
            names: Seq<Seq<char>>,
        | #[trigger]
            are_labels(names) && path == pathed(names) && alias == names.last(),
        SpecToken::Proc(name, is_export, num_locals) => {
            &&& is_label(name)
            &&& num_locals <= 0xffff
            &&& {
                ||| word == head(is_export, name) && num_locals == 0
                ||| exists|number: Seq<char>|
                    word == #[trigger] dotted(head(is_export, name), number) && words::writes(
                        number,
                        num_locals as int,
                    )
            }
        },
        SpecToken::Begin => word == "begin"@,
        SpecToken::End => word == "end"@,
        SpecToken::Else => word == "else"@,
        SpecToken::IfTrue => word == dotted("if"@, "true"@),
        SpecToken::WhileTrue => word == dotted("while"@, "true"@),
        SpecToken::Repeat(count) => exists|number: Seq<char>|
            word == #[trigger] dotted("repeat"@, number) && words::writes(number, count as int),
        SpecToken::Add => word == "add"@,
        SpecToken::Push(value) => value < MODULUS && exists|number: Seq<char>|
            word == #[trigger] dotted("push"@, number) && words::writes(number, value as int),
        SpecToken::Exec(target) => exists|text: Seq<char>|
            word == #[trigger] dotted("exec"@, text) && names_target(text, target),
        SpecToken::Call(target) => exists|text: Seq<char>|
            word == #[trigger] dotted("call"@, text) && names_target(text, target),
        SpecToken::SysCall(name) => is_label(name) && word == dotted("syscall"@, name),
    }
}

/// The words which start tokens have no dots in them and differ from one another.
proof fn lemma_keywords()
    ensures
        words::lacks("begin"@, '.'),
        words::lacks("end"@, '.'),
        words::lacks("else"@, '.'),
        words::lacks("add"@, '.'),
        words::lacks("true"@, '.'),
        words::lacks("use"@, '.'),
        words::lacks("if"@, '.'),
        words::lacks("while"@, '.'),
        words::lacks("repeat"@, '.'),
        words::lacks("push"@, '.'),
        words::lacks("exec"@, '.'),
        words::lacks("call"@, '.'),
        words::lacks("syscall"@, '.'),
        words::lacks("proc"@, '.'),
        words::lacks("export"@, '.'),
        "begin"@.len() == 5,
        "end"@.len() == 3 && "end"@[0] == 'e',
        "else"@.len() == 4,
        "add"@.len() == 3 && "add"@[0] == 'a',
        "use"@.len() == 3,
        "if"@.len() == 2,
        "while"@.len() == 5,
        "repeat"@.len() == 6 && "repeat"@[0] == 'r',
        "push"@.len() == 4 && "push"@[1] == 'u',
        "exec"@.len() == 4 && "exec"@[0] == 'e',
        "call"@.len() == 4 && "call"@[0] == 'c',
        "syscall"@.len() == 7,
        "proc"@.len() == 4 && "proc"@[0] == 'p' && "proc"@[1] == 'r',
        "push"@[0] == 'p',
        "export"@.len() == 6 && "export"@[0] == 'e',
{
    reveal_strlit("begin");
    reveal_strlit("end");
    reveal_strlit("else");
    reveal_strlit("add");
    reveal_strlit("true");
    reveal_strlit("use");
    reveal_strlit("if");
    reveal_strlit("while");
    reveal_strlit("repeat");
    reveal_strlit("push");
    reveal_strlit("exec");
    reveal_strlit("call");
    reveal_strlit("syscall");
    reveal_strlit("proc");
    reveal_strlit("export");
}

/// The parts of a word without dots, with one dot and with two.
proof fn lemma_dots(word: Seq<char>, a: Seq<char>, b: Seq<char>, c: Seq<char>)
    requires
        words::lacks(a, '.'),
        words::lacks(b, '.'),
        words::lacks(c, '.'),
    ensures
        word == a ==> Separator::Char('.').parts(word) == seq![a],
        word == dotted(a, b) ==> Separator::Char('.').parts(word) == seq![a, b],
        word == dotted(dotted(a, b), c) ==> Separator::Char('.').parts(word) == seq![a, b, c],
{
    words::lemma_parts(word, seq![a], '.');
    words::lemma_parts(word, seq![a, b], '.');
    words::lemma_parts(word, seq![a, b, c], '.');
    reveal_with_fuel(words::joined, 4);
    assert(seq![a, b].drop_last() =~= seq![a]);
    assert(seq![a, b, c].drop_last() =~= seq![a, b]);
}

/// A word is put together from its parts.
proof fn lemma_undots(word: Seq<char>)
    ensures
        ({
            let parts = Separator::Char('.').parts(word);
            &&& parts.len() > 0
            &&& words::all_lack(parts, '.')
            &&& parts.len() == 1 ==> word == parts[0]
            &&& parts.len() == 2 ==> word == dotted(parts[0], parts[1])
            &&& parts.len() == 3 ==> word == dotted(dotted(parts[0], parts[1]), parts[2])
        }),
{
    let parts = Separator::Char('.').parts(word);
    words::lemma_parts(word, parts, '.');
    reveal_with_fuel(words::joined, 4);
    if parts.len() == 2 {
        assert(parts.drop_last() =~= seq![parts[0]]);
    }
    if parts.len() == 3 {
        assert(parts.drop_last() =~= seq![parts[0], parts[1]]);
        assert(parts.drop_last().drop_last() =~= seq![parts[0]]);
    }
}

/// A text is a name exactly if it is not empty and has no colons.
proof fn lemma_name(text: Seq<char>)
    ensures
        SpecTarget::is_name(text) <==> text.len() > 0 && words::lacks(text, ':'),
{
    let segments = SpecTarget::segments(text);
    words::lemma_parts(text, seq![text], ':');
    words::lemma_parts(text, segments, ':');
    reveal_with_fuel(words::joined, 2);
    if segments.len() == 1 {
        assert(words::lacks(segments[0], ':'));
    }
}

/// The names with nothing between every two of them.
spec fn spread(names: Seq<Seq<char>>) -> Seq<Seq<char>> {
    Seq::new(
        (2 * names.len() - 1) as nat,
        |i: int|
            if i % 2 == 0 {
                names[i / 2]
            } else {
                Seq::empty()
            },
    )
}

/// A path is put together from its names with nothing between them.
proof fn lemma_spread(names: Seq<Seq<char>>)
    requires
        names.len() > 0,
    ensures
        words::joined(spread(names), ':') == pathed(names),
    decreases names.len(),
{
    if names.len() == 1 {
        assert(spread(names).len() == 1);
        assert(spread(names)[0] == names[0]);
    } else {
        let front = names.drop_last();
        let none = Seq::<char>::empty();
        lemma_spread(front);
        let all = spread(names);
        assert(all.drop_last() =~= spread(front).push(none));
        assert(spread(front).push(none).drop_last() =~= spread(front));
        assert(all.last() == names.last());
        assert(words::joined(spread(front).push(none), ':') =~= words::joined(
            spread(front),
            ':',
        ).push(':'));
    }
}

/// A character is in a path exactly if it is a colon between names or is in one of the names.
proof fn lemma_pathed_lacks(names: Seq<Seq<char>>, c: char)
    requires
        names.len() > 0,
        c != ':',
    ensures
        words::lacks(pathed(names), c) <==> words::all_lack(names, c),
    decreases names.len(),
{
    let path = pathed(names);
    if names.len() == 1 {
        if words::lacks(path, c) {
            assert forall|i: int| 0 <= i < names.len() implies words::lacks(
                #[trigger] names[i],
                c,
            ) by {}
        }
        if words::all_lack(names, c) {
            assert(words::lacks(names[0], c));
        }
    } else {
        let front = names.drop_last();
        let before = pathed(front);
        lemma_pathed_lacks(front, c);
        if words::lacks(path, c) {
            assert forall|i: int| 0 <= i < before.len() implies #[trigger] before[i] != c by {
                assert(path[i] == before[i]);
            }
            assert forall|i: int| 0 <= i < names.len() implies words::lacks(
                #[trigger] names[i],
                c,
            ) by {
                if i < front.len() {
                    assert(front[i] == names[i]);
                } else {
                    let last = names[i];
                    assert forall|j: int| 0 <= j < last.len() implies #[trigger] last[j] != c by {
                        assert(path[before.len() + 2 + j] == last[j]);
                    }
                }
            }
        }
        if words::all_lack(names, c) {
            assert forall|i: int| 0 <= i < front.len() implies words::lacks(
                #[trigger] front[i],
                c,
            ) by {
                assert(front[i] == names[i]);
            }
            assert(words::lacks(names[names.len() - 1], c));
        }
    }
}

/// The segments of a path are its names with nothing between them.
proof fn lemma_path_segments(names: Seq<Seq<char>>)
    requires
        are_labels(names),
    ensures
        SpecTarget::segments(pathed(names)) == spread(names),
        SpecTarget::is_path(spread(names)),
        spread(names).last() == names.last(),
        words::lacks(pathed(names), '.'),
{
    let segments = spread(names);
    lemma_spread(names);
    assert forall|i: int| 0 <= i < segments.len() implies words::lacks(
        #[trigger] segments[i],
        ':',
    ) by {
        if i % 2 == 0 {
            assert(is_label(names[i / 2]));
        }
    }
    words::lemma_parts(pathed(names), segments, ':');
    assert forall|i: int| 0 <= i < segments.len() implies ((#[trigger] segments[i]).len() == 0
        <==> i % 2 == 1) by {
        if i % 2 == 0 {
            assert(is_label(names[i / 2]));
        }
    }
    assert forall|i: int| 0 <= i < names.len() implies words::lacks(#[trigger] names[i], '.') by {
        assert(is_label(names[i]));
    }
    lemma_pathed_lacks(names, '.');
}

/// A text whose segments are those of a path is the path of the names among them.
proof fn lemma_path_names(text: Seq<char>) -> (names: Seq<Seq<char>>)
    requires
        SpecTarget::is_path(SpecTarget::segments(text)),
        words::lacks(text, '.'),
    ensures
        are_labels(names),
        text == pathed(names),
        names.last() == SpecTarget::segments(text).last(),
        SpecTarget::segments(text) == spread(names),
{
    let segments = SpecTarget::segments(text);
    let names = Seq::new(((segments.len() + 1) / 2) as nat, |i: int| segments[2 * i]);
    words::lemma_parts(text, segments, ':');
    assert(spread(names) =~= segments) by {
        assert forall|i: int| 0 <= i < segments.len() implies #[trigger] spread(names)[i]
            == segments[i] by {
            if i % 2 == 1 {
                assert(segments[i].len() == 0);
                assert(segments[i] =~= Seq::empty());
            }
        }
    }
    lemma_spread(names);
    lemma_pathed_lacks(names, '.');
    assert forall|i: int| 0 <= i < names.len() implies is_label(#[trigger] names[i]) by {
        assert(words::lacks(names[i], '.'));
        assert(words::lacks(segments[2 * i], ':'));
        assert((2 * i) % 2 == 0);
        assert(segments[2 * i].len() > 0);
    }
    names
}

/// A text without dots is read as the procedure which it names.
proof fn lemma_target(text: Seq<char>, target: SpecTarget)
    requires
        words::lacks(text, '.'),
    ensures
        SpecTarget::read(text) == Some(target) <==> names_target(text, target),
{
    let segments = SpecTarget::segments(text);
    lemma_name(text);
    match target {
        SpecTarget::Local(_) => {},
        SpecTarget::Imported(module, name) => {
            let names = seq![module, name];
            reveal_with_fuel(pathed, 2);
            assert(names.drop_last() =~= seq![module]);
            if names_target(text, target) {
                assert(text == pathed(names));
                assert(are_labels(names));
                lemma_path_segments(names);
                assert(!words::lacks(text, ':')) by {
                    assert(text[module.len() as int] == ':');
                }
                assert(segments[0] == module && segments[2] == name);
            }
            if SpecTarget::read(text) == Some(target) {
                let found = lemma_path_names(text);
                assert(found.len() == 2);
                assert(spread(found)[0] == found[0]);
                assert(spread(found)[2] == found[1]);
                assert(found =~= names);
                assert(is_label(names[0]) && is_label(names[1]));
            }
        },
    }
}

/// The procedures which texts name have no dots in their names.
proof fn lemma_target_lacks(text: Seq<char>, target: SpecTarget)
    requires
        names_target(text, target),
    ensures
        words::lacks(text, '.'),
{
}

/// Numerals have no dots.
proof fn lemma_number_lacks(text: Seq<char>, n: int)
    requires
        words::writes(text, n),
    ensures
        words::lacks(text, '.'),
{
    words::lemma_number(text, n, n);
}

/// What is read of a word is spelled by the word.
proof fn lemma_read_is_spelled(word: Seq<char>)
    ensures
        SpecToken::read(word) matches Some(token) ==> spelled(word, token),
{
    let parts = Separator::Char('.').parts(word);
    lemma_undots(word);
    match SpecToken::read(word) {
        None => {},
        Some(token) => {
            if parts.len() == 2 {
                let head = parts[0];
                let argument = parts[1];
                assert(words::lacks(argument, '.'));
                lemma_pair_is_spelled(word, head, argument);
            } else if parts.len() == 3 {
                let n = Decimal::number(parts[2], 0xffff)->0;
                assert(words::lacks(parts[1], '.'));
                lemma_name(parts[1]);
                words::lemma_number(parts[2], 0xffff, n);
                assert(token == SpecToken::Proc(parts[1], parts[0] == "export"@, n as u32));
                assert(words::writes(parts[2], n as u32 as int));
                assert(word == dotted(head(parts[0] == "export"@, parts[1]), parts[2]));
            }
        },
    }
}

/// What is read of a word with one dot is spelled by the word.
proof fn lemma_pair_is_spelled(word: Seq<char>, head: Seq<char>, argument: Seq<char>)
    requires
        word == dotted(head, argument),
        words::lacks(argument, '.'),
    ensures
        SpecToken::read_pair(head, argument) matches Some(token) ==> spelled(word, token),
{
    match SpecToken::read_pair(head, argument) {
        None => {},
        Some(token) => {
            lemma_name(argument);
            match token {
                SpecToken::Use(path, alias) => {
                    let names = lemma_path_names(argument);
                    assert(are_labels(names) && path == pathed(names) && alias == names.last());
                },
                SpecToken::Repeat(count) => {
                    words::lemma_number(argument, u32::MAX as int, count as int);
                    words::lemma_number(
                        argument,
                        u32::MAX as int,
                        Decimal::number(argument, u32::MAX as int)->0,
                    );
                    assert(word == dotted("repeat"@, argument));
                },
                SpecToken::Push(value) => {
                    words::lemma_number(
                        argument,
                        MODULUS - 1,
                        Decimal::number(argument, MODULUS - 1)->0,
                    );
                    assert(word == dotted("push"@, argument));
                },
                SpecToken::Exec(target) => {
                    lemma_target(argument, target);
                    assert(word == dotted("exec"@, argument));
                },
                SpecToken::Call(target) => {
                    lemma_target(argument, target);
                    assert(word == dotted("call"@, argument));
                },
                _ => {},
            }
        },
    }
}

/// What a word spells is read of it.
#[verifier::rlimit(40)]
proof fn lemma_spelled_is_read(word: Seq<char>, token: SpecToken)
    requires
        spelled(word, token),
    ensures
        SpecToken::read(word) == Some(token),
{
    lemma_keywords();
    match token {
        SpecToken::Use(path, alias) => {
            let names = choose|names: Seq<Seq<char>>| #[trigger]
                are_labels(names) && path == pathed(names) && alias == names.last();
            lemma_path_segments(names);
            lemma_dots(word, "use"@, path, path);
        },
        SpecToken::Proc(name, is_export, num_locals) => {
            let keyword = if is_export {
                "export"@
            } else {
                "proc"@
            };
            lemma_name(name);
            if word == head(is_export, name) && num_locals == 0 {
                lemma_dots(word, keyword, name, name);
            } else {
                let number = choose|number: Seq<char>|
                    word == #[trigger] dotted(head(is_export, name), number) && words::writes(
                        number,
                        num_locals as int,
                    );
                lemma_number_lacks(number, num_locals as int);
                lemma_dots(word, keyword, name, number);
                words::lemma_number(number, 0xffff, num_locals as int);
            }
        },
        SpecToken::Repeat(count) => {
            let number = choose|number: Seq<char>|
                word == #[trigger] dotted("repeat"@, number) && words::writes(
                    number,
                    count as int,
                );
            lemma_number_lacks(number, count as int);
            lemma_dots(word, "repeat"@, number, number);
            words::lemma_number(number, u32::MAX as int, count as int);
        },
        SpecToken::Push(value) => {
            let number = choose|number: Seq<char>|
                word == #[trigger] dotted("push"@, number) && words::writes(number, value as int);
            lemma_number_lacks(number, value as int);
            lemma_dots(word, "push"@, number, number);
            words::lemma_number(number, MODULUS - 1, value as int);
        },
        SpecToken::Exec(target) => {
            let text = choose|text: Seq<char>|
                word == #[trigger] dotted("exec"@, text) && names_target(text, target);
            lemma_target_lacks(text, target);
            lemma_dots(word, "exec"@, text, text);
            lemma_target(text, target);
        },
        SpecToken::Call(target) => {
            let text = choose|text: Seq<char>|
                word == #[trigger] dotted("call"@, text) && names_target(text, target);
            lemma_target_lacks(text, target);
            lemma_dots(word, "call"@, text, text);
            lemma_target(text, target);
        },
        SpecToken::SysCall(name) => {
            lemma_name(name);
            lemma_dots(word, "syscall"@, name, name);
        },
        SpecToken::IfTrue => {
            lemma_dots(word, "if"@, "true"@, "true"@);
        },
        SpecToken::WhileTrue => {
            lemma_dots(word, "while"@, "true"@, "true"@);
        },
        _ => {
            lemma_dots(word, word, word, word);
        },
    }
}

/// A word is read as a token exactly if it is a spelling of the token. So no word is a spelling
/// of two tokens, and what spells no token is no word of the language.
pub proof fn lemma_token(word: Seq<char>, token: SpecToken)
    ensures
        SpecToken::read(word) == Some(token) <==> spelled(word, token),
{
    lemma_read_is_spelled(word);
    if spelled(word, token) {
        lemma_spelled_is_read(word, token);
    }
}

} // verus!
