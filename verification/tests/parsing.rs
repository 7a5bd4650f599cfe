use assembly::parsers::token::{Target, Token};
use assembly::parsers::{parse_module, parse_program};
use assembly::text::{same_text, Decimal, Separator};
use assembly::{AssemblerError, Instruction, Node};

fn is_program(source: &str) -> bool {
    match parse_program(source) {
        Ok(_) => true,
        Err(error) => {
            assert!(matches!(error, AssemblerError::InvalidSource));
            false
        }
    }
}

fn is_module(source: &str) -> bool {
    parse_module(source).is_ok()
}

#[test]
fn text_is_split_at_separators() {
    let parts = Separator::Char('.').split("push.1..");
    assert_eq!(parts, vec!["push", "1", "", ""]);
    let parts = Separator::Space.split(" a\tb\r\nc");
    assert_eq!(parts, vec!["", "a", "b", "", "c"]);
    assert_eq!(Separator::Space.split(""), vec![""]);
}

#[test]
fn decimals_are_read() {
    assert_eq!(Decimal::parse("0", 10), Some(0));
    assert_eq!(Decimal::parse("007", 10), Some(7));
    assert_eq!(Decimal::parse("10", 10), Some(10));
    assert_eq!(Decimal::parse("11", 10), None);
    assert_eq!(Decimal::parse("", 10), None);
    assert_eq!(Decimal::parse("1a", 100), None);
    assert_eq!(Decimal::parse("-1", 100), None);
    assert_eq!(Decimal::parse("18446744073709551615", u64::MAX), Some(u64::MAX));
    assert_eq!(Decimal::parse("18446744073709551616", u64::MAX), None);
}

#[test]
fn texts_are_compared() {
    assert!(same_text("abc", "abc"));
    assert!(!same_text("abc", "abd"));
    assert!(!same_text("abc", "ab"));
}

#[test]
fn words_are_read() {
    assert!(matches!(Token::read("begin"), Some(Token::Begin)));
    assert!(matches!(Token::read("end"), Some(Token::End)));
    assert!(matches!(Token::read("else"), Some(Token::Else)));
    assert!(matches!(Token::read("add"), Some(Token::Add)));
    assert!(matches!(Token::read("if.true"), Some(Token::IfTrue)));
    assert!(matches!(Token::read("while.true"), Some(Token::WhileTrue)));
    assert!(matches!(Token::read("repeat.12"), Some(Token::Repeat(12))));
    assert!(matches!(Token::read("push.7"), Some(Token::Push(7))));
    assert!(Token::read("if.false").is_none());
    assert!(Token::read("if").is_none());
    assert!(Token::read("begin.1").is_none());
    assert!(Token::read("mul").is_none());
    assert!(Token::read("proc.a.1.2").is_none());
    assert!(Token::read("proc.").is_none());
    assert!(Token::read("syscall.a::b").is_none());

    match Token::read("use.a::b::c") {
        Some(Token::Use(path, alias)) => {
            assert_eq!(path, "a::b::c");
            assert_eq!(alias, "c");
        }
        _ => panic!("expected an import"),
    }
    assert!(Token::read("use.a:b").is_none());
    assert!(Token::read("use.a::").is_none());
    assert!(Token::read("use.::a").is_none());

    match Token::read("export.foo.3") {
        Some(Token::Proc(name, is_export, num_locals)) => {
            assert_eq!(name, "foo");
            assert!(is_export);
            assert_eq!(num_locals, 3);
        }
        _ => panic!("expected a procedure"),
    }
    match Token::read("call.a::b") {
        Some(Token::Call(Target::Imported(module, name))) => {
            assert_eq!(module, "a");
            assert_eq!(name, "b");
        }
        _ => panic!("expected a call"),
    }
    assert!(matches!(Token::read("exec.a"), Some(Token::Exec(Target::Local(_)))));
    assert!(Token::read("exec.a::b::c").is_none());
}

#[test]
fn numbers_are_bounded() {
    assert!(is_program("begin push.18446744069414584320 end"));
    assert!(!is_program("begin push.18446744069414584321 end"));
    assert!(is_program("begin repeat.4294967295 add end end"));
    assert!(!is_program("begin repeat.4294967296 add end end"));
    assert!(is_module("proc.a.65535 add end"));
    assert!(!is_module("proc.a.65536 add end"));
}

#[test]
fn structure_is_checked() {
    assert!(is_program("begin add end"));
    assert!(!is_program(""));
    assert!(!is_program("begin end"));
    assert!(!is_program("begin add"));
    assert!(!is_program("begin add end end"));
    assert!(!is_program("begin add end begin add end"));
    assert!(!is_program("begin add end proc.a add end"));
    assert!(!is_program("add"));
    assert!(!is_program("begin if.true end end"));
    assert!(!is_program("begin if.true add else end end"));
    assert!(!is_program("begin if.true add else add else add end end"));
    assert!(!is_program("begin while.true add else add end end"));
    assert!(!is_program("begin else add end"));
    assert!(!is_program("begin proc.a add end end"));
    assert!(is_module(""));
    assert!(!is_module("begin add end"));
}

#[test]
fn imports_come_first_and_once() {
    assert!(is_module("use.a use.b proc.x exec.a::f end"));
    assert!(!is_module("proc.x add end use.a"));
    assert!(!is_module("use.a::c use.b::c"));
    assert!(!is_module("use.a proc.x exec.b::f end"));
}

#[test]
fn names_are_resolved() {
    assert!(!is_program("begin exec.foo end"));
    assert!(!is_program("proc.a exec.a end begin add end"));
    let module = parse_module("use.x::y proc.a add end proc.b call.a exec.y::z end").unwrap();
    let body = &module.local_procs[1].body;
    assert!(matches!(body[0], Node::Instruction(Instruction::CallLocal(0))));
    match &body[1] {
        Node::Instruction(Instruction::ExecImported(id)) => {
            assert_eq!(id.module(), "x::y");
            assert_eq!(id.name(), "z");
        }
        _ => panic!("expected an instruction"),
    }
    // the first of two procedures with one name is meant
    let module = parse_module("proc.a add end proc.a add end proc.b exec.a end").unwrap();
    assert!(matches!(
        module.local_procs[2].body[0],
        Node::Instruction(Instruction::ExecLocal(0))
    ));
}

#[test]
fn layout_plays_no_part() {
    let one = parse_program("begin\n\tpush.1\r\n  add\nend\n").unwrap();
    let two = parse_program("begin push.1 add end").unwrap();
    assert_eq!(format!("{:?}", one.body), format!("{:?}", two.body));
}
