use deci_parser::token::Token;
use deci_parser::{parse, Construct, Node, Operator, ParseError, Parser, SpliceFailure};

fn keyword() -> String {
    ["inc", "lude"].concat()
}

fn tree(src: &str) -> String {
    format!("{:?}", parse(src, &Vec::new()).unwrap())
}

fn cmd(program: &str, args: &[&str]) -> String {
    let args: Vec<String> = args.iter().map(|a| format!("String({:?})", a)).collect();
    format!(
        "Command {{ program: String({:?}), args: List([{}]) }}",
        program,
        args.join(", ")
    )
}

#[test]
fn pipeline_of_three_commands() {
    let node = parse("a | b | c", &Vec::new()).unwrap();
    match node {
        Node::List(statements) => {
            assert_eq!(statements.len(), 1);
            match &statements[0] {
                Node::Pipeline(stages) => {
                    assert_eq!(stages.len(), 3);
                    let names: Vec<String> = stages
                        .iter()
                        .map(|s| match s {
                            Node::Command { program, .. } => match program.as_ref() {
                                Node::String(p) => p.clone(),
                                _ => panic!("program is not a literal"),
                            },
                            _ => panic!("stage is not a command"),
                        })
                        .collect();
                    assert_eq!(names, vec!["a", "b", "c"]);
                }
                _ => panic!("not a pipeline"),
            }
        }
        _ => panic!("not a list"),
    }
}

#[test]
fn redirect_to_file() {
    assert_eq!(
        tree("a > out"),
        format!("List([Redirect {{ operator: Gt, left: {}, right: String(\"out\") }}])", cmd("a", &[]))
    );
}

#[test]
fn redirections_chain_to_the_left() {
    assert_eq!(
        tree("cmd x > a < b"),
        format!(
            "List([Redirect {{ operator: Lt, left: Redirect {{ operator: Gt, left: {}, right: String(\"a\") }}, right: String(\"b\") }}])",
            cmd("cmd", &["x"])
        )
    );
}

#[test]
fn arguments_after_redirection_stay_with_command() {
    assert_eq!(
        tree("cat > out in"),
        format!("List([Redirect {{ operator: Gt, left: {}, right: String(\"out\") }}])", cmd("cat", &["in"]))
    );
}

#[test]
fn redirect_to_descriptor_and_from_descriptor() {
    assert_eq!(
        tree("run >&2 &1 < x"),
        "List([Redirect { operator: Gt, left: Command { program: String(\"run\"), args: List([Redirect { operator: Lt, left: Fd(1), right: String(\"x\") }]) }, right: Fd(2) }])"
    );
    assert_eq!(
        tree("run &3"),
        "List([Command { program: String(\"run\"), args: List([Fd(3)]) }])"
    );
}

#[test]
fn variable_as_argument_and_program() {
    assert_eq!(
        tree("$cmd $HOME"),
        "List([Command { program: Variable(\"cmd\"), args: List([Variable(\"HOME\")]) }])"
    );
}

#[test]
fn assignment() {
    assert_eq!(
        tree("x=1"),
        "List([Assign { ident: String(\"x\"), value: String(\"1\") }])"
    );
    assert_eq!(
        tree("x = &4"),
        "List([Assign { ident: String(\"x\"), value: Fd(4) }])"
    );
}

#[test]
fn assignment_without_name_fails() {
    match parse("= 1", &Vec::new()) {
        Err(ParseError::SyntaxError { found, expected }) => {
            assert_eq!(found, Token::Assign);
            assert_eq!(expected, Construct::Command);
        }
        other => panic!("unexpected {:?}", other),
    }
}

#[test]
fn assignment_without_value_fails() {
    match parse("x = |", &Vec::new()) {
        Err(ParseError::SyntaxError { found, expected }) => {
            assert_eq!(found, Token::Pipe);
            assert_eq!(expected, Construct::Value);
        }
        other => panic!("unexpected {:?}", other),
    }
}

#[test]
fn pipe_without_command_fails() {
    match parse("a |", &Vec::new()) {
        Err(ParseError::SyntaxError { found, expected }) => {
            assert_eq!(found, Token::EOF);
            assert_eq!(expected, Construct::Command);
        }
        other => panic!("unexpected {:?}", other),
    }
}

#[test]
fn redirect_without_target_fails() {
    match parse("a > ;", &Vec::new()) {
        Err(ParseError::SyntaxError { found, expected }) => {
            assert_eq!(found, Token::Semicolon);
            assert_eq!(expected, Construct::RedirectTarget);
        }
        other => panic!("unexpected {:?}", other),
    }
}

#[test]
fn stray_token_after_statement_fails() {
    match parse("echo a = b", &Vec::new()) {
        Err(ParseError::SyntaxError { found, expected }) => {
            assert_eq!(found, Token::Assign);
            assert_eq!(expected, Construct::Separator);
        }
        other => panic!("unexpected {:?}", other),
    }
}

#[test]
fn statements_and_empty_lines() {
    assert_eq!(
        tree("a; b\n\nc;"),
        format!("List([{}, {}, {}])", cmd("a", &[]), cmd("b", &[]), cmd("c", &[]))
    );
    assert_eq!(tree(""), "List([])");
    assert_eq!(tree("# only a comment\n;"), "List([])");
}

#[test]
fn splice_is_as_if_text_stood_there() {
    let mut p = Parser::new();
    p.add_source("foo.sh".to_string(), "echo hi".to_string());
    let spliced = p.parse(&format!("{} \"foo.sh\" | wc", keyword())).unwrap();
    let direct = parse("echo hi | wc", &Vec::new()).unwrap();
    assert_eq!(format!("{:?}", spliced), format!("{:?}", direct));
}

#[test]
fn splice_nested_texts() {
    let k = keyword();
    let mut p = Parser::new();
    p.add_source("outer".to_string(), format!("a; {} inner", k));
    p.add_source("inner".to_string(), "b x".to_string());
    let spliced = p.parse(&format!("{} outer\nc", k)).unwrap();
    let direct = parse("a; b x\nc", &Vec::new()).unwrap();
    assert_eq!(format!("{:?}", spliced), format!("{:?}", direct));
}

#[test]
fn splice_cycle_fails() {
    let k = keyword();
    let mut sources = Vec::new();
    sources.push(("a".to_string(), format!("{} b", k)));
    sources.push(("b".to_string(), format!("{} a", k)));
    match parse(&format!("{} a", k), &sources) {
        Err(ParseError::IncludeError { path, cause }) => {
            assert_eq!(path, "a");
            assert_eq!(cause, SpliceFailure::Cycle);
        }
        other => panic!("unexpected {:?}", other),
    }
}

#[test]
fn splice_of_itself_fails() {
    let k = keyword();
    let mut p = Parser::new();
    p.add_source("self".to_string(), format!("x; {} self", k));
    match p.parse(&format!("{} self", k)) {
        Err(ParseError::IncludeError { path, cause }) => {
            assert_eq!(path, "self");
            assert_eq!(cause, SpliceFailure::Cycle);
        }
        other => panic!("unexpected {:?}", other),
    }
}

#[test]
fn splice_of_unknown_path_fails() {
    match parse(&format!("{} nowhere", keyword()), &Vec::new()) {
        Err(ParseError::IncludeError { path, cause }) => {
            assert_eq!(path, "nowhere");
            assert_eq!(cause, SpliceFailure::Missing);
        }
        other => panic!("unexpected {:?}", other),
    }
}

#[test]
fn splice_without_path_fails() {
    match parse(&format!("{} ;", keyword()), &Vec::new()) {
        Err(ParseError::SyntaxError { found, expected }) => {
            assert_eq!(found, Token::Semicolon);
            assert_eq!(expected, Construct::Path);
        }
        other => panic!("unexpected {:?}", other),
    }
}

#[test]
fn first_entry_for_a_path_counts() {
    let mut p = Parser::new();
    p.add_source("f".to_string(), "one".to_string());
    p.add_source("f".to_string(), "two".to_string());
    let spliced = p.parse(&format!("{} f", keyword())).unwrap();
    assert_eq!(format!("{:?}", spliced), format!("List([{}])", cmd("one", &[])));
}

#[test]
fn operator_values() {
    assert_ne!(Operator::Gt, Operator::Lt);
}
