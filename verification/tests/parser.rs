use brainmelt::ast::Node;
use brainmelt::error::CompileError;
use brainmelt::lexer::lex;
use brainmelt::parser::parse;

#[test]
fn parse_simple_program() {
    let tokens = lex("+[-<]");
    let ast = parse(&tokens).unwrap();

    assert_eq!(
        ast,
        vec![
            Node::Add(1),
            Node::Loop(vec![Node::Add(-1), Node::Move(-1)]),
        ]
    );
}

#[test]
fn parse_nested_loop() {
    let tokens = lex("[[]]");
    let ast = parse(&tokens).unwrap();

    assert_eq!(ast, vec![Node::Loop(vec![Node::Loop(vec![])])]);
}

#[test]
fn detects_unmatched_close() {
    let err = parse(&lex("]")).unwrap_err();
    assert_eq!(err, CompileError::UnmatchedClose { line: 1, col: 1 });
}

#[test]
fn detects_unmatched_open() {
    let err = parse(&lex("[")).unwrap_err();
    assert_eq!(err, CompileError::UnmatchedOpen { line: 1, col: 1 });
}

#[test]
fn reports_line_and_column() {
    let err = parse(&lex("+\n]")).unwrap_err();
    assert_eq!(err, CompileError::UnmatchedClose { line: 2, col: 1 });
}

#[test]
fn unmatched_open_names_the_last_unclosed_bracket() {
    let err = parse(&lex("[+[-[]")).unwrap_err();
    assert_eq!(err, CompileError::UnmatchedOpen { line: 1, col: 3 });
}

#[test]
fn unmatched_close_is_reported_before_unmatched_open() {
    let err = parse(&lex("[]][")).unwrap_err();
    assert_eq!(err, CompileError::UnmatchedClose { line: 1, col: 3 });
}

#[test]
fn every_command_becomes_its_node() {
    let ast = parse(&lex("+-<>.,")).unwrap();
    assert_eq!(
        ast,
        vec![
            Node::Add(1),
            Node::Add(-1),
            Node::Move(-1),
            Node::Move(1),
            Node::Put,
            Node::Get,
        ]
    );
}

#[test]
fn empty_program_parses_to_nothing() {
    assert_eq!(parse(&lex("no commands here")).unwrap(), vec![]);
}
