use simple_lr::dfa_lr0::build_dfa_lr0;
use simple_lr::dfa_lr1::build_dfa_lr1;
use simple_lr::first_follow::get_first_set;
use simple_lr::grammar::Grammar;
use simple_lr::lexer::{tokenize, Token};
use simple_lr::lr_parser::{format_parse_steps, parse_lr, ParseErrorKind, ParseOutput};
use simple_lr::lr_table::{Action, LRTable};
use simple_lr::symbol::{NonTerminal, Terminal};

fn build_slr_table() -> LRTable {
    let grammar = Grammar::simple_lr();
    let dfa = build_dfa_lr0(&grammar);
    LRTable::build_slr1(&grammar, &dfa).expect("slr table should build")
}

fn parse_ok(input: &str) -> ParseOutput {
    let grammar = Grammar::simple_lr();
    let table = build_slr_table();
    let tokens = tokenize(input).expect("tokenize should succeed");
    parse_lr(&grammar, &table, &tokens).expect("parse should succeed")
}

fn build_lr1_table() -> LRTable {
    let grammar = Grammar::simple_lr();
    let first = get_first_set(&grammar);
    let dfa = build_dfa_lr1(&grammar, &first);
    LRTable::build_lr1(&grammar, &dfa).expect("lr1 table should build")
}

fn parse_ok_tree(input: &str) -> String {
    parse_ok(input).tree.format()
}

#[test]
fn parses_valid_declaration() {
    let output = parse_ok("let x = 1;");

    assert!(!output.steps.is_empty());
    assert!(matches!(output.steps.last().map(|step| &step.action), Some(Action::Accept)));
    assert!(output.tree.root.is_some());
}

#[test]
fn formats_parse_steps_table() {
    let output = parse_ok("let x = 1;");
    let formatted = format_parse_steps(&output.steps);

    assert!(formatted.contains("step"));
    assert!(formatted.contains("states"));
    assert!(formatted.contains("s2"));
    assert!(formatted.contains("acc"));
}

#[test]
fn parses_declaration_with_epsilon_initializer() {
    let tree_text = parse_ok_tree("let x;");

    assert!(tree_text.contains("DeclInit"));
    assert!(tree_text.contains("ε"));
}

#[test]
fn parses_assignment_with_operator_precedence() {
    let tree_text = parse_ok_tree("x = 1 - 2 / 3;");

    assert!(tree_text.contains("AssignStmt"));
    assert!(tree_text.contains("-"));
    assert!(tree_text.contains("/"));
}

#[test]
fn parses_if_else_if_statement() {
    let tree_text = parse_ok_tree("if ( x < 10 ) { let y = 1; } else if ( x == 10 ) { let z; }");

    assert!(tree_text.contains("IfStmt"));
    assert!(tree_text.contains("ElsePart"));
    assert!(tree_text.contains("=="));
}

#[test]
fn parses_while_statement() {
    let tree_text = parse_ok_tree("while ( x > 0 ) { x = x - 1; }");

    assert!(tree_text.contains("WhileStmt"));
    assert!(tree_text.contains(">"));
}

#[test]
fn parses_block_statement() {
    let tree_text = parse_ok_tree("{ let a = 1; let b; }");

    assert!(tree_text.contains("Block"));
    assert!(tree_text.contains("StmtList"));
}

#[test]
fn parses_empty_block() {
    let tree_text = parse_ok_tree("{ }");

    assert!(tree_text.contains("Block"));
    assert!(tree_text.contains("{"));
    assert!(tree_text.contains("}"));
}

#[test]
fn parses_nested_if_while_with_bool_precedence() {
    let tree_text = parse_ok_tree("if ( not false and x >= 1 ) { while ( x > 0 ) { if ( x == 1 ) { } } }");

    assert!(tree_text.contains("IfStmt"));
    assert!(tree_text.contains("WhileStmt"));
    assert!(tree_text.contains("not"));
    assert!(tree_text.contains("and"));
    assert!(tree_text.contains(">="));
}

#[test]
fn parses_multi_statement_program_with_comments() {
    let tree_text =
        parse_ok_tree("let x = 1; // line comment\n/* block comment */ while ( x > 0 ) { x = x - 1; }");

    assert!(tree_text.contains("DeclStmt"));
    assert!(tree_text.contains("WhileStmt"));
    assert!(tree_text.contains("StmtList"));
}

#[test]
fn parses_valid_input_with_lr1_table() {
    let grammar = Grammar::simple_lr();
    let table = build_lr1_table();
    let tokens = tokenize("let x = 1;").expect("tokenize should succeed");

    let output = parse_lr(&grammar, &table, &tokens).expect("parse should succeed");

    assert!(matches!(output.steps.last().map(|step| &step.action), Some(Action::Accept)));
    assert!(output.tree.format().contains("DeclStmt"));
}

#[test]
fn rejects_invalid_statement() {
    let grammar = Grammar::simple_lr();
    let table = build_slr_table();
    let tokens = tokenize("let x = ;").expect("tokenize should succeed");

    let err = parse_lr(&grammar, &table, &tokens).expect_err("parse should fail");

    assert_eq!(err.kind, ParseErrorKind::Syntax);
    assert!(err.message.contains("missing ACTION"));
    assert_eq!(err.current_token.lexeme, ";");
}

#[test]
fn rejects_missing_block_after_if() {
    let grammar = Grammar::simple_lr();
    let table = build_slr_table();
    let tokens = tokenize("if ( x < 1 ) let y = 1;").expect("tokenize should succeed");

    let err = parse_lr(&grammar, &table, &tokens).expect_err("parse should fail");

    assert_eq!(err.kind, ParseErrorKind::Syntax);
    assert!(err.message.contains("missing ACTION"));
}

#[test]
fn reports_missing_goto_with_action() {
    let grammar = Grammar::simple_lr();
    let mut table = build_slr_table();
    table.goto.remove(&(0, NonTerminal::Statement));
    let tokens = tokenize("let x = 1;").expect("tokenize should succeed");

    let err = parse_lr(&grammar, &table, &tokens).expect_err("parse should fail");
    let display = err.text();

    assert_eq!(err.kind, ParseErrorKind::Internal);
    assert!(err.message.contains("missing GOTO"));
    assert!(display.contains("action r4"));
    assert!(display.contains("internal parser error"));
    assert!(display.contains("token `"));
}

#[test]
fn rejects_empty_token_stream() {
    let grammar = Grammar::simple_lr();
    let table = build_slr_table();

    let err = parse_lr(&grammar, &table, &[]).expect_err("parse should fail");

    assert_eq!(err.kind, ParseErrorKind::Syntax);
    assert!(err.message.contains("empty token stream"));
}

#[test]
fn rejects_input_without_end_marker() {
    let grammar = Grammar::simple_lr();
    let table = build_slr_table();
    let tokens = vec![
        Token { kind: Terminal::Let, lexeme: "let".to_string(), offset: 0 },
        Token { kind: Terminal::Id, lexeme: "x".to_string(), offset: 4 },
    ];

    let err = parse_lr(&grammar, &table, &tokens).expect_err("parse should fail");

    assert_eq!(err.kind, ParseErrorKind::Syntax);
    assert!(err.message.contains("input exhausted before accept"));
}

#[test]
fn formats_parse_error_text() {
    let grammar = Grammar::simple_lr();
    let table = build_slr_table();
    let tokens = tokenize("let x = ;").expect("tokenize should succeed");

    let err = parse_lr(&grammar, &table, &tokens).expect_err("parse should fail");
    let display = err.text();

    assert!(display.contains("syntax error"));
    assert!(display.contains("state"));
    assert!(display.contains("token `;`"));
    assert!(display.contains("action none"));
    assert!(display.contains("missing ACTION"));
}
