use simple_lr::dfa_lr0::build_dfa_lr0;
use simple_lr::grammar::Grammar;
use simple_lr::lexer::{format_tokens_verbose, tokenize};
use simple_lr::lr_parser::{format_parse_steps, parse_lr, ParseErrorKind, ParseStep};
use simple_lr::lr_table::{Action, LRTable};
use simple_lr::symbol::{NonTerminal, Terminal};

fn slr_table() -> LRTable {
    let grammar = Grammar::simple_lr();
    let dfa = build_dfa_lr0(&grammar);
    LRTable::build_slr1(&grammar, &dfa).unwrap()
}

fn table_with(cells: &[((usize, Terminal), Action)]) -> LRTable {
    let mut table = LRTable::new();
    for (key, action) in cells {
        table.action.insert(*key, *action);
    }
    table
}

#[test]
fn tree_of_declaration_without_initializer() {
    let grammar = Grammar::simple_lr();
    let tokens = tokenize("let x;").unwrap();
    let output = parse_lr(&grammar, &slr_table(), &tokens).unwrap();
    let expected = [
        "Program",
        "  StmtList",
        "    Statement",
        "      SimpleStmt",
        "        DeclStmt",
        "          let",
        "          Variable",
        "            id(x)",
        "          DeclInit",
        "            ε",
        "      ;",
    ]
    .join("\n");
    assert_eq!(output.tree.format(), expected);
}

#[test]
fn tree_children_come_before_their_parents() {
    let grammar = Grammar::simple_lr();
    let tokens = tokenize("if ( x < 10 ) { let y = 1; } else { y = 2 * (3 + x); }").unwrap();
    let output = parse_lr(&grammar, &slr_table(), &tokens).unwrap();
    for (id, node) in output.tree.nodes.iter().enumerate() {
        for child in &node.children {
            assert!(*child < id);
        }
    }
    assert_eq!(output.tree.root, Some(output.tree.nodes.len() - 1));
}

#[test]
fn steps_are_numbered_and_keep_the_stacks_in_step() {
    let grammar = Grammar::simple_lr();
    let tokens = tokenize("x = 1 - 2 / 3;").unwrap();
    let output = parse_lr(&grammar, &slr_table(), &tokens).unwrap();
    for (k, step) in output.steps.iter().enumerate() {
        assert_eq!(step.step_number, k);
        assert_eq!(step.state_stack.len(), step.symbol_stack.len() + 1);
        assert_eq!(step.state_stack[0], 0);
    }
    let first: &ParseStep = &output.steps[0];
    assert!(matches!(first.action, Action::Shift(_)));
    assert_eq!(first.rest_input.len(), tokens.len() - 1);
    let last = output.steps.last().unwrap();
    assert_eq!(last.action, Action::Accept);
    assert_eq!(last.rest_input.len(), 1);
    assert_eq!(last.rest_input[0].kind, Terminal::End);
}

#[test]
fn steps_table_has_padded_columns() {
    let grammar = Grammar::simple_lr();
    let tokens = tokenize("let x = 1;").unwrap();
    let output = parse_lr(&grammar, &slr_table(), &tokens).unwrap();
    let formatted = format_parse_steps(&output.steps);
    let lines: Vec<&str> = formatted.split('\n').collect();
    assert_eq!(lines.len(), 2 + output.steps.len());
    assert_eq!(lines[0], format!("{:>4} | {:<24} | {:<24} | {:<32} | {}", "step", "states", "symbols", "input", "action"));
    assert_eq!(lines[1], "-".repeat(108));
    let step = &output.steps[0];
    let states: Vec<String> = step.state_stack.iter().map(|s| s.to_string()).collect();
    let expected = format!(
        "{:>4} | {:<24} | {:<24} | {:<32} | {}",
        0,
        states.join(" "),
        "let",
        format_tokens_verbose(&step.rest_input),
        step.action.text()
    );
    assert_eq!(lines[2], expected);
    assert!(lines[2].starts_with("   0 | 0 "));
    assert!(lines[2].ends_with(&format!("| s{}", step.state_stack[1])));
}

#[test]
fn epsilon_reduction_then_accept() {
    let grammar = Grammar::simple_lr();
    let table = table_with(&[((0, Terminal::Let), Action::Reduce(14)), ((5, Terminal::Let), Action::Accept)]);
    let mut table = table;
    table.goto.insert((0, NonTerminal::DeclInit), 5);
    let tokens = tokenize("let").unwrap();
    let output = parse_lr(&grammar, &table, &tokens).unwrap();
    assert_eq!(output.steps.len(), 2);
    assert_eq!(output.steps[0].action, Action::Reduce(14));
    assert_eq!(output.steps[0].state_stack, vec![0, 5]);
    assert_eq!(output.tree.format(), "DeclInit\n  ε");
    let formatted = format_parse_steps(&output.steps);
    assert!(formatted.contains("DeclInit"));
}

#[test]
fn full_error_text_and_report() {
    let grammar = Grammar::simple_lr();
    let tokens = tokenize("let x = ;").unwrap();
    let err = parse_lr(&grammar, &slr_table(), &tokens).unwrap_err();
    let expected = format!(
        "syntax error at state {} with token `;` (offset 8), action none: missing ACTION[{}, ;]",
        err.state_id, err.state_id
    );
    assert_eq!(err.text(), expected);
    assert_eq!(err.report(), format!("语法错误: {}", expected));
    assert_eq!(err.action, None);
    assert_eq!(err.current_token.offset, 8);
}

#[test]
fn error_text_shows_lexeme_of_identifier() {
    let grammar = Grammar::simple_lr();
    let tokens = tokenize("let x y").unwrap();
    let err = parse_lr(&grammar, &slr_table(), &tokens).unwrap_err();
    assert!(err.text().contains("with token `id(y)` (offset 6)"));
}

#[test]
fn reports_invalid_production_id() {
    let grammar = Grammar::simple_lr();
    let table = table_with(&[((0, Terminal::Let), Action::Reduce(99))]);
    let tokens = tokenize("let x = 1;").unwrap();
    let err = parse_lr(&grammar, &table, &tokens).unwrap_err();
    assert_eq!(err.kind, ParseErrorKind::Internal);
    assert_eq!(err.message, "invalid production id 99");
    assert_eq!(err.action, Some(Action::Reduce(99)));
    assert_eq!(err.state_id, 0);
    assert!(err.report().starts_with("内部错误: internal parser error at state 0 with token `let` (offset 0), action r99"));
}

#[test]
fn reports_symbol_stack_underflow() {
    let grammar = Grammar::simple_lr();
    let table = table_with(&[((0, Terminal::Let), Action::Reduce(1))]);
    let tokens = tokenize("let").unwrap();
    let err = parse_lr(&grammar, &table, &tokens).unwrap_err();
    assert_eq!(err.kind, ParseErrorKind::Internal);
    assert_eq!(err.message, "symbol stack underflow during reduce");
}

#[test]
fn reports_accept_without_single_root() {
    let grammar = Grammar::simple_lr();
    let table = table_with(&[((0, Terminal::Let), Action::Accept)]);
    let tokens = tokenize("let").unwrap();
    let err = parse_lr(&grammar, &table, &tokens).unwrap_err();
    assert_eq!(err.kind, ParseErrorKind::Internal);
    assert_eq!(err.message, "node stack should contain exactly one root at accept, found 0");
    assert_eq!(err.action, Some(Action::Accept));
}

#[test]
fn reports_reduced_symbols_mismatch() {
    let grammar = Grammar::simple_lr();
    let table = table_with(&[((0, Terminal::Let), Action::Shift(1)), ((1, Terminal::Id), Action::Reduce(1))]);
    let tokens = tokenize("let x").unwrap();
    let err = parse_lr(&grammar, &table, &tokens).unwrap_err();
    assert_eq!(err.kind, ParseErrorKind::Internal);
    assert_eq!(err.message, "reduced symbols do not match production Program → StmtList");
    assert_eq!(err.state_id, 1);
}

#[test]
fn reports_missing_goto_after_epsilon_reduction() {
    let grammar = Grammar::simple_lr();
    let table = table_with(&[((0, Terminal::Let), Action::Reduce(14))]);
    let tokens = tokenize("let").unwrap();
    let err = parse_lr(&grammar, &table, &tokens).unwrap_err();
    assert_eq!(err.message, "missing GOTO[0, DeclInit]");
}

#[test]
fn input_exhausted_reports_last_token() {
    let grammar = Grammar::simple_lr();
    let table = table_with(&[((0, Terminal::Let), Action::Shift(1))]);
    let mut tokens = tokenize("let").unwrap();
    tokens.pop();
    let err = parse_lr(&grammar, &table, &tokens).unwrap_err();
    assert_eq!(err.message, "input exhausted before accept");
    assert_eq!(err.state_id, 1);
    assert_eq!(err.current_token.lexeme, "let");
}

#[test]
fn empty_token_stream_reports_end_marker() {
    let grammar = Grammar::simple_lr();
    let err = parse_lr(&grammar, &slr_table(), &[]).unwrap_err();
    assert_eq!(err.current_token.kind, Terminal::End);
    assert_eq!(err.current_token.lexeme, "#");
    assert_eq!(err.text(), "syntax error at state 0 with token `#` (offset 0), action none: empty token stream; expected at least end marker");
}
