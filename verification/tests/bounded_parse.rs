use simple_lr::dfa_lr0::build_dfa_lr0;
use simple_lr::grammar::Grammar;
use simple_lr::lexer::tokenize;
use simple_lr::lr_parser::{parse_lr, parse_lr_within};
use simple_lr::lr_table::{Action, LRTable};
use simple_lr::symbol::{NonTerminal, Terminal};

fn slr_table() -> LRTable {
    let grammar = Grammar::simple_lr();
    let dfa = build_dfa_lr0(&grammar);
    LRTable::build_slr1(&grammar, &dfa).unwrap()
}

#[test]
fn bounded_parse_with_no_budget_does_not_finish() {
    let grammar = Grammar::simple_lr();
    let tokens = tokenize("let x;").unwrap();
    assert!(parse_lr_within(&grammar, &slr_table(), &tokens, 0).is_none());
    assert!(parse_lr_within(&grammar, &slr_table(), &tokens, 3).is_none());
}

#[test]
fn bounded_parse_with_enough_budget_matches_parse_lr() {
    let grammar = Grammar::simple_lr();
    let table = slr_table();
    let tokens = tokenize("x = 1 - 2 / 3;").unwrap();
    let full = parse_lr(&grammar, &table, &tokens).unwrap();
    let bounded = parse_lr_within(&grammar, &table, &tokens, 1000).unwrap().unwrap();
    assert_eq!(full.steps.len(), bounded.steps.len());
    for (a, b) in full.steps.iter().zip(bounded.steps.iter()) {
        assert_eq!(a.step_number, b.step_number);
        assert_eq!(a.state_stack, b.state_stack);
        assert_eq!(a.symbol_stack, b.symbol_stack);
        assert_eq!(a.action, b.action);
    }
    assert_eq!(full.tree.format(), bounded.tree.format());
    let exact = parse_lr_within(&grammar, &table, &tokens, full.steps.len()).unwrap();
    assert!(exact.is_ok());
    assert!(parse_lr_within(&grammar, &table, &tokens, full.steps.len() - 1).is_none());
}

#[test]
fn bounded_parse_reports_errors() {
    let grammar = Grammar::simple_lr();
    let tokens = tokenize("let x = ;").unwrap();
    let err = parse_lr_within(&grammar, &slr_table(), &tokens, 1000).unwrap().unwrap_err();
    assert_eq!(err.current_token.kind, Terminal::Semicolon);
    assert_eq!(err.current_token.offset, 8);
}

#[test]
fn empty_reduction_loop_never_finishes() {
    let grammar = Grammar::simple_lr();
    let mut table = LRTable::new();
    table.action.insert((0, Terminal::Let), Action::Reduce(14));
    table.goto.insert((0, NonTerminal::DeclInit), 0);
    let tokens = tokenize("let x;").unwrap();
    assert!(parse_lr_within(&grammar, &table, &tokens, 500).is_none());
}

#[test]
fn recorded_steps_follow_the_input() {
    let grammar = Grammar::simple_lr();
    let table = slr_table();
    let tokens = tokenize("while ( x > 0 ) { x = x - 1; }").unwrap();
    let output = parse_lr(&grammar, &table, &tokens).unwrap();
    let mut shifts = 0;
    for (i, step) in output.steps.iter().enumerate() {
        assert_eq!(step.step_number, i);
        assert_eq!(step.state_stack[0], 0);
        assert_eq!(step.state_stack.len(), step.symbol_stack.len() + 1);
        let last = i + 1 == output.steps.len();
        assert_eq!(step.action == Action::Accept, last);
        if let Action::Shift(_) = step.action {
            shifts += 1;
        }
    }
    let rest = &output.steps.last().unwrap().rest_input;
    assert_eq!(rest.len(), tokens.len() - shifts);
    for (a, b) in rest.iter().zip(tokens[shifts..].iter()) {
        assert_eq!(a.kind, b.kind);
        assert_eq!(a.lexeme, b.lexeme);
        assert_eq!(a.offset, b.offset);
    }
    assert_eq!(rest[0].kind, Terminal::End);
}
