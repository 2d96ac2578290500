use simple_lr::dfa_lr0::build_dfa_lr0;
use simple_lr::dfa_lr1::build_dfa_lr1;
use simple_lr::first_follow::{get_first_set, get_follow_set};
use simple_lr::grammar::{Grammar, Production};
use simple_lr::item_lr0::Item;
use simple_lr::lexer::tokenize;
use simple_lr::lr_parser::{parse_lr, ParseErrorKind};
use simple_lr::lr_table::{Action, LRTable};
use simple_lr::symbol::{NonTerminal, Symbol, Terminal};

fn complete(grammar: &Grammar, production_id: usize, dot: usize) -> bool {
    dot >= grammar.productions[production_id].rhs.len()
}

#[test]
fn slr_table_cells_follow_items_and_follow_sets() {
    let grammar = Grammar::simple_lr();
    let dfa = build_dfa_lr0(&grammar);
    let table = LRTable::build_slr1(&grammar, &dfa).unwrap();
    assert!(table.conflicts.is_empty());
    let first = get_first_set(&grammar);
    let follow = get_follow_set(&grammar, &first);
    let mut expected = 0;
    for (i, state) in dfa.states.iter().enumerate() {
        for item in state.iter() {
            if !complete(&grammar, item.production_id, item.dot) {
                continue;
            }
            if item.production_id == 0 {
                assert_eq!(table.action.get(&(i, Terminal::End)), Some(Action::Accept));
                expected += 1;
                continue;
            }
            let lhs = grammar.productions[item.production_id].lhs;
            for a in Terminal::all() {
                let in_follow = follow.get(&lhs).unwrap().contains(&Symbol::Terminal(a));
                if in_follow {
                    assert_eq!(table.action.get(&(i, a)), Some(Action::Reduce(item.production_id)));
                    expected += 1;
                } else {
                    assert_ne!(table.action.get(&(i, a)), Some(Action::Reduce(item.production_id)));
                }
            }
        }
    }
    let mut shifts = 0;
    for ((from, symbol), to) in dfa.transitions.iter() {
        if let Symbol::Terminal(a) = symbol {
            assert_eq!(table.action.get(&(*from, *a)), Some(Action::Shift(*to)));
            shifts += 1;
        }
    }
    assert_eq!(table.action.entries().len(), expected + shifts);
}

#[test]
fn lr1_table_cells_follow_items_and_lookaheads() {
    let grammar = Grammar::simple_lr();
    let first = get_first_set(&grammar);
    let dfa = build_dfa_lr1(&grammar, &first);
    let table = LRTable::build_lr1(&grammar, &dfa).unwrap();
    assert!(table.conflicts.is_empty());
    let mut expected = Vec::new();
    for (i, state) in dfa.states.iter().enumerate() {
        for item in state.iter() {
            if !complete(&grammar, item.production_id, item.dot) {
                continue;
            }
            let action = if item.production_id == 0 { Action::Accept } else { Action::Reduce(item.production_id) };
            let a = if item.production_id == 0 { Terminal::End } else { item.lookahead };
            assert_eq!(table.action.get(&(i, a)), Some(action));
            if !expected.contains(&(i, a)) {
                expected.push((i, a));
            }
        }
    }
    let mut shifts = 0;
    for ((from, symbol), to) in dfa.transitions.iter() {
        match symbol {
            Symbol::Terminal(a) => {
                assert_eq!(table.action.get(&(*from, *a)), Some(Action::Shift(*to)));
                shifts += 1;
            }
            Symbol::NonTerminal(n) => {
                assert_eq!(table.goto.get(&(*from, *n)), Some(*to));
            }
            Symbol::Epsilon => panic!("no transition on epsilon"),
        }
    }
    assert_eq!(table.action.entries().len(), expected.len() + shifts);
}

fn tiny_grammar() -> Grammar {
    Grammar {
        name: String::from("tiny"),
        start: NonTerminal::AugmentedStart,
        productions: vec![
            Production::new(NonTerminal::AugmentedStart, vec![Symbol::NonTerminal(NonTerminal::Program)]),
            Production::new(NonTerminal::Program, vec![Symbol::Terminal(Terminal::Id), Symbol::Terminal(Terminal::Semicolon)]),
        ],
    }
}

#[test]
fn lr0_table_without_conflicts_reduces_on_every_terminal() {
    let grammar = tiny_grammar();
    let dfa = build_dfa_lr0(&grammar);
    let table = LRTable::build_lr0(&grammar, &dfa).unwrap();
    assert!(table.conflicts.is_empty());
    let mut reduce_states = Vec::new();
    for (i, state) in dfa.states.iter().enumerate() {
        for item in state.iter() {
            if complete(&grammar, item.production_id, item.dot) {
                if item.production_id == 0 {
                    assert_eq!(table.action.get(&(i, Terminal::End)), Some(Action::Accept));
                } else {
                    reduce_states.push(i);
                    for a in Terminal::all() {
                        assert_eq!(table.action.get(&(i, a)), Some(Action::Reduce(item.production_id)));
                    }
                }
            }
        }
    }
    assert_eq!(reduce_states.len(), 1);
    for ((from, symbol), to) in dfa.transitions.iter() {
        match symbol {
            Symbol::Terminal(a) => assert_eq!(table.action.get(&(*from, *a)), Some(Action::Shift(*to))),
            Symbol::NonTerminal(n) => assert_eq!(table.goto.get(&(*from, *n)), Some(*to)),
            Symbol::Epsilon => panic!("no transition on epsilon"),
        }
    }
    assert_eq!(table.action.entries().len(), 28 + 1 + 2);
}

fn sorted_cores(items: Vec<Item>) -> Vec<Item> {
    let mut items = items;
    items.sort();
    items.dedup();
    items
}

#[test]
fn lr1_state_cores_are_the_lr0_states() {
    let grammar = Grammar::simple_lr();
    let first = get_first_set(&grammar);
    let dfa0 = build_dfa_lr0(&grammar);
    let dfa1 = build_dfa_lr1(&grammar, &first);
    let lr0: Vec<Vec<Item>> = dfa0.states.iter().map(|s| sorted_cores(s.iter().copied().collect())).collect();
    let mut cores: Vec<Vec<Item>> = dfa1
        .states
        .iter()
        .map(|s| sorted_cores(s.iter().map(|it| Item::new(it.production_id, it.dot)).collect()))
        .collect();
    for c in &cores {
        assert!(lr0.contains(c));
    }
    for s in &lr0 {
        assert!(cores.contains(s));
    }
    cores.sort();
    cores.dedup();
    assert_eq!(cores.len(), lr0.len());
    assert!(dfa1.states.len() >= dfa0.states.len());
}

#[test]
fn slr_and_lr1_parses_agree_on_accepted_inputs() {
    let grammar = Grammar::simple_lr();
    let first = get_first_set(&grammar);
    let dfa0 = build_dfa_lr0(&grammar);
    let dfa1 = build_dfa_lr1(&grammar, &first);
    let slr = LRTable::build_slr1(&grammar, &dfa0).unwrap();
    let lr1 = LRTable::build_lr1(&grammar, &dfa1).unwrap();
    let lr0_states: Vec<Vec<Item>> = dfa0.states.iter().map(|s| sorted_cores(s.iter().copied().collect())).collect();
    let core_state = |i: usize| -> usize {
        let cores = sorted_cores(dfa1.states[i].iter().map(|it| Item::new(it.production_id, it.dot)).collect());
        lr0_states.iter().position(|s| *s == cores).unwrap()
    };
    for source in ["let x = 1;", "while ( x > 0 ) { x = x - 1; }", "{ let a = 1; let b; }", "if ( x < 10 ) { let y = 1; } else if ( x == 10 ) { let z; }"] {
        let tokens = tokenize(source).unwrap();
        let by_lr1 = parse_lr(&grammar, &lr1, &tokens).unwrap();
        let by_slr = parse_lr(&grammar, &slr, &tokens).unwrap();
        assert_eq!(by_lr1.tree.format(), by_slr.tree.format());
        assert_eq!(by_lr1.steps.len(), by_slr.steps.len());
        for (a, b) in by_lr1.steps.iter().zip(by_slr.steps.iter()) {
            let mapped: Vec<usize> = a.state_stack.iter().map(|i| core_state(*i)).collect();
            assert_eq!(mapped, b.state_stack);
            assert_eq!(a.symbol_stack, b.symbol_stack);
            match a.action {
                Action::Shift(j) => assert_eq!(b.action, Action::Shift(core_state(j))),
                other => assert_eq!(b.action, other),
            }
        }
    }
}

#[test]
fn slr_and_lr1_failures_are_syntax_errors_at_the_same_token() {
    let grammar = Grammar::simple_lr();
    let first = get_first_set(&grammar);
    let slr = LRTable::build_slr1(&grammar, &build_dfa_lr0(&grammar)).unwrap();
    let lr1 = LRTable::build_lr1(&grammar, &build_dfa_lr1(&grammar, &first)).unwrap();
    for source in ["let x = ;", "if ( x < 1 ) let y = 1;", "while ( x > 0 ) { x = ; }", "x = 1", "{ let a = 1; ", ""] {
        let tokens = tokenize(source).unwrap();
        let by_slr = parse_lr(&grammar, &slr, &tokens).unwrap_err();
        let by_lr1 = parse_lr(&grammar, &lr1, &tokens).unwrap_err();
        assert_eq!(by_slr.kind, ParseErrorKind::Syntax);
        assert_eq!(by_lr1.kind, ParseErrorKind::Syntax);
        assert_eq!(by_slr.current_token.kind, by_lr1.current_token.kind);
        assert_eq!(by_slr.current_token.lexeme, by_lr1.current_token.lexeme);
        assert_eq!(by_slr.current_token.offset, by_lr1.current_token.offset);
    }
}
