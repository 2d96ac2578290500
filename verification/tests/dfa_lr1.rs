use simple_lr::dfa_lr1::{build_dfa_lr1, closure_lr1};
use simple_lr::first_follow::get_first_set;
use simple_lr::grammar::Grammar;
use simple_lr::item_lr1::{ItemLR1, StateLR1};
use simple_lr::symbol::Terminal;

#[test]
fn lr1_start_closure_propagates_end_lookahead() {
    let grammar = Grammar::simple_lr();
    let first = get_first_set(&grammar);
    let mut start = StateLR1::new();
    start.insert(ItemLR1::new(0, 0, Terminal::End));

    let closure = closure_lr1(&start, &grammar, &first);

    assert!(closure
        .iter()
        .any(|item| item.production_id == 1 && item.dot == 0 && item.lookahead == Terminal::End));
}

#[test]
fn builds_non_empty_lr1_dfa() {
    let grammar = Grammar::simple_lr();
    let first = get_first_set(&grammar);
    let dfa = build_dfa_lr1(&grammar, &first);

    assert!(!dfa.states.is_empty());
    assert!(!dfa.transitions.is_empty());
    assert!(dfa.states[0]
        .iter()
        .any(|item| item.production_id == 0 && item.lookahead == Terminal::End));
}

#[test]
fn lr1_closure_uses_first_of_beta_and_lookahead() {
    let grammar = Grammar::simple_lr();
    let first = get_first_set(&grammar);
    let mut state = StateLR1::new();

    // Program -> · StmtList, # pulls in the StmtList items with lookahead #.
    state.insert(ItemLR1::new(1, 0, Terminal::End));

    let closure = closure_lr1(&state, &grammar, &first);

    assert!(closure
        .iter()
        .any(|item| item.production_id == 2 && item.dot == 0 && item.lookahead == Terminal::End));
}
