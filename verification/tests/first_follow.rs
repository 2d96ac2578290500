use simple_lr::first_follow::{first_of_sequence, get_first_set, get_follow_set, SymbolSet};
use simple_lr::grammar::Grammar;
use simple_lr::symbol::{NonTerminal, Symbol, Terminal};

fn contains_all(set: &SymbolSet, expected: &[Symbol]) -> bool {
    expected.iter().all(|symbol| set.contains(symbol))
}

#[test]
fn first_set_keeps_nullable_nonterminal() {
    let grammar = Grammar::simple_lr();
    let first = get_first_set(&grammar);

    let decl_init = first.get(&NonTerminal::DeclInit).unwrap();
    assert!(contains_all(decl_init, &[Symbol::Terminal(Terminal::Assign), Symbol::Epsilon]));

    let else_part = first.get(&NonTerminal::ElsePart).unwrap();
    assert!(contains_all(else_part, &[Symbol::Terminal(Terminal::Else), Symbol::Epsilon]));
}

#[test]
fn first_of_sequence_propagates_through_nullable_prefix() {
    let grammar = Grammar::simple_lr();
    let first = get_first_set(&grammar);
    let sequence = vec![Symbol::NonTerminal(NonTerminal::DeclInit), Symbol::Terminal(Terminal::Semicolon)];

    let derived = first_of_sequence(&sequence, &first);
    assert!(contains_all(
        &derived,
        &[Symbol::Terminal(Terminal::Assign), Symbol::Terminal(Terminal::Semicolon)]
    ));
    assert!(!derived.contains(&Symbol::Epsilon));
}

#[test]
fn follow_set_uses_nullable_suffix() {
    let grammar = Grammar::simple_lr();
    let first = get_first_set(&grammar);
    let follow = get_follow_set(&grammar, &first);

    let decl_init_follow = follow.get(&NonTerminal::DeclInit).unwrap();
    assert!(decl_init_follow.contains(&Symbol::Terminal(Terminal::Semicolon)));

    let block_follow = follow.get(&NonTerminal::Block).unwrap();
    assert!(contains_all(block_follow, &[Symbol::Terminal(Terminal::Else), Symbol::Terminal(Terminal::End)]));
}
