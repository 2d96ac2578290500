use simple_lr::dfa_lr0::{build_dfa_lr0, format_dfa_lr0};
use simple_lr::dfa_lr1::{build_dfa_lr1, format_dfa_lr1};
use simple_lr::first_follow::{format_first_sets, format_follow_sets, get_first_set};
use simple_lr::grammar::Grammar;
use simple_lr::item_lr0::{Item, State};
use simple_lr::item_lr1::{ItemLR1, StateLR1};
use simple_lr::lr_table::{format_lr0_table, Action, Conflict, LRTable};
use simple_lr::symbol::{NonTerminal, Symbol, Terminal};

#[test]
fn action_texts() {
    assert_eq!(Action::Shift(3).text(), "s3");
    assert_eq!(Action::Reduce(14).text(), "r14");
    assert_eq!(Action::Accept.text(), "acc");
}

#[test]
fn conflict_text() {
    let c = Conflict { state_id: 7, terminal: Terminal::Else, existing: Action::Shift(12), incoming: Action::Reduce(18) };
    assert_eq!(c.text(), "state 7 / else: s12 vs r18");
}

#[test]
fn symbol_names() {
    assert_eq!(Symbol::Terminal(Terminal::End).name(), "#");
    assert_eq!(Symbol::NonTerminal(NonTerminal::AugmentedStart).name(), "Program'");
    assert_eq!(Symbol::Epsilon.name(), "ε");
    assert_eq!(Terminal::Ne.name(), "!=");
}

#[test]
fn grammar_text_lists_numbered_productions() {
    let grammar = Grammar::simple_lr();
    let text = grammar.text();
    assert!(text.starts_with("文法: Simple LR 左递归文法\n开始符号: Program'\n\n(0) Program' → Program\n(1) Program → StmtList\n"));
    assert!(text.contains("(14) DeclInit → ε\n"));
    assert!(text.ends_with("(49) Variable → id\n"));
    assert_eq!(text.lines().count(), 3 + 50);
}

#[test]
fn production_text() {
    let grammar = Grammar::simple_lr();
    assert_eq!(grammar.production(4).unwrap().text(), "Statement → SimpleStmt ;");
    assert_eq!(grammar.production(18).unwrap().text(), "ElsePart → ε");
    assert!(grammar.production(50).is_none());
}

#[test]
fn item_texts() {
    let grammar = Grammar::simple_lr();
    assert_eq!(Item::new(0, 0).format_with_grammar(&grammar), "(0) Program' -> · Program");
    assert_eq!(Item::new(0, 1).format_with_grammar(&grammar), "(0) Program' -> Program ·");
    assert_eq!(Item::new(4, 1).format_with_grammar(&grammar), "(4) Statement -> SimpleStmt · ;");
    assert_eq!(Item::new(14, 0).format_with_grammar(&grammar), "(14) DeclInit -> · ε");
    assert_eq!(Item::new(99, 1).format_with_grammar(&grammar), "#99 @ 1");
    assert_eq!(Item::new(4, 1).text(), "#4 @ 1");
    assert_eq!(ItemLR1::new(0, 1, Terminal::End).format_with_grammar(&grammar), "(0) Program' -> Program ·, #");
    assert_eq!(ItemLR1::new(99, 0, Terminal::Id).format_with_grammar(&grammar), "#99 @ 0, id");
}

#[test]
fn state_texts_list_items_in_order() {
    let grammar = Grammar::simple_lr();
    let mut state = State::new();
    state.insert(Item::new(2, 1));
    state.insert(Item::new(0, 0));
    assert_eq!(state.format_with_grammar(&grammar), "{\n  (0) Program' -> · Program\n  (2) StmtList -> StmtList · Statement\n}");
    assert_eq!(state.text(), "{\n  #0 @ 0\n  #2 @ 1\n}");
    assert_eq!(State::new().format_with_grammar(&grammar), "{\n}");

    let mut lr1 = StateLR1::new();
    lr1.insert(ItemLR1::new(1, 0, Terminal::End));
    assert_eq!(lr1.format_with_grammar(&grammar), "{\n  (1) Program -> · StmtList, #\n}");
}

#[test]
fn dfa_texts() {
    let grammar = Grammar::simple_lr();
    let dfa = build_dfa_lr0(&grammar);
    let formatted = format_dfa_lr0(&dfa, &grammar);
    let header = format!("states: {}\n\nI0:\n{{\n  (0) Program' -> · Program\n", dfa.states.len());
    assert!(formatted.starts_with(&header));
    assert!(formatted.contains("\ntransitions:\n  I0 -- "));

    let plain = dfa.text();
    assert!(plain.starts_with(&format!("states: {}\nI0:\n{{\n  #0 @ 0\n", dfa.states.len())));
    assert!(plain.contains("\ntransitions:\nI0 -- "));
    assert!(plain.ends_with("\n"));

    let first = get_first_set(&grammar);
    let dfa1 = build_dfa_lr1(&grammar, &first);
    let formatted1 = format_dfa_lr1(&dfa1, &grammar);
    assert!(formatted1.starts_with(&format!("states: {}\n\nI0:\n{{\n  (0) Program' -> · Program, #\n", dfa1.states.len())));
}

#[test]
fn first_and_follow_texts_sort_members_by_name() {
    let grammar = Grammar::simple_lr();
    let first = format_first_sets(&grammar);
    assert!(first.starts_with("FIRST(Program') = { "));
    assert!(first.contains("FIRST(DeclInit) = { =, ε }"));
    assert!(first.contains("FIRST(RelOp) = { !=, <, <=, ==, >, >= }"));
    assert!(first.contains("FIRST(Variable) = { id }"));
    assert_eq!(first.lines().count(), 23);

    let follow = format_follow_sets(&grammar);
    assert!(follow.starts_with("FOLLOW(Program') = { # }"));
    assert!(follow.contains("FOLLOW(DeclInit) = { ; }"));
    assert_eq!(follow.lines().count(), 23);
}

#[test]
fn lr_table_texts() {
    let grammar = Grammar::simple_lr();
    let dfa = build_dfa_lr0(&grammar);
    let lr0 = LRTable::build_lr0(&grammar, &dfa).unwrap();
    let formatted = format_lr0_table(&lr0, &grammar);
    assert!(formatted.starts_with("ACTION:\n  ACTION[0, "));
    assert!(formatted.contains("\n\nGOTO:\n  GOTO[0, "));
    assert!(formatted.contains("\n\nconflicts: 23\n  state "));
    assert!(formatted.contains("= reduce "));
    assert!(formatted.contains(", #] = acc"));

    let slr = LRTable::build_slr1(&grammar, &dfa).unwrap();
    let plain = slr.text();
    assert!(plain.starts_with("ACTION:\n  ACTION[0, "));
    assert!(plain.ends_with("\nconflicts: 0\n"));
    assert!(plain.contains("] = r"));
}
