use simple_lr::dfa_lr0::build_dfa_lr0;
use simple_lr::dfa_lr1::build_dfa_lr1;
use simple_lr::first_follow::get_first_set;
use simple_lr::grammar::Grammar;
use simple_lr::lr_table::{format_lr0_table, Action, LRTable};
use simple_lr::symbol::Terminal;

#[test]
fn lr0_and_slr1_conflict_counts_match_expectation() {
    let grammar = Grammar::simple_lr();
    let dfa = build_dfa_lr0(&grammar);
    let lr0_table = LRTable::build_lr0(&grammar, &dfa).expect("lr0 table should build");
    let slr_table = LRTable::build_slr1(&grammar, &dfa).expect("slr table should build");

    assert_eq!(lr0_table.conflicts.len(), 23);
    assert_eq!(slr_table.conflicts.len(), 0);
}

#[test]
fn formats_lr_table_sections() {
    let grammar = Grammar::simple_lr();
    let dfa = build_dfa_lr0(&grammar);
    let slr_table = LRTable::build_slr1(&grammar, &dfa).expect("slr table should build");
    let formatted = format_lr0_table(&slr_table, &grammar);

    assert!(formatted.contains("ACTION:"));
    assert!(formatted.contains("GOTO:"));
    assert!(formatted.contains("conflicts: 0"));
}

#[test]
fn builds_lr1_table_and_accept_entry() {
    let grammar = Grammar::simple_lr();
    let first = get_first_set(&grammar);
    let dfa = build_dfa_lr1(&grammar, &first);
    let lr1_table = LRTable::build_lr1(&grammar, &dfa).expect("lr1 table should build");

    assert!(lr1_table
        .action
        .entries()
        .iter()
        .any(|((_, terminal), action)| *terminal == Terminal::End && matches!(action, Action::Accept)));
}
