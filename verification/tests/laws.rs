use simple_lr::dfa_lr0::{build_dfa_lr0, closure_lr0, goto_lr0};
use simple_lr::lexer::tokenize;
use simple_lr::lr_parser::parse_lr;
use simple_lr::dfa_lr1::closure_lr1;
use simple_lr::first_follow::{first_of_sequence, get_first_set, get_follow_set, SymbolSet};
use simple_lr::grammar::Grammar;
use simple_lr::item_lr0::{Item, State};
use simple_lr::item_lr1::{ItemLR1, StateLR1};
use simple_lr::item_set::ItemSet;
use simple_lr::lr_table::{Action, LRTable};
use simple_lr::symbol::{NonTerminal, Symbol, Terminal};

fn start_state() -> State {
    let mut start = State::new();
    start.insert(Item::new(0, 0));
    start
}

#[test]
fn lr0_closure_is_idempotent() {
    let grammar = Grammar::simple_lr();
    let once = closure_lr0(&start_state(), &grammar);
    let twice = closure_lr0(&once, &grammar);
    assert!(once.same_items(&twice));
    assert!(once.len() > 1);
}

#[test]
fn lr0_closure_is_monotone() {
    let grammar = Grammar::simple_lr();
    let small = closure_lr0(&start_state(), &grammar);
    let mut bigger = start_state();
    bigger.insert(Item::new(15, 0));
    let large = closure_lr0(&bigger, &grammar);
    for item in small.iter() {
        assert!(large.contains(item));
    }
    assert!(large.contains(&Item::new(15, 0)));
}

#[test]
fn lr1_closure_is_idempotent() {
    let grammar = Grammar::simple_lr();
    let first = get_first_set(&grammar);
    let mut start = StateLR1::new();
    start.insert(ItemLR1::new(0, 0, Terminal::End));
    let once = closure_lr1(&start, &grammar, &first);
    let twice = closure_lr1(&once, &grammar, &first);
    assert!(once.same_items(&twice));
}

#[test]
fn goto_is_the_closure_of_the_moved_items() {
    let grammar = Grammar::simple_lr();
    let start = closure_lr0(&start_state(), &grammar);
    let moved = goto_lr0(&start, &Symbol::Terminal(Terminal::Let), &grammar).unwrap();
    assert!(moved.contains(&Item::new(12, 1)));
    assert!(moved.contains(&Item::new(49, 0)));
    assert!(goto_lr0(&start, &Symbol::Terminal(Terminal::Semicolon), &grammar).is_none());
}

#[test]
fn first_sets_are_the_same_each_time() {
    let grammar = Grammar::simple_lr();
    let a = get_first_set(&grammar);
    let b = get_first_set(&grammar);
    for nt in NonTerminal::all() {
        let sa = a.get(&nt).unwrap();
        let sb = b.get(&nt).unwrap();
        assert_eq!(sa.symbols(), sb.symbols());
    }
}

#[test]
fn first_of_concatenation() {
    let grammar = Grammar::simple_lr();
    let first = get_first_set(&grammar);
    let empty = first_of_sequence(&[], &first);
    assert_eq!(empty.symbols(), vec![Symbol::Epsilon]);
    let nullable = first_of_sequence(&[Symbol::NonTerminal(NonTerminal::DeclInit), Symbol::NonTerminal(NonTerminal::ElsePart)], &first);
    assert!(nullable.contains(&Symbol::Epsilon));
    assert!(nullable.contains(&Symbol::Terminal(Terminal::Assign)));
    assert!(nullable.contains(&Symbol::Terminal(Terminal::Else)));
    let blocked = first_of_sequence(&[Symbol::Terminal(Terminal::Num), Symbol::NonTerminal(NonTerminal::DeclInit)], &first);
    assert_eq!(blocked.symbols(), vec![Symbol::Terminal(Terminal::Num)]);
}

#[test]
fn follow_of_start_holds_end_marker() {
    let grammar = Grammar::simple_lr();
    let first = get_first_set(&grammar);
    let follow = get_follow_set(&grammar, &first);
    assert_eq!(follow.get(&NonTerminal::AugmentedStart).unwrap().symbols(), vec![Symbol::Terminal(Terminal::End)]);
    assert!(!follow.get(&NonTerminal::Expr).unwrap().contains(&Symbol::Epsilon));
}

#[test]
fn insert_action_keeps_the_first_action_and_records_conflicts() {
    let mut table = LRTable::new();
    assert!(table.insert_action(0, Terminal::Id, Action::Shift(1)));
    assert!(table.insert_action(0, Terminal::Id, Action::Shift(1)));
    assert_eq!(table.conflicts.len(), 0);
    assert!(!table.insert_action(0, Terminal::Id, Action::Reduce(2)));
    assert_eq!(table.conflicts.len(), 1);
    assert_eq!(table.conflicts[0].existing, Action::Shift(1));
    assert_eq!(table.conflicts[0].incoming, Action::Reduce(2));
    assert_eq!(table.action.get(&(0, Terminal::Id)), Some(Action::Shift(1)));
}

#[test]
fn slr_table_meets_every_shift_request() {
    let grammar = Grammar::simple_lr();
    let dfa = build_dfa_lr0(&grammar);
    let table = LRTable::build_slr1(&grammar, &dfa).unwrap();
    assert!(table.conflicts.is_empty());
    for ((source, symbol), target) in &dfa.transitions {
        match symbol {
            Symbol::Terminal(t) => assert_eq!(table.action.get(&(*source, *t)), Some(Action::Shift(*target))),
            Symbol::NonTerminal(a) => assert_eq!(table.goto.get(&(*source, *a)), Some(*target)),
            Symbol::Epsilon => panic!("no transition on epsilon"),
        }
    }
}

#[test]
fn goto_table_insert_get_remove() {
    let mut table = LRTable::new();
    table.goto.insert((3, NonTerminal::Expr), 7);
    assert_eq!(table.goto.get(&(3, NonTerminal::Expr)), Some(7));
    assert_eq!(table.goto.remove(&(3, NonTerminal::Expr)), Some(7));
    assert_eq!(table.goto.get(&(3, NonTerminal::Expr)), None);
    assert_eq!(table.goto.remove(&(3, NonTerminal::Expr)), None);
}

#[test]
fn item_set_ignores_duplicates_and_keeps_order() {
    let mut set: ItemSet<Item> = ItemSet::new();
    assert!(set.insert(Item::new(3, 1)));
    assert!(set.insert(Item::new(1, 2)));
    assert!(!set.insert(Item::new(3, 1)));
    assert_eq!(set.len(), 2);
    let items: Vec<Item> = set.iter().cloned().collect();
    assert_eq!(items, vec![Item::new(1, 2), Item::new(3, 1)]);
}

#[test]
fn symbol_indices_round_trip() {
    for (i, t) in Terminal::all().into_iter().enumerate() {
        assert_eq!(t.index(), i);
        assert_eq!(Terminal::from_index(i), t);
    }
    for (i, a) in NonTerminal::all().into_iter().enumerate() {
        assert_eq!(a.index(), i);
        assert_eq!(NonTerminal::from_index(i), a);
    }
    assert_eq!(Terminal::all().len(), 28);
    assert_eq!(NonTerminal::all().len(), 23);
}

#[test]
fn symbol_set_text_sorts_by_name() {
    let mut set = SymbolSet::new();
    set.insert(Symbol::Epsilon);
    set.insert(Symbol::Terminal(Terminal::Semicolon));
    set.insert(Symbol::Terminal(Terminal::Id));
    set.insert(Symbol::Terminal(Terminal::Assign));
    assert_eq!(set.text(), "{ ;, =, id, ε }");
    assert_eq!(SymbolSet::new().text(), "{  }");
}

#[test]
fn item_advance_and_completion() {
    let grammar = Grammar::simple_lr();
    let item = Item::new(4, 0);
    assert_eq!(item.symbol_after_dot(&grammar), Some(&Symbol::NonTerminal(NonTerminal::SimpleStmt)));
    let next = item.advance_dot(&grammar).unwrap();
    assert_eq!(next, Item::new(4, 1));
    let done = next.advance_dot(&grammar).unwrap();
    assert!(done.is_complete(&grammar));
    assert_eq!(done.advance_dot(&grammar), None);
    assert!(Item::new(14, 0).is_complete(&grammar));
    assert!(!Item::new(99, 0).is_complete(&grammar));
    let lr1 = ItemLR1::new(14, 0, Terminal::Semicolon);
    assert!(lr1.is_complete(&grammar));
    assert_eq!(lr1.advance_dot(&grammar), None);
}

#[test]
fn productions_for_lists_ids_in_order() {
    let grammar = Grammar::simple_lr();
    let ids: Vec<usize> = grammar.productions_for(NonTerminal::Statement).iter().map(|(id, _)| *id).collect();
    assert_eq!(ids, vec![4, 5, 6, 7]);
    assert!(grammar.productions_for(NonTerminal::RelOp).iter().all(|(_, p)| p.rhs_len() == 1));
}

#[test]
fn every_inner_tree_node_is_an_instance_of_a_production() {
    let grammar = Grammar::simple_lr();
    let dfa = build_dfa_lr0(&grammar);
    let table = LRTable::build_slr1(&grammar, &dfa).unwrap();
    let tokens = tokenize("if ( not x == 1 ) { let y; } else { y = (y + 2) * 3; }").unwrap();
    let output = parse_lr(&grammar, &table, &tokens).unwrap();
    let nodes = &output.tree.nodes;
    let fits = |label: &str, symbol: &Symbol| match symbol {
        Symbol::NonTerminal(a) => label == a.name(),
        Symbol::Terminal(t) => label == t.name() || label.starts_with(&format!("{}(", t.name())),
        Symbol::Epsilon => false,
    };
    for node in nodes.iter().filter(|n| !n.children.is_empty()) {
        let matches_some = grammar.productions.iter().any(|p| {
            p.lhs.name() == node.label
                && if p.rhs.is_empty() {
                    node.children.len() == 1 && nodes[node.children[0]].label == "ε"
                } else {
                    p.rhs.len() == node.children.len()
                        && p.rhs.iter().zip(node.children.iter()).all(|(s, c)| fits(&nodes[*c].label, s))
                }
        });
        assert!(matches_some, "node {} does not match a production", node.label);
    }
    let root = output.tree.root.unwrap();
    assert_eq!(nodes[root].label, "Program");
}

fn collect_leaves(tree: &simple_lr::syntax_tree::SyntaxTree, id: usize, out: &mut Vec<String>) {
    let node = &tree.nodes[id];
    if node.children.is_empty() {
        if node.label != "ε" {
            out.push(node.label.clone());
        }
    } else {
        for child in &node.children {
            collect_leaves(tree, *child, out);
        }
    }
}

#[test]
fn tree_leaves_spell_the_tokens_read() {
    let grammar = Grammar::simple_lr();
    let dfa = build_dfa_lr0(&grammar);
    let table = LRTable::build_slr1(&grammar, &dfa).unwrap();
    let tokens = tokenize("let x; while ( x > 0 ) { x = x - 1; }").unwrap();
    let output = parse_lr(&grammar, &table, &tokens).unwrap();
    let mut leaves = Vec::new();
    collect_leaves(&output.tree, output.tree.root.unwrap(), &mut leaves);
    let expected: Vec<String> = tokens[..tokens.len() - 1].iter().map(|t| t.text()).collect();
    assert_eq!(leaves, expected);
    assert_eq!(leaves[0], "let");
    assert_eq!(leaves[1], "id(x)");
}

#[test]
fn symbols_convert_from_terminals_and_non_terminals() {
    let t: Symbol = Terminal::Id.into();
    assert_eq!(t, Symbol::Terminal(Terminal::Id));
    assert_eq!(Symbol::from(NonTerminal::Expr), Symbol::NonTerminal(NonTerminal::Expr));
}

#[test]
fn symbol_set_holds_non_terminals() {
    let mut set = SymbolSet::new();
    assert!(set.insert(Symbol::NonTerminal(NonTerminal::Expr)));
    assert!(set.insert(Symbol::Terminal(Terminal::Id)));
    assert!(!set.insert(Symbol::NonTerminal(NonTerminal::Expr)));
    assert!(set.contains(&Symbol::NonTerminal(NonTerminal::Expr)));
    assert!(!set.contains(&Symbol::NonTerminal(NonTerminal::Term)));
    assert_eq!(
        set.symbols(),
        vec![Symbol::Terminal(Terminal::Id), Symbol::NonTerminal(NonTerminal::Expr)]
    );
    assert_eq!(set.text(), "{ Expr, id }");
}

#[test]
fn symbol_set_union_carries_non_terminals() {
    let mut from = SymbolSet::new();
    from.insert(Symbol::NonTerminal(NonTerminal::Factor));
    from.insert(Symbol::Epsilon);
    let mut into = SymbolSet::new();
    assert!(into.union_with(&from, true));
    assert!(into.contains(&Symbol::NonTerminal(NonTerminal::Factor)));
    assert!(!into.contains(&Symbol::Epsilon));
    assert!(!into.union_with(&from, true));
}

#[test]
fn action_table_takes_any_state_id() {
    let mut table = LRTable::new();
    table.action.insert((usize::MAX, Terminal::Id), Action::Shift(1));
    table.action.insert((2, Terminal::Semicolon), Action::Reduce(3));
    table.action.insert((2, Terminal::Semicolon), Action::Accept);
    assert_eq!(table.action.get(&(usize::MAX, Terminal::Id)), Some(Action::Shift(1)));
    assert_eq!(table.action.get(&(2, Terminal::Semicolon)), Some(Action::Accept));
    assert_eq!(table.action.get(&(3, Terminal::Semicolon)), None);
    let entries = table.action.entries();
    assert_eq!(entries.len(), 2);
    assert_eq!(entries[0].0, (2, Terminal::Semicolon));
    assert_eq!(entries[1].0, (usize::MAX, Terminal::Id));
}

#[test]
fn goto_table_takes_any_state_id() {
    let mut table = LRTable::new();
    table.goto.insert((usize::MAX, NonTerminal::Expr), 4);
    table.goto.insert((1, NonTerminal::Term), 5);
    assert_eq!(table.goto.get(&(usize::MAX, NonTerminal::Expr)), Some(4));
    let entries = table.goto.entries();
    assert_eq!(entries, vec![((1, NonTerminal::Term), 5), ((usize::MAX, NonTerminal::Expr), 4)]);
    assert_eq!(table.goto.remove(&(usize::MAX, NonTerminal::Expr)), Some(4));
    assert_eq!(table.goto.entries(), vec![((1, NonTerminal::Term), 5)]);
}
