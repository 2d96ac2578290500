use simple_lr::symbol::{NonTerminal, Terminal};
use simple_lr::syntax_tree::SyntaxTree;

#[test]
fn tree_without_root_has_a_notice() {
    let tree = SyntaxTree::new();
    assert_eq!(tree.format(), "(syntax tree unavailable)");
}

#[test]
fn terminal_leaves_show_lexemes_of_ids_and_numbers() {
    let mut tree = SyntaxTree::new();
    let a = tree.add_terminal(Terminal::Id, "x");
    let b = tree.add_terminal(Terminal::Plus, "+");
    let c = tree.add_terminal(Terminal::Num, "42");
    let e = tree.add_epsilon();
    let root = tree.add_non_terminal(NonTerminal::Expr, vec![a, b, c, e]);
    tree.set_root(root);
    assert_eq!(root, 4);
    assert_eq!(tree.format(), "Expr\n  id(x)\n  +\n  num(42)\n  ε");
}

#[test]
fn children_may_be_added_after_their_parent() {
    let mut tree = SyntaxTree::new();
    let parent = tree.add_non_terminal(NonTerminal::Variable, vec![1]);
    let child = tree.add_terminal(Terminal::Id, "y");
    assert_eq!(child, 1);
    tree.set_root(parent);
    assert_eq!(tree.format(), "Variable\n  id(y)");
}

#[test]
fn nested_nodes_are_indented_two_spaces_per_level() {
    let mut tree = SyntaxTree::new();
    let leaf = tree.add_terminal(Terminal::Id, "z");
    let var = tree.add_non_terminal(NonTerminal::Variable, vec![leaf]);
    let factor = tree.add_non_terminal(NonTerminal::Factor, vec![var]);
    tree.set_root(factor);
    assert_eq!(tree.format(), "Factor\n  Variable\n    id(z)");
}
