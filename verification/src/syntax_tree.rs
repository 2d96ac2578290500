use vstd::prelude::*;
use vstd::string::StringExecFns;
use crate::symbol::{NonTerminal, Terminal};
use crate::text::{join, push_repeat, repeat, string_views, join_strings};

verus! {

/// A node of the syntax tree: its display text and the ids of its children.
#[derive(Debug)]
pub struct TreeNode {
    pub label: String,
    pub children: Vec<usize>,
}

/// A syntax tree kept as a pool of nodes; children are referred to by id.
#[derive(Debug)]
pub struct SyntaxTree {
    pub nodes: Vec<TreeNode>,
    pub root: Option<usize>,
}

/// A node as (label, children).
pub type NodeView = (Seq<char>, Seq<usize>);

pub open spec fn node_view(n: TreeNode) -> NodeView {
    (n.label@, n.children@)
}

pub open spec fn nodes_view(nodes: Seq<TreeNode>) -> Seq<NodeView> {
    nodes.map_values(|n: TreeNode| node_view(n))
}

/// The label of a terminal node: `id` and `num` carry their lexeme.
pub open spec fn terminal_label(t: Terminal, lexeme: Seq<char>) -> Seq<char> {
    if t == Terminal::Id || t == Terminal::Num {
        t.spec_name() + "("@ + lexeme + ")"@
    } else {
        t.spec_name()
    }
}

/// Every child has a smaller id than its parent.
pub open spec fn well_ordered(t: Seq<NodeView>) -> bool {
    forall|i: int, k: int| 0 <= i < t.len() && 0 <= k < t[i].1.len() ==> 0 <= #[trigger] t[i].1[k] < i
}

/// Node `id` and everything below it are nodes of `t`, and no path below it
/// is `depth` nodes long or longer: the subtree is finite and can be printed.
pub open spec fn printable(t: Seq<NodeView>, id: int, depth: nat) -> bool
    decreases depth,
{
    &&& depth > 0
    &&& 0 <= id < t.len()
    &&& forall|k: int| 0 <= k < t[id].1.len() ==> printable(t, #[trigger] t[id].1[k] as int, (depth - 1) as nat)
}

/// The lines of the subtree of `id`, indented two spaces per level, looking
/// at most `depth` levels down.
pub open spec fn node_lines(t: Seq<NodeView>, id: int, indent: nat, depth: nat) -> Seq<Seq<char>>
    decreases depth, 0int, 0int,
{
    if depth > 0 && 0 <= id < t.len() {
        seq![repeat("  "@, indent) + t[id].0] + children_lines(t, t[id].1, indent + 1, (depth - 1) as nat)
    } else {
        Seq::empty()
    }
}

/// The lines of the subtrees of the children `cs`, in order.
pub open spec fn children_lines(t: Seq<NodeView>, cs: Seq<usize>, indent: nat, depth: nat) -> Seq<Seq<char>>
    decreases depth, 1int, cs.len(),
{
    if cs.len() == 0 {
        Seq::empty()
    } else {
        children_lines(t, cs.drop_last(), indent, depth) + node_lines(t, cs.last() as int, indent, depth)
    }
}

/// The subtree of `id` can be printed with a depth bound that a `usize` holds.
pub open spec fn printable_within_usize(t: Seq<NodeView>, id: int) -> bool {
    exists|d: nat| d <= usize::MAX && #[trigger] printable(t, id, d)
}

/// A depth bound below which the subtree of `root` can be printed, when there
/// is one that a `usize` can hold.
pub open spec fn print_depth(t: Seq<NodeView>, root: int) -> nat {
    choose|d: nat| d <= usize::MAX && #[trigger] printable(t, root, d)
}

/// The tree can be printed: it has no root, or its root's subtree is finite,
/// made of nodes of the tree, and no deeper than a `usize` can count.
pub open spec fn printable_tree(t: Seq<NodeView>, root: Option<usize>) -> bool {
    match root {
        Some(r) => printable_within_usize(t, r as int),
        None => true,
    }
}

/// The indented text of a tree, one node per line, or a notice when it has
/// no root.
pub open spec fn tree_text(t: Seq<NodeView>, root: Option<usize>) -> Seq<char> {
    match root {
        None => "(syntax tree unavailable)"@,
        Some(r) => join(node_lines(t, r as int, 0, print_depth(t, r as int)), "\n"@),
    }
}

/// In a well-ordered tree every node can be printed, with its id plus one as
/// a depth bound.
pub proof fn lemma_well_ordered_printable(t: Seq<NodeView>, id: int)
    requires
        well_ordered(t),
        0 <= id < t.len(),
    ensures
        printable(t, id, (id + 1) as nat),
    decreases id,
{
    assert forall|k: int| 0 <= k < t[id].1.len() implies printable(t, #[trigger] t[id].1[k] as int, id as nat) by {
        let c = t[id].1[k] as int;
        assert(0 <= c < id);
        lemma_well_ordered_printable(t, c);
        lemma_printable_deeper(t, c, (c + 1) as nat, id as nat);
    }
}

/// A depth bound that works keeps working when raised.
pub proof fn lemma_printable_deeper(t: Seq<NodeView>, id: int, d1: nat, d2: nat)
    requires
        printable(t, id, d1),
        d1 <= d2,
    ensures
        printable(t, id, d2),
    decreases d1,
{
    assert forall|k: int| 0 <= k < t[id].1.len() implies printable(t, #[trigger] t[id].1[k] as int, (d2 - 1) as nat) by {
        lemma_printable_deeper(t, t[id].1[k] as int, (d1 - 1) as nat, (d2 - 1) as nat);
    }
}

/// No terminal leaf reads as an epsilon leaf.
pub proof fn lemma_terminal_label_not_epsilon(t: Terminal, lexeme: Seq<char>)
    ensures
        terminal_label(t, lexeme) != "ε"@,
{
    reveal_strlit("ε");
    assert("ε"@ =~= seq!['ε']);
    if t == Terminal::Id || t == Terminal::Num {
        reveal_strlit("(");
        reveal_strlit(")");
        assert(terminal_label(t, lexeme).len() >= 2);
    } else {
        match t {
            Terminal::Plus => {
                reveal_strlit("+");
                assert("+"@[0] != "ε"@[0]);
            },
            Terminal::Minus => {
                reveal_strlit("-");
                assert("-"@[0] != "ε"@[0]);
            },
            Terminal::Star => {
                reveal_strlit("*");
                assert("*"@[0] != "ε"@[0]);
            },
            Terminal::Slash => {
                reveal_strlit("/");
                assert("/"@[0] != "ε"@[0]);
            },
            Terminal::Assign => {
                reveal_strlit("=");
                assert("="@[0] != "ε"@[0]);
            },
            Terminal::Lt => {
                reveal_strlit("<");
                assert("<"@[0] != "ε"@[0]);
            },
            Terminal::Gt => {
                reveal_strlit(">");
                assert(">"@[0] != "ε"@[0]);
            },
            Terminal::LParen => {
                reveal_strlit("(");
                assert("("@[0] != "ε"@[0]);
            },
            Terminal::RParen => {
                reveal_strlit(")");
                assert(")"@[0] != "ε"@[0]);
            },
            Terminal::LBrace => {
                reveal_strlit("{");
                assert("{"@[0] != "ε"@[0]);
            },
            Terminal::RBrace => {
                reveal_strlit("}");
                assert("}"@[0] != "ε"@[0]);
            },
            Terminal::Semicolon => {
                reveal_strlit(";");
                assert(";"@[0] != "ε"@[0]);
            },
            Terminal::End => {
                reveal_strlit("#");
                assert("#"@[0] != "ε"@[0]);
            },
            _ => {
                assert(t.spec_name().len() >= 2) by {
                    match t {
                        Terminal::Let => reveal_strlit("let"),
                        Terminal::If => reveal_strlit("if"),
                        Terminal::Else => reveal_strlit("else"),
                        Terminal::While => reveal_strlit("while"),
                        Terminal::True => reveal_strlit("true"),
                        Terminal::False => reveal_strlit("false"),
                        Terminal::And => reveal_strlit("and"),
                        Terminal::Or => reveal_strlit("or"),
                        Terminal::Not => reveal_strlit("not"),
                        Terminal::Eq => reveal_strlit("=="),
                        Terminal::Ne => reveal_strlit("!="),
                        Terminal::Le => reveal_strlit("<="),
                        Terminal::Ge => reveal_strlit(">="),
                        _ => {},
                    }
                }
            },
        }
    }
}

/// The leaf texts below node `id`, left to right; an epsilon leaf gives none.
pub open spec fn leaves(t: Seq<NodeView>, id: int) -> Seq<Seq<char>>
    decreases id, 1int, 0int,
{
    if 0 <= id < t.len() {
        if t[id].1.len() == 0 {
            if t[id].0 == "ε"@ {
                Seq::empty()
            } else {
                seq![t[id].0]
            }
        } else {
            children_leaves(t, id, t[id].1)
        }
    } else {
        Seq::empty()
    }
}

/// The leaf texts below the children `cs` of node `parent`, in order.
pub open spec fn children_leaves(t: Seq<NodeView>, parent: int, cs: Seq<usize>) -> Seq<Seq<char>>
    decreases parent, 0int, cs.len(),
{
    if cs.len() == 0 {
        Seq::empty()
    } else {
        children_leaves(t, parent, cs.drop_last()) + if 0 <= cs.last() < parent {
            leaves(t, cs.last() as int)
        } else {
            Seq::empty()
        }
    }
}

/// The leaf texts below each node of `ids`, one after the other.
pub open spec fn forest_leaves(t: Seq<NodeView>, ids: Seq<usize>) -> Seq<Seq<char>>
    decreases ids.len(),
{
    if ids.len() == 0 {
        Seq::empty()
    } else {
        forest_leaves(t, ids.drop_last()) + leaves(t, ids.last() as int)
    }
}

/// Adding a node leaves the leaves below older nodes unchanged.
pub proof fn lemma_leaves_push(t: Seq<NodeView>, n: NodeView, id: int)
    requires
        well_ordered(t),
        0 <= id < t.len(),
    ensures
        leaves(t.push(n), id) == leaves(t, id),
    decreases id, 1int,
{
    assert(t.push(n)[id] == t[id]);
    if t[id].1.len() > 0 {
        lemma_children_leaves_push(t, n, id, t[id].1);
    }
}

pub proof fn lemma_children_leaves_push(t: Seq<NodeView>, n: NodeView, parent: int, cs: Seq<usize>)
    requires
        well_ordered(t),
        0 <= parent < t.len(),
    ensures
        children_leaves(t.push(n), parent, cs) == children_leaves(t, parent, cs),
    decreases parent, 0int, cs.len(),
{
    if cs.len() > 0 {
        lemma_children_leaves_push(t, n, parent, cs.drop_last());
        if 0 <= cs.last() < parent {
            lemma_leaves_push(t, n, cs.last() as int);
        }
    }
}

pub proof fn lemma_forest_leaves_push(t: Seq<NodeView>, n: NodeView, ids: Seq<usize>)
    requires
        well_ordered(t),
        forall|k: int| 0 <= k < ids.len() ==> #[trigger] ids[k] < t.len(),
    ensures
        forest_leaves(t.push(n), ids) == forest_leaves(t, ids),
    decreases ids.len(),
{
    if ids.len() > 0 {
        assert forall|k: int| 0 <= k < ids.drop_last().len() implies #[trigger] ids.drop_last()[k] < t.len() by {
            assert(ids.drop_last()[k] == ids[k]);
        }
        lemma_forest_leaves_push(t, n, ids.drop_last());
        lemma_leaves_push(t, n, ids.last() as int);
    }
}

/// The leaves below a run of nodes split where the run splits.
pub proof fn lemma_forest_leaves_append(t: Seq<NodeView>, a: Seq<usize>, b: Seq<usize>)
    ensures
        forest_leaves(t, a + b) == forest_leaves(t, a) + forest_leaves(t, b),
    decreases b.len(),
{
    if b.len() == 0 {
        assert(a + b =~= a);
        assert(forest_leaves(t, a) + forest_leaves(t, b) =~= forest_leaves(t, a));
    } else {
        assert((a + b).drop_last() =~= a + b.drop_last());
        assert((a + b).last() == b.last());
        lemma_forest_leaves_append(t, a, b.drop_last());
        assert(forest_leaves(t, a + b) =~= forest_leaves(t, a) + forest_leaves(t, b));
    }
}

/// Below a node, the children's leaves are those of the children in order.
pub proof fn lemma_children_leaves_forest(t: Seq<NodeView>, parent: int, cs: Seq<usize>)
    requires
        forall|k: int| 0 <= k < cs.len() ==> #[trigger] cs[k] < parent,
    ensures
        children_leaves(t, parent, cs) == forest_leaves(t, cs),
    decreases cs.len(),
{
    if cs.len() > 0 {
        assert forall|k: int| 0 <= k < cs.drop_last().len() implies #[trigger] cs.drop_last()[k] < parent by {
            assert(cs.drop_last()[k] == cs[k]);
        }
        lemma_children_leaves_forest(t, parent, cs.drop_last());
        assert(cs.last() == cs[cs.len() - 1]);
    }
}

impl SyntaxTree {
    pub open spec fn view_nodes(&self) -> Seq<NodeView> {
        nodes_view(self.nodes@)
    }

    pub fn new() -> (t: Self)
        ensures
            t.view_nodes() == Seq::<NodeView>::empty(),
            t.root is None,
    {
        let t = SyntaxTree { nodes: Vec::new(), root: None };
        assert(t.view_nodes() =~= Seq::<NodeView>::empty());
        t
    }

    fn push_node(&mut self, label: String, children: Vec<usize>) -> (id: usize)
        ensures
            final(self).view_nodes() == old(self).view_nodes().push((label@, children@)),
            final(self).root == old(self).root,
            id == old(self).view_nodes().len(),
    {
        self.nodes.push(TreeNode { label, children });
        assert(self.view_nodes() =~= old(self).view_nodes().push((label@, children@)));
        self.nodes.len() - 1
    }

    /// Adds a leaf for a terminal; `id` and `num` show their lexeme.
    pub fn add_terminal(&mut self, terminal: Terminal, lexeme: &str) -> (id: usize)
        ensures
            final(self).view_nodes() == old(self).view_nodes().push((terminal_label(terminal, lexeme@), Seq::empty())),
            final(self).root == old(self).root,
            id == old(self).view_nodes().len(),
    {
        let mut label = String::new();
        label.append(terminal.name());
        if terminal == Terminal::Id || terminal == Terminal::Num {
            label.append("(");
            label.append(lexeme);
            label.append(")");
        }
        assert(label@ =~= terminal_label(terminal, lexeme@));
        let children: Vec<usize> = Vec::new();
        assert(children@ =~= Seq::<usize>::empty());
        self.push_node(label, children)
    }

    /// Adds an epsilon leaf.
    pub fn add_epsilon(&mut self) -> (id: usize)
        ensures
            final(self).view_nodes() == old(self).view_nodes().push(("ε"@, Seq::empty())),
            final(self).root == old(self).root,
            id == old(self).view_nodes().len(),
    {
        let children: Vec<usize> = Vec::new();
        assert(children@ =~= Seq::<usize>::empty());
        self.push_node(String::from_str("ε"), children)
    }

    /// Adds an inner node for a non-terminal with the given children.
    pub fn add_non_terminal(&mut self, non_terminal: NonTerminal, children: Vec<usize>) -> (id: usize)
        ensures
            final(self).view_nodes() == old(self).view_nodes().push((non_terminal.spec_name(), children@)),
            final(self).root == old(self).root,
            id == old(self).view_nodes().len(),
    {
        self.push_node(String::from_str(non_terminal.name()), children)
    }

    /// Sets the root of the tree.
    pub fn set_root(&mut self, root: usize)
        ensures
            final(self).root == Some(root),
            final(self).view_nodes() == old(self).view_nodes(),
    {
        self.root = Some(root);
    }

    fn format_node(&self, node_id: usize, indent: usize, lines: &mut Vec<String>, Ghost(depth): Ghost<nat>)
        requires
            printable(self.view_nodes(), node_id as int, depth),
            indent + depth <= usize::MAX,
        ensures
            string_views(final(lines)@) == string_views(old(lines)@) + node_lines(self.view_nodes(), node_id as int, indent as nat, depth),
        decreases depth,
    {
        let ghost t = self.view_nodes();
        let node = &self.nodes[node_id];
        assert(t[node_id as int] == node_view(*node));
        let mut line = String::new();
        push_repeat(&mut line, "  ", indent);
        line.append(node.label.as_str());
        lines.push(line);
        assert(string_views(lines@) =~= string_views(old(lines)@).push(repeat("  "@, indent as nat) + t[node_id as int].0));
        let ghost after_line = string_views(lines@);
        let mut k: usize = 0;
        while k < node.children.len()
            invariant
                t == self.view_nodes(),
                printable(t, node_id as int, depth),
                indent + depth <= usize::MAX,
                node == &self.nodes@[node_id as int],
                t[node_id as int].1 == node.children@,
                k <= node.children@.len(),
                string_views(lines@) == after_line + children_lines(t, node.children@.take(k as int), (indent + 1) as nat, (depth - 1) as nat),
            decreases node.children@.len() - k,
        {
            let child = node.children[k];
            assert(t[node_id as int].1[k as int] == child);
            assert(printable(t, child as int, (depth - 1) as nat));
            self.format_node(child, indent + 1, lines, Ghost((depth - 1) as nat));
            assert(node.children@.take(k + 1).drop_last() =~= node.children@.take(k as int));
            k = k + 1;
        }
        assert(node.children@.take(node.children@.len() as int) =~= node.children@);
        assert(string_views(lines@) =~= string_views(old(lines)@) + node_lines(t, node_id as int, indent as nat, depth));
    }

    /// The tree as indented text, one node per line, or a notice when it has
    /// no root.
    pub fn format(&self) -> (s: String)
        requires
            printable_tree(self.view_nodes(), self.root),
        ensures
            s@ == tree_text(self.view_nodes(), self.root),
    {
        match self.root {
            None => String::from_str("(syntax tree unavailable)"),
            Some(root) => {
                let ghost depth = print_depth(self.view_nodes(), root as int);
                let mut lines: Vec<String> = Vec::new();
                self.format_node(root, 0, &mut lines, Ghost(depth));
                assert(string_views(lines@) =~= node_lines(self.view_nodes(), root as int, 0, depth));
                join_strings(&lines, "\n")
            },
        }
    }
}

} // verus!
