use vstd::prelude::*;
use crate::grammar::Grammar;
use crate::symbol::{NonTerminal, Symbol, Terminal};
use crate::syntax_tree::{NodeView, terminal_label, well_ordered};
use crate::lexer::TokenView;
use crate::lr_parser::{ParseOutput, ParserConfig, label_fits, node_by_production, tree_follows_grammar, output_fits};
use crate::grammar::simple_lr_rules;
use crate::grammar_laws::lemma_simple_lr_operator_levels;
use crate::grammar_laws::{operator_level, binary_rule};

verus! {

/// The operators whose nesting the grammar decides.
pub open spec fn is_operator(op: Terminal) -> bool {
    op == Terminal::Plus || op == Terminal::Minus || op == Terminal::Star || op == Terminal::Slash || op == Terminal::Or
        || op == Terminal::And
}

/// A tree node labelled like an operator stands for that operator, and a
/// non-terminal's name is never an operator's.
pub proof fn lemma_operator_label(op: Terminal, x: Symbol)
    requires
        is_operator(op),
    ensures
        label_fits(op.spec_name(), x) ==> x == Symbol::Terminal(op),
        forall|a: NonTerminal| #[trigger] a.spec_name() != op.spec_name(),
        op.spec_name() != "ε"@,
{
    reveal_strlit("!=");
    reveal_strlit("#");
    reveal_strlit("(");
    reveal_strlit(")");
    reveal_strlit("*");
    reveal_strlit("+");
    reveal_strlit("-");
    reveal_strlit("/");
    reveal_strlit(";");
    reveal_strlit("<");
    reveal_strlit("<=");
    reveal_strlit("=");
    reveal_strlit("==");
    reveal_strlit(">");
    reveal_strlit(">=");
    reveal_strlit("AssignStmt");
    reveal_strlit("Block");
    reveal_strlit("BoolAnd");
    reveal_strlit("BoolAtom");
    reveal_strlit("BoolExpr");
    reveal_strlit("BoolNot");
    reveal_strlit("DeclInit");
    reveal_strlit("DeclStmt");
    reveal_strlit("ElseBody");
    reveal_strlit("ElsePart");
    reveal_strlit("Expr");
    reveal_strlit("Factor");
    reveal_strlit("IfStmt");
    reveal_strlit("Program");
    reveal_strlit("Program'");
    reveal_strlit("RelOp");
    reveal_strlit("Relation");
    reveal_strlit("SimpleStmt");
    reveal_strlit("Statement");
    reveal_strlit("StmtList");
    reveal_strlit("Term");
    reveal_strlit("Variable");
    reveal_strlit("WhileStmt");
    reveal_strlit("and");
    reveal_strlit("else");
    reveal_strlit("false");
    reveal_strlit("id");
    reveal_strlit("if");
    reveal_strlit("let");
    reveal_strlit("not");
    reveal_strlit("num");
    reveal_strlit("or");
    reveal_strlit("true");
    reveal_strlit("while");
    reveal_strlit("{");
    reveal_strlit("}");
    reveal_strlit("ε");
    assert(op.spec_name().len() <= 3);
    assert forall|a: NonTerminal| #[trigger] a.spec_name() != op.spec_name() by {
        match a {
            NonTerminal::AugmentedStart => {},
            NonTerminal::Program => {},
            NonTerminal::StmtList => {},
            NonTerminal::Statement => {},
            NonTerminal::Block => {},
            NonTerminal::SimpleStmt => {},
            NonTerminal::DeclStmt => {},
            NonTerminal::DeclInit => {},
            NonTerminal::AssignStmt => {},
            NonTerminal::IfStmt => {},
            NonTerminal::ElsePart => {},
            NonTerminal::ElseBody => {},
            NonTerminal::WhileStmt => {},
            NonTerminal::Expr => {},
            NonTerminal::Term => {},
            NonTerminal::Factor => {},
            NonTerminal::BoolExpr => {},
            NonTerminal::BoolAnd => {},
            NonTerminal::BoolNot => {},
            NonTerminal::BoolAtom => {},
            NonTerminal::Relation => {},
            NonTerminal::RelOp => {},
            NonTerminal::Variable => {},
        }
        assert(a.spec_name().len() >= 4);
    }
    if op.spec_name().len() == 1 {
        assert(op.spec_name()[0] != "ε"@[0]);
    }
    if label_fits(op.spec_name(), x) {
        match x {
            Symbol::Terminal(t) => {
                let lexeme = choose|lexeme: Seq<char>| op.spec_name() == #[trigger] terminal_label(t, lexeme);
                if t == Terminal::Id || t == Terminal::Num {
                    assert(terminal_label(t, lexeme).len() >= 4);
                } else {
                    assert(t.spec_name() == op.spec_name());
                    assert(t.spec_name().len() == op.spec_name().len());
                    assert(t.spec_name()[0] == op.spec_name()[0]);
                    match t {
                    Terminal::Id => {},
                    Terminal::Num => {},
                    Terminal::Let => {},
                    Terminal::If => {},
                    Terminal::Else => {},
                    Terminal::While => {},
                    Terminal::True => {},
                    Terminal::False => {},
                    Terminal::And => {},
                    Terminal::Or => {},
                    Terminal::Not => {},
                    Terminal::Plus => {},
                    Terminal::Minus => {},
                    Terminal::Star => {},
                    Terminal::Slash => {},
                    Terminal::Assign => {},
                    Terminal::Eq => {},
                    Terminal::Ne => {},
                    Terminal::Lt => {},
                    Terminal::Le => {},
                    Terminal::Gt => {},
                    Terminal::Ge => {},
                    Terminal::LParen => {},
                    Terminal::RParen => {},
                    Terminal::LBrace => {},
                    Terminal::RBrace => {},
                    Terminal::Semicolon => {},
                    Terminal::End => {},
                    }
                }
            },
            Symbol::NonTerminal(a) => {
                assert(a.spec_name() != op.spec_name());
            },
            Symbol::Epsilon => {},
        }
    }
}

/// No operator node sits directly under a node of a tighter level: in a tree
/// that follows the grammar, the operands of a node built with `tight` have
/// no child labelled `loose`.
pub open spec fn loose_not_under_tight(t: Seq<NodeView>, tight: Terminal, loose: Terminal) -> bool {
    forall|i: int, j: int, m: int, n: int|
        #![trigger t[t[i].1[j] as int], t[t[t[i].1[m] as int].1[n] as int]]
        0 <= i < t.len() && 0 <= j < t[i].1.len() && 0 <= m < t[i].1.len() && t[t[i].1[j] as int].0 == tight.spec_name()
            && 0 <= n < t[t[i].1[m] as int].1.len()
            ==> t[t[t[i].1[m] as int].1[n] as int].0 != loose.spec_name()
}

/// Levels: `tight` is an operator of `lo`, `loose` one of `hi`, and `hi` is
/// a different non-terminal whose name the operands of `lo` do not carry.
proof fn lemma_level_nesting(
    g: &Grammar,
    t: Seq<NodeView>,
    tight: Terminal,
    lo: NonTerminal,
    lo_operand: NonTerminal,
    loose: Terminal,
    hi: NonTerminal,
    hi_operand: NonTerminal,
)
    requires
        is_operator(tight),
        is_operator(loose),
        operator_level(g, tight, lo, lo_operand),
        operator_level(g, loose, hi, hi_operand),
        hi.spec_name() != lo.spec_name(),
        hi.spec_name() != lo_operand.spec_name(),
        tree_follows_grammar(g, t),
        well_ordered(t),
    ensures
        loose_not_under_tight(t, tight, loose),
{
    assert forall|i: int, j: int, m: int, n: int|
        #![trigger t[t[i].1[j] as int], t[t[t[i].1[m] as int].1[n] as int]]
        0 <= i < t.len() && 0 <= j < t[i].1.len() && 0 <= m < t[i].1.len() && t[t[i].1[j] as int].0 == tight.spec_name()
            && 0 <= n < t[t[i].1[m] as int].1.len()
            implies t[t[t[i].1[m] as int].1[n] as int].0 != loose.spec_name() by {
        let cs = t[i].1;
        let p = choose|p: int| node_by_production(g, t, i, p);
        let rhs = g.rhs_of(p);
        lemma_operator_label(tight, rhs[j]);
        lemma_operator_label(loose, rhs[j]);
        assert(rhs.len() > 0) by {
            if rhs.len() == 0 {
                assert(cs.len() == 1 && t[cs[0] as int].0 == "ε"@);
            }
        }
        assert(label_fits(t[cs[j] as int].0, rhs[j]));
        assert(rhs[j] == Symbol::Terminal(tight));
        assert(binary_rule(g, p, lo, tight, lo_operand));
        let c = cs[m] as int;
        assert(0 <= c < i);
        assert(label_fits(t[c].0, rhs[m]));
        let q = choose|q: int| node_by_production(g, t, c, q);
        let rq = g.rhs_of(q);
        let gc = t[c].1[n] as int;
        if t[gc].0 == loose.spec_name() {
            if rq.len() == 0 {
                lemma_operator_label(loose, rhs[0]);
                assert(false);
            } else {
                assert(label_fits(t[gc].0, rq[n]));
                lemma_operator_label(loose, rq[n]);
                assert(rq[n] == Symbol::Terminal(loose));
                assert(binary_rule(g, q, hi, loose, hi_operand));
                lemma_operator_label(tight, rhs[m]);
                if m == 1 {
                    assert(t[c].0 == tight.spec_name());
                    assert(t[c].0 == hi.spec_name());
                }
            }
        }
    }
}

/// In every tree that follows the Simple grammar, multiplication and
/// division bind tighter than addition and subtraction, and `and` tighter
/// than `or`: an operand of a `*` or `/` node never carries a `+` or `-`
/// directly, and an operand of an `and` node never carries an `or` directly
/// (a looser operator appears below a tighter one only inside parentheses).
pub proof fn lemma_trees_respect_precedence(g: &Grammar, t: Seq<NodeView>)
    requires
        operator_level(g, Terminal::Plus, NonTerminal::Expr, NonTerminal::Term),
        operator_level(g, Terminal::Minus, NonTerminal::Expr, NonTerminal::Term),
        operator_level(g, Terminal::Star, NonTerminal::Term, NonTerminal::Factor),
        operator_level(g, Terminal::Slash, NonTerminal::Term, NonTerminal::Factor),
        operator_level(g, Terminal::Or, NonTerminal::BoolExpr, NonTerminal::BoolAnd),
        operator_level(g, Terminal::And, NonTerminal::BoolAnd, NonTerminal::BoolNot),
        tree_follows_grammar(g, t),
        well_ordered(t),
    ensures
        loose_not_under_tight(t, Terminal::Star, Terminal::Plus),
        loose_not_under_tight(t, Terminal::Star, Terminal::Minus),
        loose_not_under_tight(t, Terminal::Slash, Terminal::Plus),
        loose_not_under_tight(t, Terminal::Slash, Terminal::Minus),
        loose_not_under_tight(t, Terminal::And, Terminal::Or),
{
    reveal_strlit("!=");
    reveal_strlit("#");
    reveal_strlit("(");
    reveal_strlit(")");
    reveal_strlit("*");
    reveal_strlit("+");
    reveal_strlit("-");
    reveal_strlit("/");
    reveal_strlit(";");
    reveal_strlit("<");
    reveal_strlit("<=");
    reveal_strlit("=");
    reveal_strlit("==");
    reveal_strlit(">");
    reveal_strlit(">=");
    reveal_strlit("AssignStmt");
    reveal_strlit("Block");
    reveal_strlit("BoolAnd");
    reveal_strlit("BoolAtom");
    reveal_strlit("BoolExpr");
    reveal_strlit("BoolNot");
    reveal_strlit("DeclInit");
    reveal_strlit("DeclStmt");
    reveal_strlit("ElseBody");
    reveal_strlit("ElsePart");
    reveal_strlit("Expr");
    reveal_strlit("Factor");
    reveal_strlit("IfStmt");
    reveal_strlit("Program");
    reveal_strlit("Program'");
    reveal_strlit("RelOp");
    reveal_strlit("Relation");
    reveal_strlit("SimpleStmt");
    reveal_strlit("Statement");
    reveal_strlit("StmtList");
    reveal_strlit("Term");
    reveal_strlit("Variable");
    reveal_strlit("WhileStmt");
    reveal_strlit("and");
    reveal_strlit("else");
    reveal_strlit("false");
    reveal_strlit("id");
    reveal_strlit("if");
    reveal_strlit("let");
    reveal_strlit("not");
    reveal_strlit("num");
    reveal_strlit("or");
    reveal_strlit("true");
    reveal_strlit("while");
    reveal_strlit("{");
    reveal_strlit("}");
    reveal_strlit("ε");
    assert(NonTerminal::Expr.spec_name()[0] != NonTerminal::Term.spec_name()[0]);
    assert(NonTerminal::Expr.spec_name().len() != NonTerminal::Factor.spec_name().len());
    assert(NonTerminal::BoolExpr.spec_name().len() != NonTerminal::BoolAnd.spec_name().len());
    assert(NonTerminal::BoolExpr.spec_name().len() != NonTerminal::BoolNot.spec_name().len());
    lemma_level_nesting(g, t, Terminal::Star, NonTerminal::Term, NonTerminal::Factor, Terminal::Plus, NonTerminal::Expr, NonTerminal::Term);
    lemma_level_nesting(g, t, Terminal::Star, NonTerminal::Term, NonTerminal::Factor, Terminal::Minus, NonTerminal::Expr, NonTerminal::Term);
    lemma_level_nesting(g, t, Terminal::Slash, NonTerminal::Term, NonTerminal::Factor, Terminal::Plus, NonTerminal::Expr, NonTerminal::Term);
    lemma_level_nesting(g, t, Terminal::Slash, NonTerminal::Term, NonTerminal::Factor, Terminal::Minus, NonTerminal::Expr, NonTerminal::Term);
    lemma_level_nesting(g, t, Terminal::And, NonTerminal::BoolAnd, NonTerminal::BoolNot, Terminal::Or, NonTerminal::BoolExpr, NonTerminal::BoolAnd);
}

/// Every syntax tree that a successful analysis with the Simple grammar
/// builds groups `*` and `/` before `+` and `-`, and `and` before `or`.
pub proof fn lemma_parse_trees_respect_precedence(g: &Grammar, toks: Seq<TokenView>, out: ParseOutput, c: ParserConfig, root: usize)
    requires
        g.rules() == simple_lr_rules(),
        output_fits(g, toks, out, c, root),
    ensures
        loose_not_under_tight(out.tree.view_nodes(), Terminal::Star, Terminal::Plus),
        loose_not_under_tight(out.tree.view_nodes(), Terminal::Star, Terminal::Minus),
        loose_not_under_tight(out.tree.view_nodes(), Terminal::Slash, Terminal::Plus),
        loose_not_under_tight(out.tree.view_nodes(), Terminal::Slash, Terminal::Minus),
        loose_not_under_tight(out.tree.view_nodes(), Terminal::And, Terminal::Or),
{
    lemma_simple_lr_operator_levels(g);
    lemma_trees_respect_precedence(g, c.tree);
}

} // verus!
