use vstd::prelude::*;
use crate::grammar::{Grammar, simple_lr_rules};
use crate::symbol::{NonTerminal, Symbol, Terminal};

verus! {

/// Production `p` is `lhs -> lhs op operand`: a left-associative binary
/// operator at level `lhs` whose right operand sits one level down.
pub open spec fn binary_rule(g: &Grammar, p: int, lhs: NonTerminal, op: Terminal, operand: NonTerminal) -> bool {
    &&& g.lhs_of(p) == lhs
    &&& g.rhs_of(p) == seq![Symbol::NonTerminal(lhs), Symbol::Terminal(op), Symbol::NonTerminal(operand)]
}

/// Operator `op` is used at level `lhs` only: the grammar has the rule
/// `lhs -> lhs op operand`, and every production that mentions `op` is that rule.
pub open spec fn operator_level(g: &Grammar, op: Terminal, lhs: NonTerminal, operand: NonTerminal) -> bool {
    &&& exists|p: int| 0 <= p < g.num_prods() && #[trigger] binary_rule(g, p, lhs, op, operand)
    &&& forall|p: int, k: int|
        0 <= p < g.num_prods() && 0 <= k < g.rhs_of(p).len() && #[trigger] g.rhs_of(p)[k] == Symbol::Terminal(op)
            ==> binary_rule(g, p, lhs, op, operand)
}

proof fn lemma_rules_level(g: &Grammar, op: Terminal, lhs: NonTerminal, operand: NonTerminal, at: int)
    requires
        g.rules() == simple_lr_rules(),
        0 <= at < simple_lr_rules().len(),
        simple_lr_rules()[at] == (lhs, seq![Symbol::NonTerminal(lhs), Symbol::Terminal(op), Symbol::NonTerminal(operand)]),
        forall|p: int, k: int|
            0 <= p < simple_lr_rules().len() && 0 <= k < simple_lr_rules()[p].1.len() && #[trigger] simple_lr_rules()[p].1[k] == Symbol::Terminal(op)
                ==> p == at,
    ensures
        operator_level(g, op, lhs, operand),
{
    assert(g.num_prods() == simple_lr_rules().len()) by {
        assert(g.rules().len() == g.num_prods());
    }
    assert forall|p: int| 0 <= p < g.num_prods() implies g.lhs_of(p) == simple_lr_rules()[p].0 && g.rhs_of(p) == simple_lr_rules()[p].1 by {
        assert(g.rules()[p] == (g.lhs_of(p), g.rhs_of(p)));
    }
    assert(binary_rule(g, at, lhs, op, operand));
}

/// In the Simple grammar `+` and `-` are operators of `Expr` over `Term`,
/// `*` and `/` of `Term` over `Factor`, `or` of `BoolExpr` over `BoolAnd`
/// and `and` of `BoolAnd` over `BoolNot`: multiplication binds tighter than
/// addition, `and` tighter than `or`, and all four levels associate to the left.
pub proof fn lemma_simple_lr_operator_levels(g: &Grammar)
    requires
        g.rules() == simple_lr_rules(),
    ensures
        operator_level(g, Terminal::Plus, NonTerminal::Expr, NonTerminal::Term),
        operator_level(g, Terminal::Minus, NonTerminal::Expr, NonTerminal::Term),
        operator_level(g, Terminal::Star, NonTerminal::Term, NonTerminal::Factor),
        operator_level(g, Terminal::Slash, NonTerminal::Term, NonTerminal::Factor),
        operator_level(g, Terminal::Or, NonTerminal::BoolExpr, NonTerminal::BoolAnd),
        operator_level(g, Terminal::And, NonTerminal::BoolAnd, NonTerminal::BoolNot),
{
    let r = simple_lr_rules();
    assert(r.len() == 50);
    assert forall|p: int, k: int| 0 <= p < r.len() && 0 <= k < r[p].1.len() && #[trigger] r[p].1[k] == Symbol::Terminal(Terminal::Plus) implies p == 22 by {}
    lemma_rules_level(g, Terminal::Plus, NonTerminal::Expr, NonTerminal::Term, 22);
    assert forall|p: int, k: int| 0 <= p < r.len() && 0 <= k < r[p].1.len() && #[trigger] r[p].1[k] == Symbol::Terminal(Terminal::Minus) implies p == 23 by {}
    lemma_rules_level(g, Terminal::Minus, NonTerminal::Expr, NonTerminal::Term, 23);
    assert forall|p: int, k: int| 0 <= p < r.len() && 0 <= k < r[p].1.len() && #[trigger] r[p].1[k] == Symbol::Terminal(Terminal::Star) implies p == 25 by {}
    lemma_rules_level(g, Terminal::Star, NonTerminal::Term, NonTerminal::Factor, 25);
    assert forall|p: int, k: int| 0 <= p < r.len() && 0 <= k < r[p].1.len() && #[trigger] r[p].1[k] == Symbol::Terminal(Terminal::Slash) implies p == 26 by {}
    lemma_rules_level(g, Terminal::Slash, NonTerminal::Term, NonTerminal::Factor, 26);
    assert forall|p: int, k: int| 0 <= p < r.len() && 0 <= k < r[p].1.len() && #[trigger] r[p].1[k] == Symbol::Terminal(Terminal::Or) implies p == 31 by {}
    lemma_rules_level(g, Terminal::Or, NonTerminal::BoolExpr, NonTerminal::BoolAnd, 31);
    assert forall|p: int, k: int| 0 <= p < r.len() && 0 <= k < r[p].1.len() && #[trigger] r[p].1[k] == Symbol::Terminal(Terminal::And) implies p == 33 by {}
    lemma_rules_level(g, Terminal::And, NonTerminal::BoolAnd, NonTerminal::BoolNot, 33);
}

/// The productions of `lhs` are exactly `lhs -> lhs op operand` for each
/// operator `op` of `ops`, and `lhs -> operand`: one precedence level of a
/// left-associative expression grammar, resting on the level `operand`.
pub open spec fn precedence_level(g: &Grammar, lhs: NonTerminal, ops: Set<Terminal>, operand: NonTerminal) -> bool {
    &&& exists|p: int| 0 <= p < g.num_prods() && #[trigger] g.lhs_of(p) == lhs && g.rhs_of(p) == seq![Symbol::NonTerminal(operand)]
    &&& forall|op: Terminal| #[trigger] ops.contains(op) ==> exists|p: int| 0 <= p < g.num_prods() && #[trigger] binary_rule(g, p, lhs, op, operand)
    &&& forall|p: int| 0 <= p < g.num_prods() && #[trigger] g.lhs_of(p) == lhs ==> g.rhs_of(p) == seq![Symbol::NonTerminal(operand)]
        || exists|op: Terminal| ops.contains(op) && g.rhs_of(p) == seq![Symbol::NonTerminal(lhs), Symbol::Terminal(op), Symbol::NonTerminal(operand)]
}

proof fn lemma_rules_precedence(g: &Grammar, lhs: NonTerminal, ops: Set<Terminal>, operand: NonTerminal, unit: int, bins: Seq<int>)
    requires
        g.rules() == simple_lr_rules(),
        0 <= unit < simple_lr_rules().len(),
        simple_lr_rules()[unit] == (lhs, seq![Symbol::NonTerminal(operand)]),
        forall|i: int| 0 <= i < bins.len() ==> 0 <= #[trigger] bins[i] < simple_lr_rules().len() && simple_lr_rules()[bins[i]].0 == lhs
            && simple_lr_rules()[bins[i]].1.len() == 3 && simple_lr_rules()[bins[i]].1[0] == Symbol::NonTerminal(lhs)
            && simple_lr_rules()[bins[i]].1[2] == Symbol::NonTerminal(operand) && simple_lr_rules()[bins[i]].1[1] is Terminal
            && ops.contains(simple_lr_rules()[bins[i]].1[1]->Terminal_0),
        forall|op: Terminal| #[trigger] ops.contains(op) ==> exists|i: int| 0 <= i < bins.len() && simple_lr_rules()[bins[i]].1[1] == Symbol::Terminal(op),
        forall|p: int| 0 <= p < simple_lr_rules().len() && #[trigger] simple_lr_rules()[p].0 == lhs ==> p == unit || bins.contains(p),
    ensures
        precedence_level(g, lhs, ops, operand),
{
    let r = simple_lr_rules();
    assert(g.num_prods() == r.len()) by {
        assert(g.rules().len() == g.num_prods());
    }
    assert forall|p: int| 0 <= p < g.num_prods() implies g.lhs_of(p) == r[p].0 && g.rhs_of(p) == r[p].1 by {
        assert(g.rules()[p] == (g.lhs_of(p), g.rhs_of(p)));
    }
    assert(g.lhs_of(unit) == lhs && g.rhs_of(unit) == seq![Symbol::NonTerminal(operand)]);
    assert forall|op: Terminal| #[trigger] ops.contains(op) implies exists|p: int| 0 <= p < g.num_prods() && #[trigger] binary_rule(g, p, lhs, op, operand) by {
        let i = choose|i: int| 0 <= i < bins.len() && r[bins[i]].1[1] == Symbol::Terminal(op);
        let p = bins[i];
        assert(g.rhs_of(p) =~= seq![Symbol::NonTerminal(lhs), Symbol::Terminal(op), Symbol::NonTerminal(operand)]);
        assert(binary_rule(g, p, lhs, op, operand));
    }
    assert forall|p: int| 0 <= p < g.num_prods() && #[trigger] g.lhs_of(p) == lhs implies g.rhs_of(p) == seq![Symbol::NonTerminal(operand)]
        || exists|op: Terminal| ops.contains(op) && g.rhs_of(p) == seq![Symbol::NonTerminal(lhs), Symbol::Terminal(op), Symbol::NonTerminal(operand)] by {
        if p != unit {
            assert(bins.contains(p));
            let i = choose|i: int| 0 <= i < bins.len() && bins[i] == p;
            let op = r[p].1[1]->Terminal_0;
            assert(g.rhs_of(p) =~= seq![Symbol::NonTerminal(lhs), Symbol::Terminal(op), Symbol::NonTerminal(operand)]);
        }
    }
}

/// The precedence levels of the Simple grammar, from loosest to tightest:
/// `Expr` over `Term` with `+` and `-`, `Term` over `Factor` with `*` and `/`;
/// `BoolExpr` over `BoolAnd` with `or`, `BoolAnd` over `BoolNot` with `and`.
pub proof fn lemma_simple_lr_precedence(g: &Grammar)
    requires
        g.rules() == simple_lr_rules(),
    ensures
        precedence_level(g, NonTerminal::Expr, set![Terminal::Plus, Terminal::Minus], NonTerminal::Term),
        precedence_level(g, NonTerminal::Term, set![Terminal::Star, Terminal::Slash], NonTerminal::Factor),
        precedence_level(g, NonTerminal::BoolExpr, set![Terminal::Or], NonTerminal::BoolAnd),
        precedence_level(g, NonTerminal::BoolAnd, set![Terminal::And], NonTerminal::BoolNot),
{
    let r = simple_lr_rules();
    assert(r.len() == 50);
    assert forall|p: int| 0 <= p < r.len() && #[trigger] r[p].0 == NonTerminal::Expr implies p == 24 || seq![22int, 23int].contains(p) by {
        if p == 22 { assert(seq![22int, 23int][0] == p); }
        if p == 23 { assert(seq![22int, 23int][1] == p); }
    }
    assert forall|op: Terminal| #[trigger] set![Terminal::Plus, Terminal::Minus].contains(op) implies exists|i: int| 0 <= i < seq![22int, 23int].len() && r[seq![22int, 23int][i]].1[1] == Symbol::Terminal(op) by {
        if op == Terminal::Plus { assert(r[seq![22int, 23int][0]].1[1] == Symbol::Terminal(op)); } else { assert(r[seq![22int, 23int][1]].1[1] == Symbol::Terminal(op)); }
    }
    lemma_rules_precedence(g, NonTerminal::Expr, set![Terminal::Plus, Terminal::Minus], NonTerminal::Term, 24, seq![22int, 23int]);
    assert forall|p: int| 0 <= p < r.len() && #[trigger] r[p].0 == NonTerminal::Term implies p == 27 || seq![25int, 26int].contains(p) by {
        if p == 25 { assert(seq![25int, 26int][0] == p); }
        if p == 26 { assert(seq![25int, 26int][1] == p); }
    }
    assert forall|op: Terminal| #[trigger] set![Terminal::Star, Terminal::Slash].contains(op) implies exists|i: int| 0 <= i < seq![25int, 26int].len() && r[seq![25int, 26int][i]].1[1] == Symbol::Terminal(op) by {
        if op == Terminal::Star { assert(r[seq![25int, 26int][0]].1[1] == Symbol::Terminal(op)); } else { assert(r[seq![25int, 26int][1]].1[1] == Symbol::Terminal(op)); }
    }
    lemma_rules_precedence(g, NonTerminal::Term, set![Terminal::Star, Terminal::Slash], NonTerminal::Factor, 27, seq![25int, 26int]);
    assert forall|p: int| 0 <= p < r.len() && #[trigger] r[p].0 == NonTerminal::BoolExpr implies p == 32 || seq![31int].contains(p) by {
        if p == 31 { assert(seq![31int][0] == p); }
    }
    assert forall|op: Terminal| #[trigger] set![Terminal::Or].contains(op) implies exists|i: int| 0 <= i < seq![31int].len() && r[seq![31int][i]].1[1] == Symbol::Terminal(op) by {
        assert(r[seq![31int][0]].1[1] == Symbol::Terminal(op));
    }
    lemma_rules_precedence(g, NonTerminal::BoolExpr, set![Terminal::Or], NonTerminal::BoolAnd, 32, seq![31int]);
    assert forall|p: int| 0 <= p < r.len() && #[trigger] r[p].0 == NonTerminal::BoolAnd implies p == 34 || seq![33int].contains(p) by {
        if p == 33 { assert(seq![33int][0] == p); }
    }
    assert forall|op: Terminal| #[trigger] set![Terminal::And].contains(op) implies exists|i: int| 0 <= i < seq![33int].len() && r[seq![33int][i]].1[1] == Symbol::Terminal(op) by {
        assert(r[seq![33int][0]].1[1] == Symbol::Terminal(op));
    }
    lemma_rules_precedence(g, NonTerminal::BoolAnd, set![Terminal::And], NonTerminal::BoolNot, 34, seq![33int]);
}

} // verus!
