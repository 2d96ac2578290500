use vstd::prelude::*;
use vstd::string::StringExecFns;
use crate::symbol::{NonTerminal, Symbol, Terminal};
use crate::text::{decimal, join, join_strings, push_decimal, string_views};
use crate::grammar_laws::{operator_level, precedence_level, lemma_simple_lr_operator_levels, lemma_simple_lr_precedence};

verus! {

/// A production: one grammar rule. An empty right-hand side stands for epsilon.
/// A production is identified by its position in `Grammar::productions`.
#[derive(Debug)]
pub struct Production {
    pub lhs: NonTerminal,
    pub rhs: Vec<Symbol>,
}

/// A grammar: its name, its start symbol and its productions.
#[derive(Debug)]
pub struct Grammar {
    pub name: String,
    pub start: NonTerminal,
    pub productions: Vec<Production>,
}

impl Production {
    pub fn new(lhs: NonTerminal, rhs: Vec<Symbol>) -> (p: Self)
        ensures
            p.lhs == lhs,
            p.rhs@ == rhs@,
    {
        Production { lhs, rhs }
    }

    pub fn rhs_len(&self) -> (n: usize)
        ensures
            n == self.rhs@.len(),
    {
        self.rhs.len()
    }
}

/// The rules of the Simple grammar, in production order.
pub open spec fn simple_lr_rules() -> Seq<(NonTerminal, Seq<Symbol>)> {
    seq![
        (NonTerminal::AugmentedStart, seq![Symbol::NonTerminal(NonTerminal::Program)]),
        (NonTerminal::Program, seq![Symbol::NonTerminal(NonTerminal::StmtList)]),
        (NonTerminal::StmtList, seq![Symbol::NonTerminal(NonTerminal::StmtList), Symbol::NonTerminal(NonTerminal::Statement)]),
        (NonTerminal::StmtList, seq![Symbol::NonTerminal(NonTerminal::Statement)]),
        (NonTerminal::Statement, seq![Symbol::NonTerminal(NonTerminal::SimpleStmt), Symbol::Terminal(Terminal::Semicolon)]),
        (NonTerminal::Statement, seq![Symbol::NonTerminal(NonTerminal::IfStmt)]),
        (NonTerminal::Statement, seq![Symbol::NonTerminal(NonTerminal::WhileStmt)]),
        (NonTerminal::Statement, seq![Symbol::NonTerminal(NonTerminal::Block)]),
        (NonTerminal::Block, seq![Symbol::Terminal(Terminal::LBrace), Symbol::NonTerminal(NonTerminal::StmtList), Symbol::Terminal(Terminal::RBrace)]),
        (NonTerminal::Block, seq![Symbol::Terminal(Terminal::LBrace), Symbol::Terminal(Terminal::RBrace)]),
        (NonTerminal::SimpleStmt, seq![Symbol::NonTerminal(NonTerminal::DeclStmt)]),
        (NonTerminal::SimpleStmt, seq![Symbol::NonTerminal(NonTerminal::AssignStmt)]),
        (NonTerminal::DeclStmt, seq![Symbol::Terminal(Terminal::Let), Symbol::NonTerminal(NonTerminal::Variable), Symbol::NonTerminal(NonTerminal::DeclInit)]),
        (NonTerminal::DeclInit, seq![Symbol::Terminal(Terminal::Assign), Symbol::NonTerminal(NonTerminal::Expr)]),
        (NonTerminal::DeclInit, seq![]),
        (NonTerminal::AssignStmt, seq![Symbol::NonTerminal(NonTerminal::Variable), Symbol::Terminal(Terminal::Assign), Symbol::NonTerminal(NonTerminal::Expr)]),
        (NonTerminal::IfStmt, seq![Symbol::Terminal(Terminal::If), Symbol::Terminal(Terminal::LParen), Symbol::NonTerminal(NonTerminal::BoolExpr), Symbol::Terminal(Terminal::RParen), Symbol::NonTerminal(NonTerminal::Block), Symbol::NonTerminal(NonTerminal::ElsePart)]),
        (NonTerminal::ElsePart, seq![Symbol::Terminal(Terminal::Else), Symbol::NonTerminal(NonTerminal::ElseBody)]),
        (NonTerminal::ElsePart, seq![]),
        (NonTerminal::ElseBody, seq![Symbol::NonTerminal(NonTerminal::Block)]),
        (NonTerminal::ElseBody, seq![Symbol::NonTerminal(NonTerminal::IfStmt)]),
        (NonTerminal::WhileStmt, seq![Symbol::Terminal(Terminal::While), Symbol::Terminal(Terminal::LParen), Symbol::NonTerminal(NonTerminal::BoolExpr), Symbol::Terminal(Terminal::RParen), Symbol::NonTerminal(NonTerminal::Block)]),
        (NonTerminal::Expr, seq![Symbol::NonTerminal(NonTerminal::Expr), Symbol::Terminal(Terminal::Plus), Symbol::NonTerminal(NonTerminal::Term)]),
        (NonTerminal::Expr, seq![Symbol::NonTerminal(NonTerminal::Expr), Symbol::Terminal(Terminal::Minus), Symbol::NonTerminal(NonTerminal::Term)]),
        (NonTerminal::Expr, seq![Symbol::NonTerminal(NonTerminal::Term)]),
        (NonTerminal::Term, seq![Symbol::NonTerminal(NonTerminal::Term), Symbol::Terminal(Terminal::Star), Symbol::NonTerminal(NonTerminal::Factor)]),
        (NonTerminal::Term, seq![Symbol::NonTerminal(NonTerminal::Term), Symbol::Terminal(Terminal::Slash), Symbol::NonTerminal(NonTerminal::Factor)]),
        (NonTerminal::Term, seq![Symbol::NonTerminal(NonTerminal::Factor)]),
        (NonTerminal::Factor, seq![Symbol::Terminal(Terminal::LParen), Symbol::NonTerminal(NonTerminal::Expr), Symbol::Terminal(Terminal::RParen)]),
        (NonTerminal::Factor, seq![Symbol::NonTerminal(NonTerminal::Variable)]),
        (NonTerminal::Factor, seq![Symbol::Terminal(Terminal::Num)]),
        (NonTerminal::BoolExpr, seq![Symbol::NonTerminal(NonTerminal::BoolExpr), Symbol::Terminal(Terminal::Or), Symbol::NonTerminal(NonTerminal::BoolAnd)]),
        (NonTerminal::BoolExpr, seq![Symbol::NonTerminal(NonTerminal::BoolAnd)]),
        (NonTerminal::BoolAnd, seq![Symbol::NonTerminal(NonTerminal::BoolAnd), Symbol::Terminal(Terminal::And), Symbol::NonTerminal(NonTerminal::BoolNot)]),
        (NonTerminal::BoolAnd, seq![Symbol::NonTerminal(NonTerminal::BoolNot)]),
        (NonTerminal::BoolNot, seq![Symbol::Terminal(Terminal::Not), Symbol::NonTerminal(NonTerminal::BoolNot)]),
        (NonTerminal::BoolNot, seq![Symbol::NonTerminal(NonTerminal::BoolAtom)]),
        (NonTerminal::BoolAtom, seq![Symbol::Terminal(Terminal::LParen), Symbol::NonTerminal(NonTerminal::BoolExpr), Symbol::Terminal(Terminal::RParen)]),
        (NonTerminal::BoolAtom, seq![Symbol::Terminal(Terminal::True)]),
        (NonTerminal::BoolAtom, seq![Symbol::Terminal(Terminal::False)]),
        (NonTerminal::BoolAtom, seq![Symbol::NonTerminal(NonTerminal::Relation)]),
        (NonTerminal::Relation, seq![Symbol::NonTerminal(NonTerminal::Variable), Symbol::NonTerminal(NonTerminal::RelOp), Symbol::NonTerminal(NonTerminal::Expr)]),
        (NonTerminal::Relation, seq![Symbol::Terminal(Terminal::Num), Symbol::NonTerminal(NonTerminal::RelOp), Symbol::NonTerminal(NonTerminal::Expr)]),
        (NonTerminal::RelOp, seq![Symbol::Terminal(Terminal::Eq)]),
        (NonTerminal::RelOp, seq![Symbol::Terminal(Terminal::Ne)]),
        (NonTerminal::RelOp, seq![Symbol::Terminal(Terminal::Lt)]),
        (NonTerminal::RelOp, seq![Symbol::Terminal(Terminal::Le)]),
        (NonTerminal::RelOp, seq![Symbol::Terminal(Terminal::Gt)]),
        (NonTerminal::RelOp, seq![Symbol::Terminal(Terminal::Ge)]),
        (NonTerminal::Variable, seq![Symbol::Terminal(Terminal::Id)])
    ]
}

/// Every non-terminal has a production in the Simple grammar, so the grammar
/// is well-formed.
pub proof fn lemma_simple_lr_defines_all(g: &Grammar)
    requires
        g.rules() == simple_lr_rules(),
    ensures
        forall|a: NonTerminal| #[trigger] g.defines(a),
        g.wf(),
{
    assert(g.num_prods() == 50) by {
        assert(g.rules().len() == g.num_prods());
    }
    assert forall|a: NonTerminal| #[trigger] g.defines(a) by {
        assert forall|p: int| 0 <= p < 50 implies g.lhs_of(p) == simple_lr_rules()[p].0 by {
            assert(g.rules()[p] == (g.lhs_of(p), g.rhs_of(p)));
        }
        match a {
            NonTerminal::AugmentedStart => assert(g.lhs_of(0) == a),
            NonTerminal::Program => assert(g.lhs_of(1) == a),
            NonTerminal::StmtList => assert(g.lhs_of(2) == a),
            NonTerminal::Statement => assert(g.lhs_of(4) == a),
            NonTerminal::Block => assert(g.lhs_of(8) == a),
            NonTerminal::SimpleStmt => assert(g.lhs_of(10) == a),
            NonTerminal::DeclStmt => assert(g.lhs_of(12) == a),
            NonTerminal::DeclInit => assert(g.lhs_of(13) == a),
            NonTerminal::AssignStmt => assert(g.lhs_of(15) == a),
            NonTerminal::IfStmt => assert(g.lhs_of(16) == a),
            NonTerminal::ElsePart => assert(g.lhs_of(17) == a),
            NonTerminal::ElseBody => assert(g.lhs_of(19) == a),
            NonTerminal::WhileStmt => assert(g.lhs_of(21) == a),
            NonTerminal::Expr => assert(g.lhs_of(22) == a),
            NonTerminal::Term => assert(g.lhs_of(25) == a),
            NonTerminal::Factor => assert(g.lhs_of(28) == a),
            NonTerminal::BoolExpr => assert(g.lhs_of(31) == a),
            NonTerminal::BoolAnd => assert(g.lhs_of(33) == a),
            NonTerminal::BoolNot => assert(g.lhs_of(35) == a),
            NonTerminal::BoolAtom => assert(g.lhs_of(37) == a),
            NonTerminal::Relation => assert(g.lhs_of(41) == a),
            NonTerminal::RelOp => assert(g.lhs_of(43) == a),
            NonTerminal::Variable => assert(g.lhs_of(49) == a),
        }
    }
}

impl Grammar {
    pub open spec fn num_prods(&self) -> nat {
        self.productions@.len()
    }

    pub open spec fn lhs_of(&self, p: int) -> NonTerminal {
        self.productions@[p].lhs
    }

    pub open spec fn rhs_of(&self, p: int) -> Seq<Symbol> {
        self.productions@[p].rhs@
    }

    pub open spec fn valid_prod(&self, p: int) -> bool {
        0 <= p < self.num_prods()
    }

    /// Some production has `a` as its left-hand side.
    pub open spec fn defines(&self, a: NonTerminal) -> bool {
        exists|p: int| 0 <= p < self.num_prods() && #[trigger] self.lhs_of(p) == a
    }

    /// `a` is a left-hand side or appears in some right-hand side.
    pub open spec fn occurs(&self, a: NonTerminal) -> bool {
        self.defines(a) || exists|p: int, k: int|
            0 <= p < self.num_prods() && 0 <= k < self.rhs_of(p).len() && #[trigger] self.rhs_of(p)[k]
                == Symbol::NonTerminal(a)
    }

    /// Every non-terminal used in a right-hand side has a production.
    pub open spec fn wf(&self) -> bool {
        forall|p: int, k: int|
            0 <= p < self.num_prods() && 0 <= k < self.rhs_of(p).len() && (#[trigger] self.rhs_of(p)[k]) is NonTerminal
                ==> self.defines(self.rhs_of(p)[k]->NonTerminal_0)
    }

    /// The symbol of production `p` at position `d`, if there is one.
    pub open spec fn symbol_at(&self, p: int, d: int) -> Option<Symbol> {
        if 0 <= p < self.num_prods() && 0 <= d < self.rhs_of(p).len() {
            Some(self.rhs_of(p)[d])
        } else {
            None
        }
    }

    /// The productions as (left-hand side, right-hand side) pairs.
    pub open spec fn rules(&self) -> Seq<(NonTerminal, Seq<Symbol>)> {
        self.productions@.map_values(|p: Production| (p.lhs, p.rhs@))
    }

    /// The Simple left-recursive grammar used for LR(0), SLR(1) and LR(1).
    /// Production 0 is the augmented production `Program' -> Program`.
    pub fn simple_lr() -> (g: Self)
        ensures
            g.rules() == simple_lr_rules(),
            g.wf(),
            forall|a: NonTerminal| #[trigger] g.defines(a),
            g.start == NonTerminal::AugmentedStart,
            g.name@ == "Simple LR 左递归文法"@,
            operator_level(&g, Terminal::Plus, NonTerminal::Expr, NonTerminal::Term),
            operator_level(&g, Terminal::Minus, NonTerminal::Expr, NonTerminal::Term),
            operator_level(&g, Terminal::Star, NonTerminal::Term, NonTerminal::Factor),
            operator_level(&g, Terminal::Slash, NonTerminal::Term, NonTerminal::Factor),
            operator_level(&g, Terminal::Or, NonTerminal::BoolExpr, NonTerminal::BoolAnd),
            operator_level(&g, Terminal::And, NonTerminal::BoolAnd, NonTerminal::BoolNot),
            precedence_level(&g, NonTerminal::Expr, set![Terminal::Plus, Terminal::Minus], NonTerminal::Term),
            precedence_level(&g, NonTerminal::Term, set![Terminal::Star, Terminal::Slash], NonTerminal::Factor),
            precedence_level(&g, NonTerminal::BoolExpr, set![Terminal::Or], NonTerminal::BoolAnd),
            precedence_level(&g, NonTerminal::BoolAnd, set![Terminal::And], NonTerminal::BoolNot),
    {
        let mut productions: Vec<Production> = Vec::new();
        productions.push(Production::new(NonTerminal::AugmentedStart, vec![Symbol::NonTerminal(NonTerminal::Program)]));
        assert(productions@.map_values(|p: Production| (p.lhs, p.rhs@)) =~~= simple_lr_rules().subrange(0, 1));
        productions.push(Production::new(NonTerminal::Program, vec![Symbol::NonTerminal(NonTerminal::StmtList)]));
        assert(productions@.map_values(|p: Production| (p.lhs, p.rhs@)) =~~= simple_lr_rules().subrange(0, 2));
        productions.push(Production::new(NonTerminal::StmtList, vec![Symbol::NonTerminal(NonTerminal::StmtList), Symbol::NonTerminal(NonTerminal::Statement)]));
        assert(productions@.map_values(|p: Production| (p.lhs, p.rhs@)) =~~= simple_lr_rules().subrange(0, 3));
        productions.push(Production::new(NonTerminal::StmtList, vec![Symbol::NonTerminal(NonTerminal::Statement)]));
        assert(productions@.map_values(|p: Production| (p.lhs, p.rhs@)) =~~= simple_lr_rules().subrange(0, 4));
        productions.push(Production::new(NonTerminal::Statement, vec![Symbol::NonTerminal(NonTerminal::SimpleStmt), Symbol::Terminal(Terminal::Semicolon)]));
        assert(productions@.map_values(|p: Production| (p.lhs, p.rhs@)) =~~= simple_lr_rules().subrange(0, 5));
        productions.push(Production::new(NonTerminal::Statement, vec![Symbol::NonTerminal(NonTerminal::IfStmt)]));
        assert(productions@.map_values(|p: Production| (p.lhs, p.rhs@)) =~~= simple_lr_rules().subrange(0, 6));
        productions.push(Production::new(NonTerminal::Statement, vec![Symbol::NonTerminal(NonTerminal::WhileStmt)]));
        assert(productions@.map_values(|p: Production| (p.lhs, p.rhs@)) =~~= simple_lr_rules().subrange(0, 7));
        productions.push(Production::new(NonTerminal::Statement, vec![Symbol::NonTerminal(NonTerminal::Block)]));
        assert(productions@.map_values(|p: Production| (p.lhs, p.rhs@)) =~~= simple_lr_rules().subrange(0, 8));
        productions.push(Production::new(NonTerminal::Block, vec![Symbol::Terminal(Terminal::LBrace), Symbol::NonTerminal(NonTerminal::StmtList), Symbol::Terminal(Terminal::RBrace)]));
        assert(productions@.map_values(|p: Production| (p.lhs, p.rhs@)) =~~= simple_lr_rules().subrange(0, 9));
        productions.push(Production::new(NonTerminal::Block, vec![Symbol::Terminal(Terminal::LBrace), Symbol::Terminal(Terminal::RBrace)]));
        assert(productions@.map_values(|p: Production| (p.lhs, p.rhs@)) =~~= simple_lr_rules().subrange(0, 10));
        productions.push(Production::new(NonTerminal::SimpleStmt, vec![Symbol::NonTerminal(NonTerminal::DeclStmt)]));
        assert(productions@.map_values(|p: Production| (p.lhs, p.rhs@)) =~~= simple_lr_rules().subrange(0, 11));
        productions.push(Production::new(NonTerminal::SimpleStmt, vec![Symbol::NonTerminal(NonTerminal::AssignStmt)]));
        assert(productions@.map_values(|p: Production| (p.lhs, p.rhs@)) =~~= simple_lr_rules().subrange(0, 12));
        productions.push(Production::new(NonTerminal::DeclStmt, vec![Symbol::Terminal(Terminal::Let), Symbol::NonTerminal(NonTerminal::Variable), Symbol::NonTerminal(NonTerminal::DeclInit)]));
        assert(productions@.map_values(|p: Production| (p.lhs, p.rhs@)) =~~= simple_lr_rules().subrange(0, 13));
        productions.push(Production::new(NonTerminal::DeclInit, vec![Symbol::Terminal(Terminal::Assign), Symbol::NonTerminal(NonTerminal::Expr)]));
        assert(productions@.map_values(|p: Production| (p.lhs, p.rhs@)) =~~= simple_lr_rules().subrange(0, 14));
        productions.push(Production::new(NonTerminal::DeclInit, vec![]));
        assert(productions@.map_values(|p: Production| (p.lhs, p.rhs@)) =~~= simple_lr_rules().subrange(0, 15));
        productions.push(Production::new(NonTerminal::AssignStmt, vec![Symbol::NonTerminal(NonTerminal::Variable), Symbol::Terminal(Terminal::Assign), Symbol::NonTerminal(NonTerminal::Expr)]));
        assert(productions@.map_values(|p: Production| (p.lhs, p.rhs@)) =~~= simple_lr_rules().subrange(0, 16));
        productions.push(Production::new(NonTerminal::IfStmt, vec![Symbol::Terminal(Terminal::If), Symbol::Terminal(Terminal::LParen), Symbol::NonTerminal(NonTerminal::BoolExpr), Symbol::Terminal(Terminal::RParen), Symbol::NonTerminal(NonTerminal::Block), Symbol::NonTerminal(NonTerminal::ElsePart)]));
        assert(productions@.map_values(|p: Production| (p.lhs, p.rhs@)) =~~= simple_lr_rules().subrange(0, 17));
        productions.push(Production::new(NonTerminal::ElsePart, vec![Symbol::Terminal(Terminal::Else), Symbol::NonTerminal(NonTerminal::ElseBody)]));
        assert(productions@.map_values(|p: Production| (p.lhs, p.rhs@)) =~~= simple_lr_rules().subrange(0, 18));
        productions.push(Production::new(NonTerminal::ElsePart, vec![]));
        assert(productions@.map_values(|p: Production| (p.lhs, p.rhs@)) =~~= simple_lr_rules().subrange(0, 19));
        productions.push(Production::new(NonTerminal::ElseBody, vec![Symbol::NonTerminal(NonTerminal::Block)]));
        assert(productions@.map_values(|p: Production| (p.lhs, p.rhs@)) =~~= simple_lr_rules().subrange(0, 20));
        productions.push(Production::new(NonTerminal::ElseBody, vec![Symbol::NonTerminal(NonTerminal::IfStmt)]));
        assert(productions@.map_values(|p: Production| (p.lhs, p.rhs@)) =~~= simple_lr_rules().subrange(0, 21));
        productions.push(Production::new(NonTerminal::WhileStmt, vec![Symbol::Terminal(Terminal::While), Symbol::Terminal(Terminal::LParen), Symbol::NonTerminal(NonTerminal::BoolExpr), Symbol::Terminal(Terminal::RParen), Symbol::NonTerminal(NonTerminal::Block)]));
        assert(productions@.map_values(|p: Production| (p.lhs, p.rhs@)) =~~= simple_lr_rules().subrange(0, 22));
        productions.push(Production::new(NonTerminal::Expr, vec![Symbol::NonTerminal(NonTerminal::Expr), Symbol::Terminal(Terminal::Plus), Symbol::NonTerminal(NonTerminal::Term)]));
        assert(productions@.map_values(|p: Production| (p.lhs, p.rhs@)) =~~= simple_lr_rules().subrange(0, 23));
        productions.push(Production::new(NonTerminal::Expr, vec![Symbol::NonTerminal(NonTerminal::Expr), Symbol::Terminal(Terminal::Minus), Symbol::NonTerminal(NonTerminal::Term)]));
        assert(productions@.map_values(|p: Production| (p.lhs, p.rhs@)) =~~= simple_lr_rules().subrange(0, 24));
        productions.push(Production::new(NonTerminal::Expr, vec![Symbol::NonTerminal(NonTerminal::Term)]));
        assert(productions@.map_values(|p: Production| (p.lhs, p.rhs@)) =~~= simple_lr_rules().subrange(0, 25));
        productions.push(Production::new(NonTerminal::Term, vec![Symbol::NonTerminal(NonTerminal::Term), Symbol::Terminal(Terminal::Star), Symbol::NonTerminal(NonTerminal::Factor)]));
        assert(productions@.map_values(|p: Production| (p.lhs, p.rhs@)) =~~= simple_lr_rules().subrange(0, 26));
        productions.push(Production::new(NonTerminal::Term, vec![Symbol::NonTerminal(NonTerminal::Term), Symbol::Terminal(Terminal::Slash), Symbol::NonTerminal(NonTerminal::Factor)]));
        assert(productions@.map_values(|p: Production| (p.lhs, p.rhs@)) =~~= simple_lr_rules().subrange(0, 27));
        productions.push(Production::new(NonTerminal::Term, vec![Symbol::NonTerminal(NonTerminal::Factor)]));
        assert(productions@.map_values(|p: Production| (p.lhs, p.rhs@)) =~~= simple_lr_rules().subrange(0, 28));
        productions.push(Production::new(NonTerminal::Factor, vec![Symbol::Terminal(Terminal::LParen), Symbol::NonTerminal(NonTerminal::Expr), Symbol::Terminal(Terminal::RParen)]));
        assert(productions@.map_values(|p: Production| (p.lhs, p.rhs@)) =~~= simple_lr_rules().subrange(0, 29));
        productions.push(Production::new(NonTerminal::Factor, vec![Symbol::NonTerminal(NonTerminal::Variable)]));
        assert(productions@.map_values(|p: Production| (p.lhs, p.rhs@)) =~~= simple_lr_rules().subrange(0, 30));
        productions.push(Production::new(NonTerminal::Factor, vec![Symbol::Terminal(Terminal::Num)]));
        assert(productions@.map_values(|p: Production| (p.lhs, p.rhs@)) =~~= simple_lr_rules().subrange(0, 31));
        productions.push(Production::new(NonTerminal::BoolExpr, vec![Symbol::NonTerminal(NonTerminal::BoolExpr), Symbol::Terminal(Terminal::Or), Symbol::NonTerminal(NonTerminal::BoolAnd)]));
        assert(productions@.map_values(|p: Production| (p.lhs, p.rhs@)) =~~= simple_lr_rules().subrange(0, 32));
        productions.push(Production::new(NonTerminal::BoolExpr, vec![Symbol::NonTerminal(NonTerminal::BoolAnd)]));
        assert(productions@.map_values(|p: Production| (p.lhs, p.rhs@)) =~~= simple_lr_rules().subrange(0, 33));
        productions.push(Production::new(NonTerminal::BoolAnd, vec![Symbol::NonTerminal(NonTerminal::BoolAnd), Symbol::Terminal(Terminal::And), Symbol::NonTerminal(NonTerminal::BoolNot)]));
        assert(productions@.map_values(|p: Production| (p.lhs, p.rhs@)) =~~= simple_lr_rules().subrange(0, 34));
        productions.push(Production::new(NonTerminal::BoolAnd, vec![Symbol::NonTerminal(NonTerminal::BoolNot)]));
        assert(productions@.map_values(|p: Production| (p.lhs, p.rhs@)) =~~= simple_lr_rules().subrange(0, 35));
        productions.push(Production::new(NonTerminal::BoolNot, vec![Symbol::Terminal(Terminal::Not), Symbol::NonTerminal(NonTerminal::BoolNot)]));
        assert(productions@.map_values(|p: Production| (p.lhs, p.rhs@)) =~~= simple_lr_rules().subrange(0, 36));
        productions.push(Production::new(NonTerminal::BoolNot, vec![Symbol::NonTerminal(NonTerminal::BoolAtom)]));
        assert(productions@.map_values(|p: Production| (p.lhs, p.rhs@)) =~~= simple_lr_rules().subrange(0, 37));
        productions.push(Production::new(NonTerminal::BoolAtom, vec![Symbol::Terminal(Terminal::LParen), Symbol::NonTerminal(NonTerminal::BoolExpr), Symbol::Terminal(Terminal::RParen)]));
        assert(productions@.map_values(|p: Production| (p.lhs, p.rhs@)) =~~= simple_lr_rules().subrange(0, 38));
        productions.push(Production::new(NonTerminal::BoolAtom, vec![Symbol::Terminal(Terminal::True)]));
        assert(productions@.map_values(|p: Production| (p.lhs, p.rhs@)) =~~= simple_lr_rules().subrange(0, 39));
        productions.push(Production::new(NonTerminal::BoolAtom, vec![Symbol::Terminal(Terminal::False)]));
        assert(productions@.map_values(|p: Production| (p.lhs, p.rhs@)) =~~= simple_lr_rules().subrange(0, 40));
        productions.push(Production::new(NonTerminal::BoolAtom, vec![Symbol::NonTerminal(NonTerminal::Relation)]));
        assert(productions@.map_values(|p: Production| (p.lhs, p.rhs@)) =~~= simple_lr_rules().subrange(0, 41));
        productions.push(Production::new(NonTerminal::Relation, vec![Symbol::NonTerminal(NonTerminal::Variable), Symbol::NonTerminal(NonTerminal::RelOp), Symbol::NonTerminal(NonTerminal::Expr)]));
        assert(productions@.map_values(|p: Production| (p.lhs, p.rhs@)) =~~= simple_lr_rules().subrange(0, 42));
        productions.push(Production::new(NonTerminal::Relation, vec![Symbol::Terminal(Terminal::Num), Symbol::NonTerminal(NonTerminal::RelOp), Symbol::NonTerminal(NonTerminal::Expr)]));
        assert(productions@.map_values(|p: Production| (p.lhs, p.rhs@)) =~~= simple_lr_rules().subrange(0, 43));
        productions.push(Production::new(NonTerminal::RelOp, vec![Symbol::Terminal(Terminal::Eq)]));
        assert(productions@.map_values(|p: Production| (p.lhs, p.rhs@)) =~~= simple_lr_rules().subrange(0, 44));
        productions.push(Production::new(NonTerminal::RelOp, vec![Symbol::Terminal(Terminal::Ne)]));
        assert(productions@.map_values(|p: Production| (p.lhs, p.rhs@)) =~~= simple_lr_rules().subrange(0, 45));
        productions.push(Production::new(NonTerminal::RelOp, vec![Symbol::Terminal(Terminal::Lt)]));
        assert(productions@.map_values(|p: Production| (p.lhs, p.rhs@)) =~~= simple_lr_rules().subrange(0, 46));
        productions.push(Production::new(NonTerminal::RelOp, vec![Symbol::Terminal(Terminal::Le)]));
        assert(productions@.map_values(|p: Production| (p.lhs, p.rhs@)) =~~= simple_lr_rules().subrange(0, 47));
        productions.push(Production::new(NonTerminal::RelOp, vec![Symbol::Terminal(Terminal::Gt)]));
        assert(productions@.map_values(|p: Production| (p.lhs, p.rhs@)) =~~= simple_lr_rules().subrange(0, 48));
        productions.push(Production::new(NonTerminal::RelOp, vec![Symbol::Terminal(Terminal::Ge)]));
        assert(productions@.map_values(|p: Production| (p.lhs, p.rhs@)) =~~= simple_lr_rules().subrange(0, 49));
        productions.push(Production::new(NonTerminal::Variable, vec![Symbol::Terminal(Terminal::Id)]));
        assert(productions@.map_values(|p: Production| (p.lhs, p.rhs@)) =~~= simple_lr_rules().subrange(0, 50));
        let g = Grammar {
            name: String::from_str("Simple LR 左递归文法"),
            start: NonTerminal::AugmentedStart,
            productions,
        };
        assert(simple_lr_rules().subrange(0, 50) =~= simple_lr_rules());
        proof {
            lemma_simple_lr_defines_all(&g);
            lemma_simple_lr_operator_levels(&g);
            lemma_simple_lr_precedence(&g);
        }
        g
    }

    pub fn production(&self, id: usize) -> (r: Option<&Production>)
        ensures
            id < self.num_prods() ==> r == Some(&self.productions@[id as int]),
            id >= self.num_prods() ==> r is None,
    {
        if id < self.productions.len() {
            Some(&self.productions[id])
        } else {
            None
        }
    }

    /// The productions whose left-hand side is `lhs`, with their ids, in id order.
    pub fn productions_for(&self, lhs: NonTerminal) -> (r: Vec<(usize, &Production)>)
        ensures
            forall|k: int| 0 <= k < r@.len() ==> {
                &&& 0 <= (#[trigger] r@[k]).0 < self.num_prods()
                &&& self.lhs_of(r@[k].0 as int) == lhs
                &&& r@[k].1 == &self.productions@[r@[k].0 as int]
            },
            forall|a: int, b: int| 0 <= a < b < r@.len() ==> (#[trigger] r@[a]).0 < (#[trigger] r@[b]).0,
            forall|p: int| 0 <= p < self.num_prods() && #[trigger] self.lhs_of(p) == lhs ==> exists|k: int|
                0 <= k < r@.len() && r@[k].0 == p,
    {
        let mut r: Vec<(usize, &Production)> = Vec::new();
        let mut i: usize = 0;
        while i < self.productions.len()
            invariant
                i <= self.num_prods(),
                forall|k: int| 0 <= k < r@.len() ==> {
                    &&& 0 <= (#[trigger] r@[k]).0 < i
                    &&& self.lhs_of(r@[k].0 as int) == lhs
                    &&& r@[k].1 == &self.productions@[r@[k].0 as int]
                },
                forall|a: int, b: int| 0 <= a < b < r@.len() ==> (#[trigger] r@[a]).0 < (#[trigger] r@[b]).0,
                forall|p: int| 0 <= p < i && #[trigger] self.lhs_of(p) == lhs ==> exists|k: int|
                    0 <= k < r@.len() && r@[k].0 == p,
            decreases self.num_prods() - i,
        {
            let ghost old_r = r@;
            if self.productions[i].lhs == lhs {
                r.push((i, &self.productions[i]));
                assert(r@[r@.len() - 1].0 == i);
                assert forall|p: int| 0 <= p < i + 1 && #[trigger] self.lhs_of(p) == lhs implies exists|k: int|
                    0 <= k < r@.len() && r@[k].0 == p by {
                    if p < i {
                        let k = choose|k: int| 0 <= k < old_r.len() && old_r[k].0 == p;
                        assert(r@[k] == old_r[k]);
                    } else {
                        assert(r@[r@.len() - 1].0 == p);
                    }
                }
            }
            i = i + 1;
        }
        r
    }
}

/// The text of a sequence of symbols, each preceded by a space.
pub open spec fn rhs_text(rhs: Seq<Symbol>) -> Seq<char>
    decreases rhs.len(),
{
    if rhs.len() == 0 {
        Seq::empty()
    } else {
        rhs_text(rhs.drop_last()) + " "@ + rhs.last().spec_name()
    }
}

/// The text of a production, `A → x y z`, with `ε` for an empty right-hand side.
pub open spec fn production_text(lhs: NonTerminal, rhs: Seq<Symbol>) -> Seq<char> {
    lhs.spec_name() + " →"@ + if rhs.len() == 0 {
        " ε"@
    } else {
        rhs_text(rhs)
    }
}

impl Production {
    /// The production as text, `A → x y z`.
    pub fn text(&self) -> (s: String)
        ensures
            s@ == production_text(self.lhs, self.rhs@),
    {
        let mut s = String::from_str(self.lhs.name());
        s.append(" →");
        if self.rhs.len() == 0 {
            s.append(" ε");
        } else {
            let mut i: usize = 0;
            let ghost head = s@;
            while i < self.rhs.len()
                invariant
                    i <= self.rhs@.len(),
                    s@ == head + rhs_text(self.rhs@.take(i as int)),
                decreases self.rhs@.len() - i,
            {
                assert(self.rhs@.take(i + 1).drop_last() =~= self.rhs@.take(i as int));
                s.append(" ");
                s.append(self.rhs[i].name());
                i = i + 1;
                assert(s@ =~= head + rhs_text(self.rhs@.take(i as int)));
            }
            assert(self.rhs@.take(self.rhs@.len() as int) =~= self.rhs@);
        }
        assert(s@ =~= production_text(self.lhs, self.rhs@));
        s
    }
}

/// The right-hand side with the dot before symbol `dot`, for the first `k`
/// symbols.
pub open spec fn dotted_prefix(rhs: Seq<Symbol>, dot: int, k: int) -> Seq<Seq<char>>
    decreases k,
{
    if k <= 0 {
        Seq::empty()
    } else {
        dotted_prefix(rhs, dot, k - 1) + (if k - 1 == dot {
            seq!["·"@]
        } else {
            Seq::empty()
        }) + seq![rhs[k - 1].spec_name()]
    }
}

/// The parts of a dotted right-hand side: `· ε` when it is empty, else its
/// symbols with the dot before symbol `dot`, or at the end when `dot` is past
/// the last symbol.
pub open spec fn dotted_parts(rhs: Seq<Symbol>, dot: int) -> Seq<Seq<char>> {
    if rhs.len() == 0 {
        seq!["·"@, "ε"@]
    } else {
        dotted_prefix(rhs, dot, rhs.len() as int) + if dot >= rhs.len() {
            seq!["·"@]
        } else {
            Seq::empty()
        }
    }
}

/// A dotted production: `(3) Statement -> SimpleStmt · ;`.
pub open spec fn dotted_rule(id: nat, lhs: NonTerminal, rhs: Seq<Symbol>, dot: int) -> Seq<char> {
    "("@ + decimal(id) + ") "@ + lhs.spec_name() + " -> "@ + join(dotted_parts(rhs, dot), " "@)
}

impl Production {
    /// The production numbered `id` with a dot before symbol `dot`.
    pub fn dotted_text(&self, id: usize, dot: usize) -> (s: String)
        ensures
            s@ == dotted_rule(id as nat, self.lhs, self.rhs@, dot as int),
    {
        let mut parts: Vec<String> = Vec::new();
        if self.rhs.len() == 0 {
            parts.push(String::from_str("·"));
            parts.push(String::from_str("ε"));
            assert(string_views(parts@) =~= seq!["·"@, "ε"@]);
        } else {
            let mut i: usize = 0;
            while i < self.rhs.len()
                invariant
                    i <= self.rhs@.len(),
                    string_views(parts@) == dotted_prefix(self.rhs@, dot as int, i as int),
                decreases self.rhs@.len() - i,
            {
                let ghost before = string_views(parts@);
                if i == dot {
                    parts.push(String::from_str("·"));
                }
                parts.push(String::from_str(self.rhs[i].name()));
                assert(string_views(parts@) =~= dotted_prefix(self.rhs@, dot as int, i + 1));
                i = i + 1;
            }
            if dot >= self.rhs.len() {
                parts.push(String::from_str("·"));
            }
            assert(string_views(parts@) =~= dotted_parts(self.rhs@, dot as int));
        }
        let mut s = String::from_str("(");
        push_decimal(&mut s, id);
        s.append(") ");
        s.append(self.lhs.name());
        s.append(" -> ");
        let body = join_strings(&parts, " ");
        s.append(body.as_str());
        assert(s@ =~= dotted_rule(id as nat, self.lhs, self.rhs@, dot as int));
        s
    }
}

/// The numbered productions, one per line: `(0) Program' → Program`.
pub open spec fn rules_listing(rules: Seq<(NonTerminal, Seq<Symbol>)>, k: int) -> Seq<char>
    decreases k,
{
    if k <= 0 {
        Seq::empty()
    } else {
        rules_listing(rules, k - 1) + "("@ + decimal((k - 1) as nat) + ") "@ + production_text(rules[k - 1].0, rules[k - 1].1)
            + "\n"@
    }
}

/// The text of a grammar: its name, its start symbol, a blank line, and its
/// numbered productions.
pub open spec fn grammar_text(name: Seq<char>, start: NonTerminal, rules: Seq<(NonTerminal, Seq<Symbol>)>) -> Seq<char> {
    "文法: "@ + name + "\n开始符号: "@ + start.spec_name() + "\n\n"@ + rules_listing(rules, rules.len() as int)
}

impl Grammar {
    /// The grammar as text: name, start symbol and numbered productions.
    pub fn text(&self) -> (s: String)
        ensures
            s@ == grammar_text(self.name@, self.start, self.rules()),
    {
        let mut s = String::from_str("文法: ");
        s.append(self.name.as_str());
        s.append("\n开始符号: ");
        s.append(self.start.name());
        s.append("\n\n");
        let ghost head = s@;
        let mut i: usize = 0;
        while i < self.productions.len()
            invariant
                i <= self.num_prods(),
                s@ == head + rules_listing(self.rules(), i as int),
            decreases self.num_prods() - i,
        {
            let ghost before = s@;
            s.append("(");
            push_decimal(&mut s, i);
            s.append(") ");
            let t = self.productions[i].text();
            s.append(t.as_str());
            s.append("\n");
            assert(self.rules()[i as int] == (self.lhs_of(i as int), self.rhs_of(i as int)));
            assert(s@ =~= head + rules_listing(self.rules(), i + 1));
            i = i + 1;
        }
        assert(s@ =~= grammar_text(self.name@, self.start, self.rules()));
        s
    }
}

} // verus!
