use vstd::prelude::*;

verus! {

/// Number of terminal symbols (the columns of the ACTION table).
pub const NUM_TERMINALS: usize = 28;

/// Number of non-terminal symbols (the columns of the GOTO table).
pub const NUM_NONTERMINALS: usize = 23;

/// Number of symbol slots: every terminal, every non-terminal and epsilon.
pub const NUM_SYMBOL_SLOTS: usize = 52;

/// Terminal symbols: produced by the lexer, and the columns of the ACTION table.
/// `End` is the end-of-input marker, shown as `#`.
#[derive(Debug, Clone, Copy, PartialEq, Eq, Structural, Hash, PartialOrd, Ord)]
pub enum Terminal {
    Id,
    Num,
    Let,
    If,
    Else,
    While,
    True,
    False,
    And,
    Or,
    Not,
    Plus,
    Minus,
    Star,
    Slash,
    Assign,
    Eq,
    Ne,
    Lt,
    Le,
    Gt,
    Ge,
    LParen,
    RParen,
    LBrace,
    RBrace,
    Semicolon,
    End,
}
/// Non-terminal symbols: left-hand sides of productions, and the columns of the GOTO table.
/// `AugmentedStart` is the augmented start symbol `Program'`.
#[derive(Debug, Clone, Copy, PartialEq, Eq, Structural, Hash, PartialOrd, Ord)]
pub enum NonTerminal {
    AugmentedStart,
    Program,
    StmtList,
    Statement,
    Block,
    SimpleStmt,
    DeclStmt,
    DeclInit,
    AssignStmt,
    IfStmt,
    ElsePart,
    ElseBody,
    WhileStmt,
    Expr,
    Term,
    Factor,
    BoolExpr,
    BoolAnd,
    BoolNot,
    BoolAtom,
    Relation,
    RelOp,
    Variable,
}
/// A grammar symbol: a terminal, a non-terminal, or epsilon.
#[derive(Debug, Clone, Copy, PartialEq, Eq, Structural, Hash, PartialOrd, Ord)]
pub enum Symbol {
    Terminal(Terminal),
    NonTerminal(NonTerminal),
    Epsilon,
}

impl Terminal {
    /// Position of the symbol in declaration order.
    pub open spec fn spec_index(self) -> nat {
        match self {
            Terminal::Id => 0,
            Terminal::Num => 1,
            Terminal::Let => 2,
            Terminal::If => 3,
            Terminal::Else => 4,
            Terminal::While => 5,
            Terminal::True => 6,
            Terminal::False => 7,
            Terminal::And => 8,
            Terminal::Or => 9,
            Terminal::Not => 10,
            Terminal::Plus => 11,
            Terminal::Minus => 12,
            Terminal::Star => 13,
            Terminal::Slash => 14,
            Terminal::Assign => 15,
            Terminal::Eq => 16,
            Terminal::Ne => 17,
            Terminal::Lt => 18,
            Terminal::Le => 19,
            Terminal::Gt => 20,
            Terminal::Ge => 21,
            Terminal::LParen => 22,
            Terminal::RParen => 23,
            Terminal::LBrace => 24,
            Terminal::RBrace => 25,
            Terminal::Semicolon => 26,
            Terminal::End => 27,
        }
    }

    /// The symbol at a given position in declaration order.
    pub open spec fn at(i: int) -> Terminal {
        if i == 0 { Terminal::Id } else if i == 1 { Terminal::Num } else if i == 2 { Terminal::Let } else if i == 3 { Terminal::If } else if i == 4 { Terminal::Else } else if i == 5 { Terminal::While } else if i == 6 { Terminal::True } else if i == 7 { Terminal::False } else if i == 8 { Terminal::And } else if i == 9 { Terminal::Or } else if i == 10 { Terminal::Not } else if i == 11 { Terminal::Plus } else if i == 12 { Terminal::Minus } else if i == 13 { Terminal::Star } else if i == 14 { Terminal::Slash } else if i == 15 { Terminal::Assign } else if i == 16 { Terminal::Eq } else if i == 17 { Terminal::Ne } else if i == 18 { Terminal::Lt } else if i == 19 { Terminal::Le } else if i == 20 { Terminal::Gt } else if i == 21 { Terminal::Ge } else if i == 22 { Terminal::LParen } else if i == 23 { Terminal::RParen } else if i == 24 { Terminal::LBrace } else if i == 25 { Terminal::RBrace } else if i == 26 { Terminal::Semicolon } else { Terminal::End }
    }

    /// Display name of the symbol.
    pub open spec fn spec_name(self) -> Seq<char> {
        match self {
            Terminal::Id => "id"@,
            Terminal::Num => "num"@,
            Terminal::Let => "let"@,
            Terminal::If => "if"@,
            Terminal::Else => "else"@,
            Terminal::While => "while"@,
            Terminal::True => "true"@,
            Terminal::False => "false"@,
            Terminal::And => "and"@,
            Terminal::Or => "or"@,
            Terminal::Not => "not"@,
            Terminal::Plus => "+"@,
            Terminal::Minus => "-"@,
            Terminal::Star => "*"@,
            Terminal::Slash => "/"@,
            Terminal::Assign => "="@,
            Terminal::Eq => "=="@,
            Terminal::Ne => "!="@,
            Terminal::Lt => "<"@,
            Terminal::Le => "<="@,
            Terminal::Gt => ">"@,
            Terminal::Ge => ">="@,
            Terminal::LParen => "("@,
            Terminal::RParen => ")"@,
            Terminal::LBrace => "{"@,
            Terminal::RBrace => "}"@,
            Terminal::Semicolon => ";"@,
            Terminal::End => "#"@,
        }
    }

    pub proof fn lemma_at_index(self)
        ensures
            Terminal::at(self.spec_index() as int) == self,
            self.spec_index() < 28,
    {
    }

    pub proof fn lemma_index_at(i: int)
        requires
            0 <= i < 28,
        ensures
            Terminal::at(i).spec_index() == i,
    {
    }

    pub fn index(self) -> (i: usize)
        ensures
            i == self.spec_index(),
            i < 28,
    {
        match self {
            Terminal::Id => 0,
            Terminal::Num => 1,
            Terminal::Let => 2,
            Terminal::If => 3,
            Terminal::Else => 4,
            Terminal::While => 5,
            Terminal::True => 6,
            Terminal::False => 7,
            Terminal::And => 8,
            Terminal::Or => 9,
            Terminal::Not => 10,
            Terminal::Plus => 11,
            Terminal::Minus => 12,
            Terminal::Star => 13,
            Terminal::Slash => 14,
            Terminal::Assign => 15,
            Terminal::Eq => 16,
            Terminal::Ne => 17,
            Terminal::Lt => 18,
            Terminal::Le => 19,
            Terminal::Gt => 20,
            Terminal::Ge => 21,
            Terminal::LParen => 22,
            Terminal::RParen => 23,
            Terminal::LBrace => 24,
            Terminal::RBrace => 25,
            Terminal::Semicolon => 26,
            Terminal::End => 27,
        }
    }

    pub fn from_index(i: usize) -> (t: Terminal)
        requires
            i < 28,
        ensures
            t.spec_index() == i,
            t == Terminal::at(i as int),
    {
        match i {
            0 => Terminal::Id,
            1 => Terminal::Num,
            2 => Terminal::Let,
            3 => Terminal::If,
            4 => Terminal::Else,
            5 => Terminal::While,
            6 => Terminal::True,
            7 => Terminal::False,
            8 => Terminal::And,
            9 => Terminal::Or,
            10 => Terminal::Not,
            11 => Terminal::Plus,
            12 => Terminal::Minus,
            13 => Terminal::Star,
            14 => Terminal::Slash,
            15 => Terminal::Assign,
            16 => Terminal::Eq,
            17 => Terminal::Ne,
            18 => Terminal::Lt,
            19 => Terminal::Le,
            20 => Terminal::Gt,
            21 => Terminal::Ge,
            22 => Terminal::LParen,
            23 => Terminal::RParen,
            24 => Terminal::LBrace,
            25 => Terminal::RBrace,
            26 => Terminal::Semicolon,
            _ => Terminal::End,
        }
    }

    /// Display name of the symbol.
    pub fn name(self) -> (s: &'static str)
        ensures
            s@ == self.spec_name(),
    {
        match self {
            Terminal::Id => "id",
            Terminal::Num => "num",
            Terminal::Let => "let",
            Terminal::If => "if",
            Terminal::Else => "else",
            Terminal::While => "while",
            Terminal::True => "true",
            Terminal::False => "false",
            Terminal::And => "and",
            Terminal::Or => "or",
            Terminal::Not => "not",
            Terminal::Plus => "+",
            Terminal::Minus => "-",
            Terminal::Star => "*",
            Terminal::Slash => "/",
            Terminal::Assign => "=",
            Terminal::Eq => "==",
            Terminal::Ne => "!=",
            Terminal::Lt => "<",
            Terminal::Le => "<=",
            Terminal::Gt => ">",
            Terminal::Ge => ">=",
            Terminal::LParen => "(",
            Terminal::RParen => ")",
            Terminal::LBrace => "{",
            Terminal::RBrace => "}",
            Terminal::Semicolon => ";",
            Terminal::End => "#",
        }
    }

    /// Every value, in declaration order.
    pub fn all() -> (v: Vec<Terminal>)
        ensures
            v@.len() == 28,
            forall|i: int| 0 <= i < 28 ==> #[trigger] v@[i] == Terminal::at(i),
    {
        let mut v: Vec<Terminal> = Vec::new();
        let mut i: usize = 0;
        while i < 28
            invariant
                i <= 28,
                v@.len() == i,
                forall|k: int| 0 <= k < i ==> #[trigger] v@[k] == Terminal::at(k),
            decreases 28 - i,
        {
            v.push(Terminal::from_index(i));
            i = i + 1;
        }
        v
    }
}
impl NonTerminal {
    /// Position of the symbol in declaration order.
    pub open spec fn spec_index(self) -> nat {
        match self {
            NonTerminal::AugmentedStart => 0,
            NonTerminal::Program => 1,
            NonTerminal::StmtList => 2,
            NonTerminal::Statement => 3,
            NonTerminal::Block => 4,
            NonTerminal::SimpleStmt => 5,
            NonTerminal::DeclStmt => 6,
            NonTerminal::DeclInit => 7,
            NonTerminal::AssignStmt => 8,
            NonTerminal::IfStmt => 9,
            NonTerminal::ElsePart => 10,
            NonTerminal::ElseBody => 11,
            NonTerminal::WhileStmt => 12,
            NonTerminal::Expr => 13,
            NonTerminal::Term => 14,
            NonTerminal::Factor => 15,
            NonTerminal::BoolExpr => 16,
            NonTerminal::BoolAnd => 17,
            NonTerminal::BoolNot => 18,
            NonTerminal::BoolAtom => 19,
            NonTerminal::Relation => 20,
            NonTerminal::RelOp => 21,
            NonTerminal::Variable => 22,
        }
    }

    /// The symbol at a given position in declaration order.
    pub open spec fn at(i: int) -> NonTerminal {
        if i == 0 { NonTerminal::AugmentedStart } else if i == 1 { NonTerminal::Program } else if i == 2 { NonTerminal::StmtList } else if i == 3 { NonTerminal::Statement } else if i == 4 { NonTerminal::Block } else if i == 5 { NonTerminal::SimpleStmt } else if i == 6 { NonTerminal::DeclStmt } else if i == 7 { NonTerminal::DeclInit } else if i == 8 { NonTerminal::AssignStmt } else if i == 9 { NonTerminal::IfStmt } else if i == 10 { NonTerminal::ElsePart } else if i == 11 { NonTerminal::ElseBody } else if i == 12 { NonTerminal::WhileStmt } else if i == 13 { NonTerminal::Expr } else if i == 14 { NonTerminal::Term } else if i == 15 { NonTerminal::Factor } else if i == 16 { NonTerminal::BoolExpr } else if i == 17 { NonTerminal::BoolAnd } else if i == 18 { NonTerminal::BoolNot } else if i == 19 { NonTerminal::BoolAtom } else if i == 20 { NonTerminal::Relation } else if i == 21 { NonTerminal::RelOp } else { NonTerminal::Variable }
    }

    /// Display name of the symbol.
    pub open spec fn spec_name(self) -> Seq<char> {
        match self {
            NonTerminal::AugmentedStart => "Program'"@,
            NonTerminal::Program => "Program"@,
            NonTerminal::StmtList => "StmtList"@,
            NonTerminal::Statement => "Statement"@,
            NonTerminal::Block => "Block"@,
            NonTerminal::SimpleStmt => "SimpleStmt"@,
            NonTerminal::DeclStmt => "DeclStmt"@,
            NonTerminal::DeclInit => "DeclInit"@,
            NonTerminal::AssignStmt => "AssignStmt"@,
            NonTerminal::IfStmt => "IfStmt"@,
            NonTerminal::ElsePart => "ElsePart"@,
            NonTerminal::ElseBody => "ElseBody"@,
            NonTerminal::WhileStmt => "WhileStmt"@,
            NonTerminal::Expr => "Expr"@,
            NonTerminal::Term => "Term"@,
            NonTerminal::Factor => "Factor"@,
            NonTerminal::BoolExpr => "BoolExpr"@,
            NonTerminal::BoolAnd => "BoolAnd"@,
            NonTerminal::BoolNot => "BoolNot"@,
            NonTerminal::BoolAtom => "BoolAtom"@,
            NonTerminal::Relation => "Relation"@,
            NonTerminal::RelOp => "RelOp"@,
            NonTerminal::Variable => "Variable"@,
        }
    }

    pub proof fn lemma_at_index(self)
        ensures
            NonTerminal::at(self.spec_index() as int) == self,
            self.spec_index() < 23,
    {
    }

    pub proof fn lemma_index_at(i: int)
        requires
            0 <= i < 23,
        ensures
            NonTerminal::at(i).spec_index() == i,
    {
    }

    pub fn index(self) -> (i: usize)
        ensures
            i == self.spec_index(),
            i < 23,
    {
        match self {
            NonTerminal::AugmentedStart => 0,
            NonTerminal::Program => 1,
            NonTerminal::StmtList => 2,
            NonTerminal::Statement => 3,
            NonTerminal::Block => 4,
            NonTerminal::SimpleStmt => 5,
            NonTerminal::DeclStmt => 6,
            NonTerminal::DeclInit => 7,
            NonTerminal::AssignStmt => 8,
            NonTerminal::IfStmt => 9,
            NonTerminal::ElsePart => 10,
            NonTerminal::ElseBody => 11,
            NonTerminal::WhileStmt => 12,
            NonTerminal::Expr => 13,
            NonTerminal::Term => 14,
            NonTerminal::Factor => 15,
            NonTerminal::BoolExpr => 16,
            NonTerminal::BoolAnd => 17,
            NonTerminal::BoolNot => 18,
            NonTerminal::BoolAtom => 19,
            NonTerminal::Relation => 20,
            NonTerminal::RelOp => 21,
            NonTerminal::Variable => 22,
        }
    }

    pub fn from_index(i: usize) -> (t: NonTerminal)
        requires
            i < 23,
        ensures
            t.spec_index() == i,
            t == NonTerminal::at(i as int),
    {
        match i {
            0 => NonTerminal::AugmentedStart,
            1 => NonTerminal::Program,
            2 => NonTerminal::StmtList,
            3 => NonTerminal::Statement,
            4 => NonTerminal::Block,
            5 => NonTerminal::SimpleStmt,
            6 => NonTerminal::DeclStmt,
            7 => NonTerminal::DeclInit,
            8 => NonTerminal::AssignStmt,
            9 => NonTerminal::IfStmt,
            10 => NonTerminal::ElsePart,
            11 => NonTerminal::ElseBody,
            12 => NonTerminal::WhileStmt,
            13 => NonTerminal::Expr,
            14 => NonTerminal::Term,
            15 => NonTerminal::Factor,
            16 => NonTerminal::BoolExpr,
            17 => NonTerminal::BoolAnd,
            18 => NonTerminal::BoolNot,
            19 => NonTerminal::BoolAtom,
            20 => NonTerminal::Relation,
            21 => NonTerminal::RelOp,
            _ => NonTerminal::Variable,
        }
    }

    /// Display name of the symbol.
    pub fn name(self) -> (s: &'static str)
        ensures
            s@ == self.spec_name(),
    {
        match self {
            NonTerminal::AugmentedStart => "Program'",
            NonTerminal::Program => "Program",
            NonTerminal::StmtList => "StmtList",
            NonTerminal::Statement => "Statement",
            NonTerminal::Block => "Block",
            NonTerminal::SimpleStmt => "SimpleStmt",
            NonTerminal::DeclStmt => "DeclStmt",
            NonTerminal::DeclInit => "DeclInit",
            NonTerminal::AssignStmt => "AssignStmt",
            NonTerminal::IfStmt => "IfStmt",
            NonTerminal::ElsePart => "ElsePart",
            NonTerminal::ElseBody => "ElseBody",
            NonTerminal::WhileStmt => "WhileStmt",
            NonTerminal::Expr => "Expr",
            NonTerminal::Term => "Term",
            NonTerminal::Factor => "Factor",
            NonTerminal::BoolExpr => "BoolExpr",
            NonTerminal::BoolAnd => "BoolAnd",
            NonTerminal::BoolNot => "BoolNot",
            NonTerminal::BoolAtom => "BoolAtom",
            NonTerminal::Relation => "Relation",
            NonTerminal::RelOp => "RelOp",
            NonTerminal::Variable => "Variable",
        }
    }

    /// Every value, in declaration order.
    pub fn all() -> (v: Vec<NonTerminal>)
        ensures
            v@.len() == 23,
            forall|i: int| 0 <= i < 23 ==> #[trigger] v@[i] == NonTerminal::at(i),
    {
        let mut v: Vec<NonTerminal> = Vec::new();
        let mut i: usize = 0;
        while i < 23
            invariant
                i <= 23,
                v@.len() == i,
                forall|k: int| 0 <= k < i ==> #[trigger] v@[k] == NonTerminal::at(k),
            decreases 23 - i,
        {
            v.push(NonTerminal::from_index(i));
            i = i + 1;
        }
        v
    }
}
impl Symbol {
    /// Slot of a symbol: terminals first, then non-terminals, then epsilon.
    /// This is the order of the derived `Ord`.
    pub open spec fn spec_slot(self) -> nat {
        match self {
            Symbol::Terminal(t) => t.spec_index(),
            Symbol::NonTerminal(n) => 28 + n.spec_index(),
            Symbol::Epsilon => 51,
        }
    }

    /// The symbol stored in a given slot.
    pub open spec fn at_slot(i: int) -> Symbol {
        if i < 28 {
            Symbol::Terminal(Terminal::at(i))
        } else if i < 51 {
            Symbol::NonTerminal(NonTerminal::at(i - 28))
        } else {
            Symbol::Epsilon
        }
    }

    pub proof fn lemma_slot(self)
        ensures
            Symbol::at_slot(self.spec_slot() as int) == self,
            self.spec_slot() < 52,
    {
        match self {
            Symbol::Terminal(t) => t.lemma_at_index(),
            Symbol::NonTerminal(n) => n.lemma_at_index(),
            Symbol::Epsilon => {},
        }
    }

    pub proof fn lemma_slot_at(i: int)
        requires
            0 <= i < 52,
        ensures
            Symbol::at_slot(i).spec_slot() == i,
    {
        if i < 28 {
            Terminal::lemma_index_at(i);
        } else if i < 51 {
            NonTerminal::lemma_index_at(i - 28);
        }
    }

    pub fn slot(&self) -> (i: usize)
        ensures
            i == self.spec_slot(),
            i < 52,
    {
        match self {
            Symbol::Terminal(t) => t.index(),
            Symbol::NonTerminal(n) => 28 + n.index(),
            Symbol::Epsilon => 51,
        }
    }

    pub fn from_slot(i: usize) -> (s: Symbol)
        requires
            i < 52,
        ensures
            s == Symbol::at_slot(i as int),
            s.spec_slot() == i,
    {
        proof {
            Symbol::lemma_slot_at(i as int);
        }
        if i < 28 {
            Symbol::Terminal(Terminal::from_index(i))
        } else if i < 51 {
            Symbol::NonTerminal(NonTerminal::from_index(i - 28))
        } else {
            Symbol::Epsilon
        }
    }

    /// Display text of a symbol; epsilon is shown as `ε`.
    pub open spec fn spec_name(self) -> Seq<char> {
        match self {
            Symbol::Terminal(t) => t.spec_name(),
            Symbol::NonTerminal(n) => n.spec_name(),
            Symbol::Epsilon => "ε"@,
        }
    }

    pub fn name(&self) -> (s: &'static str)
        ensures
            s@ == self.spec_name(),
    {
        match self {
            Symbol::Terminal(t) => t.name(),
            Symbol::NonTerminal(n) => n.name(),
            Symbol::Epsilon => "ε",
        }
    }
}

impl From<Terminal> for Symbol {
    fn from(value: Terminal) -> (s: Symbol) {
        Symbol::Terminal(value)
    }
}

impl vstd::std_specs::convert::FromSpecImpl<Terminal> for Symbol {
    open spec fn obeys_from_spec() -> bool {
        true
    }

    open spec fn from_spec(value: Terminal) -> Symbol {
        Symbol::Terminal(value)
    }
}

impl From<NonTerminal> for Symbol {
    fn from(value: NonTerminal) -> (s: Symbol) {
        Symbol::NonTerminal(value)
    }
}

impl vstd::std_specs::convert::FromSpecImpl<NonTerminal> for Symbol {
    open spec fn obeys_from_spec() -> bool {
        true
    }

    open spec fn from_spec(value: NonTerminal) -> Symbol {
        Symbol::NonTerminal(value)
    }
}

} // verus!
