use vstd::prelude::*;
use vstd::string::StringExecFns;
use crate::grammar::{Grammar, production_text};
use crate::lexer::{Token, TokenView, format_tokens_verbose, token_text, tokens_from, tokens_text, tokens_view};
use crate::lr_table::{Action, LRTable, action_text};
use crate::symbol::{NonTerminal, Symbol, Terminal};
use crate::syntax_tree::{NodeView, SyntaxTree, children_leaves, forest_leaves, leaves, lemma_children_leaves_forest, lemma_forest_leaves_append, lemma_forest_leaves_push, lemma_terminal_label_not_epsilon, lemma_well_ordered_printable, printable, printable_tree, printable_within_usize, terminal_label, well_ordered};
use crate::text::{decimal, decimal_string, join, join_strings, pad_left, pad_right, push_decimal, push_pad_left, push_pad_right, push_repeat, repeat, string_views};

verus! {

/// Whether a failure lies in the input (a syntax error) or in the table or
/// grammar driving the analysis (an internal error).
#[derive(Debug, Clone, Copy, PartialEq, Eq, Structural)]
pub enum ParseErrorKind {
    Syntax,
    Internal,
}

/// One step of the analysis: the stacks after it, the input left, and the
/// action taken.
#[derive(Debug)]
pub struct ParseStep {
    pub step_number: usize,
    pub state_stack: Vec<usize>,
    pub symbol_stack: Vec<Symbol>,
    pub rest_input: Vec<Token>,
    pub action: Action,
}

/// The steps of a successful analysis and the syntax tree it built.
#[derive(Debug)]
pub struct ParseOutput {
    pub steps: Vec<ParseStep>,
    pub tree: SyntaxTree,
}

/// A failed analysis: the kind of failure, the state and token where it
/// happened, the action being carried out, and a message.
#[derive(Debug)]
pub struct ParseError {
    pub kind: ParseErrorKind,
    pub state_id: usize,
    pub current_token: Token,
    pub action: Option<Action>,
    pub message: String,
}

/// A step as mathematical values.
pub struct StepView {
    pub number: usize,
    pub states: Seq<usize>,
    pub symbols: Seq<Symbol>,
    pub rest: Seq<TokenView>,
    pub action: Action,
}

/// An error as mathematical values.
pub struct ErrorView {
    pub kind: ParseErrorKind,
    pub state_id: usize,
    pub token: TokenView,
    pub action: Option<Action>,
    pub message: Seq<char>,
}

/// The configuration of the LR machine: state, symbol and node stacks, the
/// position in the input, the tree built so far, and the steps taken.
#[verifier::ext_equal]
pub struct ParserConfig {
    pub states: Seq<usize>,
    pub symbols: Seq<Symbol>,
    pub nodes: Seq<usize>,
    pub index: int,
    pub tree: Seq<NodeView>,
    pub steps: Seq<StepView>,
}

/// What one more step of the machine leads to.
pub enum Outcome {
    Running(ParserConfig),
    Accepted(ParserConfig, usize),
    Failed(ErrorView),
}

pub open spec fn step_view(s: ParseStep) -> StepView {
    StepView {
        number: s.step_number,
        states: s.state_stack@,
        symbols: s.symbol_stack@,
        rest: tokens_view(s.rest_input@),
        action: s.action,
    }
}

pub open spec fn steps_view(s: Seq<ParseStep>) -> Seq<StepView> {
    s.map_values(|x: ParseStep| step_view(x))
}

pub open spec fn error_view(e: ParseError) -> ErrorView {
    ErrorView { kind: e.kind, state_id: e.state_id, token: e.current_token@, action: e.action, message: e.message@ }
}

/// The end-of-input token made up when the input has none.
pub open spec fn synthetic_end(offset: usize) -> TokenView {
    TokenView { kind: Terminal::End, lexeme: "#"@, offset }
}

/// The token reported when the input runs out: the last token.
pub open spec fn fallback_token(toks: Seq<TokenView>) -> TokenView {
    if toks.len() > 0 {
        toks.last()
    } else {
        synthetic_end(0)
    }
}

pub open spec fn fail(kind: ParseErrorKind, state_id: usize, token: TokenView, action: Option<Action>, message: Seq<char>) -> Outcome {
    Outcome::Failed(ErrorView { kind, state_id, token, action, message })
}

/// The initial configuration: state 0 on the stack, nothing else.
pub open spec fn initial_config() -> ParserConfig {
    ParserConfig {
        states: seq![0usize],
        symbols: Seq::empty(),
        nodes: Seq::empty(),
        index: 0,
        tree: Seq::empty(),
        steps: Seq::empty(),
    }
}

/// The step record appended after an action.
pub open spec fn step_record(toks: Seq<TokenView>, c: ParserConfig, states: Seq<usize>, symbols: Seq<Symbol>, index: int, action: Action) -> StepView {
    StepView { number: c.steps.len() as usize, states, symbols, rest: toks.subrange(index, toks.len() as int), action }
}

/// Shift: push the target state, the terminal and a leaf; consume the token.
pub open spec fn shift_config(toks: Seq<TokenView>, c: ParserConfig, target: usize) -> ParserConfig {
    let token = toks[c.index];
    let states = c.states.push(target);
    let symbols = c.symbols.push(Symbol::Terminal(token.kind));
    ParserConfig {
        states,
        symbols,
        nodes: c.nodes.push(c.tree.len() as usize),
        index: c.index + 1,
        tree: c.tree.push((terminal_label(token.kind, token.lexeme), Seq::empty())),
        steps: c.steps.push(step_record(toks, c, states, symbols, c.index + 1, Action::Shift(target))),
    }
}

/// The tree after a reduction by `lhs` with `r` right-hand-side symbols: an
/// epsilon leaf under the new node for an empty right-hand side, else the top
/// `r` nodes as its children.
pub open spec fn reduced_tree(c: ParserConfig, lhs: NonTerminal, r: int) -> Seq<NodeView> {
    if r == 0 {
        c.tree.push(("ε"@, Seq::empty())).push((lhs.spec_name(), seq![c.tree.len() as usize]))
    } else {
        c.tree.push((lhs.spec_name(), c.nodes.subrange(c.nodes.len() - r, c.nodes.len() as int)))
    }
}

/// Reduce by production `p`: pop as many entries as its right-hand side is
/// long (failing on the first stack that runs out, state before symbol before
/// node), check that the popped symbols spell the right-hand side, push the
/// left-hand side with a new node, and push the GOTO target of the exposed state.
pub open spec fn reduce_outcome(g: &Grammar, table: &LRTable, toks: Seq<TokenView>, c: ParserConfig, p: usize) -> Outcome {
    let state_id = c.states.last();
    let token = toks[c.index];
    let action = Action::Reduce(p);
    if p >= g.num_prods() {
        fail(ParseErrorKind::Internal, state_id, token, Some(action), "invalid production id "@ + decimal(p as nat))
    } else {
        let lhs = g.lhs_of(p as int);
        let rhs = g.rhs_of(p as int);
        let r = rhs.len() as int;
        let ls = c.states.len() as int;
        let ly = c.symbols.len() as int;
        let ln = c.nodes.len() as int;
        if ls < r && ls <= ly && ls <= ln {
            fail(ParseErrorKind::Internal, state_id, token, Some(action), "state stack underflow during reduce"@)
        } else if ly < r && ly <= ln {
            fail(ParseErrorKind::Internal, state_id, token, Some(action), "symbol stack underflow during reduce"@)
        } else if ln < r {
            fail(ParseErrorKind::Internal, state_id, token, Some(action), "node stack underflow during reduce"@)
        } else if c.symbols.subrange(ly - r, ly) != rhs {
            fail(
                ParseErrorKind::Internal,
                state_id,
                token,
                Some(action),
                "reduced symbols do not match production "@ + production_text(lhs, rhs),
            )
        } else {
            let kept = c.states.take(ls - r);
            if kept.len() == 0 {
                fail(ParseErrorKind::Internal, state_id, token, Some(action), "state stack is empty after reduce"@)
            } else if !table.goto@.dom().contains((kept.last(), lhs)) {
                fail(
                    ParseErrorKind::Internal,
                    state_id,
                    token,
                    Some(action),
                    "missing GOTO["@ + decimal(kept.last() as nat) + ", "@ + lhs.spec_name() + "]"@,
                )
            } else {
                let tree = reduced_tree(c, lhs, r);
                let states = kept.push(table.goto@[(kept.last(), lhs)]);
                let symbols = c.symbols.take(ly - r).push(Symbol::NonTerminal(lhs));
                Outcome::Running(
                    ParserConfig {
                        states,
                        symbols,
                        nodes: c.nodes.take(ln - r).push((tree.len() - 1) as usize),
                        index: c.index,
                        tree,
                        steps: c.steps.push(step_record(toks, c, states, symbols, c.index, action)),
                    },
                )
            }
        }
    }
}

/// Accept: finish when exactly one node is left, which becomes the root.
pub open spec fn accept_outcome(toks: Seq<TokenView>, c: ParserConfig) -> Outcome {
    if c.nodes.len() != 1 {
        fail(
            ParseErrorKind::Internal,
            c.states.last(),
            toks[c.index],
            Some(Action::Accept),
            "node stack should contain exactly one root at accept, found "@ + decimal(c.nodes.len()),
        )
    } else {
        Outcome::Accepted(
            ParserConfig { steps: c.steps.push(step_record(toks, c, c.states, c.symbols, c.index, Action::Accept)), ..c },
            c.nodes.last(),
        )
    }
}

/// One step of the LR machine: look up ACTION for the state on top of the
/// stack and the current token, and carry it out.
pub open spec fn parse_step(g: &Grammar, table: &LRTable, toks: Seq<TokenView>, c: ParserConfig) -> Outcome {
    if c.states.len() == 0 {
        fail(ParseErrorKind::Internal, 0, fallback_token(toks), None, "parser stopped before accept"@)
    } else if c.index < 0 || c.index >= toks.len() {
        fail(ParseErrorKind::Syntax, c.states.last(), fallback_token(toks), None, "input exhausted before accept"@)
    } else {
        let state_id = c.states.last();
        let kind = toks[c.index].kind;
        if !table.action@.dom().contains((state_id, kind)) {
            fail(
                ParseErrorKind::Syntax,
                state_id,
                toks[c.index],
                None,
                "missing ACTION["@ + decimal(state_id as nat) + ", "@ + kind.spec_name() + "]"@,
            )
        } else {
            match table.action@[(state_id, kind)] {
                Action::Shift(target) => Outcome::Running(shift_config(toks, c, target)),
                Action::Reduce(p) => reduce_outcome(g, table, toks, c, p),
                Action::Accept => accept_outcome(toks, c),
            }
        }
    }
}

/// The machine after `n` steps from the initial configuration (it stays put
/// once it has accepted or failed).
pub open spec fn run(g: &Grammar, table: &LRTable, toks: Seq<TokenView>, n: nat) -> Outcome
    decreases n,
{
    if n == 0 {
        Outcome::Running(initial_config())
    } else {
        match run(g, table, toks, (n - 1) as nat) {
            Outcome::Running(c) => parse_step(g, table, toks, c),
            other => other,
        }
    }
}

/// The machine accepts or fails within `n` steps.
pub open spec fn halts_within(g: &Grammar, table: &LRTable, toks: Seq<TokenView>, n: nat) -> bool {
    !(run(g, table, toks, n) is Running)
}

/// The analysis of a non-empty input ends within a number of steps that a
/// `usize` can count.
pub open spec fn parse_halts(g: &Grammar, table: &LRTable, toks: Seq<TokenView>) -> bool {
    toks.len() > 0 ==> exists|n: nat| n < usize::MAX && #[trigger] halts_within(g, table, toks, n)
}

/// A number of steps within which the machine stops, when there is one.
pub open spec fn halting_steps(g: &Grammar, table: &LRTable, toks: Seq<TokenView>) -> nat {
    choose|n: nat| n < usize::MAX && #[trigger] halts_within(g, table, toks, n)
}

/// How the analysis ends: an empty input fails at once; otherwise the
/// machine runs until it accepts or fails.
pub open spec fn parse_outcome(g: &Grammar, table: &LRTable, toks: Seq<TokenView>) -> Outcome {
    if toks.len() == 0 {
        fail(ParseErrorKind::Syntax, 0, synthetic_end(0), None, "empty token stream; expected at least end marker"@)
    } else {
        run(g, table, toks, halting_steps(g, table, toks))
    }
}

/// Once the machine has stopped, further steps change nothing.
pub proof fn lemma_run_stays(g: &Grammar, table: &LRTable, toks: Seq<TokenView>, n: nat, m: nat)
    requires
        halts_within(g, table, toks, n),
        n <= m,
    ensures
        run(g, table, toks, m) == run(g, table, toks, n),
    decreases m - n,
{
    if m > n {
        lemma_run_stays(g, table, toks, n, (m - 1) as nat);
    }
}

/// The machine is still running after `k` steps only if it stops later.
pub proof fn lemma_running_before_halt(g: &Grammar, table: &LRTable, toks: Seq<TokenView>, n: nat, k: nat)
    requires
        halts_within(g, table, toks, n),
        run(g, table, toks, k) is Running,
    ensures
        k < n,
{
    if k >= n {
        lemma_run_stays(g, table, toks, n, k);
    }
}

/// The shape the machine keeps: one more state than nodes, as many symbols as
/// nodes, every node on the stack is in the tree, the tree is well ordered, and
/// the position lies within the input.
pub open spec fn config_ok(toks: Seq<TokenView>, c: ParserConfig) -> bool {
    &&& c.states.len() == c.nodes.len() + 1
    &&& c.symbols.len() == c.nodes.len()
    &&& forall|k: int| 0 <= k < c.nodes.len() ==> #[trigger] c.nodes[k] < c.tree.len()
    &&& well_ordered(c.tree)
    &&& 0 <= c.index <= toks.len()
    &&& c.states[0] == 0
}

/// One step keeps the shape of the machine, and an accepted root is a node of
/// the tree.
pub proof fn lemma_step_keeps_shape(g: &Grammar, table: &LRTable, toks: Seq<TokenView>, c: ParserConfig)
    requires
        config_ok(toks, c),
    ensures
        parse_step(g, table, toks, c) matches Outcome::Running(c2) ==> config_ok(toks, c2) && c.tree.len() <= c2.tree.len(),
        parse_step(g, table, toks, c) matches Outcome::Accepted(c2, root) ==> config_ok(toks, c2) && root < c2.tree.len()
            && c2.tree == c.tree,
{
    if c.states.len() > 0 && 0 <= c.index < toks.len() {
        let state_id = c.states.last();
        let kind = toks[c.index].kind;
        if table.action@.dom().contains((state_id, kind)) {
            match table.action@[(state_id, kind)] {
                Action::Shift(target) => {
                    let c2 = shift_config(toks, c, target);
                    assert forall|k: int| 0 <= k < c2.nodes.len() implies #[trigger] c2.nodes[k] < c2.tree.len() by {
                        if k < c.nodes.len() {
                            assert(c2.nodes[k] == c.nodes[k]);
                        }
                    }
                    assert forall|i: int, k: int| 0 <= i < c2.tree.len() && 0 <= k < c2.tree[i].1.len() implies 0
                        <= #[trigger] c2.tree[i].1[k] < i by {
                        assert(i < c.tree.len());
                        assert(c2.tree[i] == c.tree[i]);
                    }
                },
                Action::Reduce(p) => {
                    if let Outcome::Running(c2) = reduce_outcome(g, table, toks, c, p) {
                        let r = g.rhs_of(p as int).len() as int;
                        let ln = c.nodes.len() as int;
                        let len = c.tree.len() as int;
                        assert(r <= ln);
                        assert(c2.states[0] == c.states.take(c.states.len() - r)[0]);
                        assert forall|k: int| 0 <= k < c2.nodes.len() implies #[trigger] c2.nodes[k] < c2.tree.len() by {
                            if k < ln - r {
                                assert(c2.nodes[k] == c.nodes[k]);
                            }
                        }
                        assert forall|i: int, k: int| 0 <= i < c2.tree.len() && 0 <= k < c2.tree[i].1.len() implies 0
                            <= #[trigger] c2.tree[i].1[k] < i by {
                            if i < len {
                                assert(c2.tree[i] == c.tree[i]);
                            } else if r > 0 {
                                assert(c2.tree[i].1[k] == c.nodes[ln - r + k]);
                            }
                        }
                    }
                },
                Action::Accept => {},
            }
        }
    }
}

/// Every configuration the machine reaches has the shape that
/// `config_ok` describes, and an accepted root is a node of the tree.
pub proof fn lemma_run_keeps_shape(g: &Grammar, table: &LRTable, toks: Seq<TokenView>, n: nat)
    ensures
        run(g, table, toks, n) matches Outcome::Running(c) ==> config_ok(toks, c),
        run(g, table, toks, n) matches Outcome::Accepted(c, root) ==> config_ok(toks, c) && root < c.tree.len(),
    decreases n,
{
    if n == 0 {
        assert(initial_config().states =~= seq![0usize]);
    } else {
        lemma_run_keeps_shape(g, table, toks, (n - 1) as nat);
        if let Outcome::Running(c) = run(g, table, toks, (n - 1) as nat) {
            lemma_step_keeps_shape(g, table, toks, c);
        }
    }
}

/// How many of the steps are shifts.
pub open spec fn shift_count(steps: Seq<StepView>) -> int
    decreases steps.len(),
{
    if steps.len() == 0 {
        0
    } else {
        shift_count(steps.drop_last()) + if steps.last().action is Shift {
            1int
        } else {
            0int
        }
    }
}

/// Step `k` is numbered `k`, and the stacks it records start with state 0 and
/// hold one more state than symbols.
pub open spec fn step_well_recorded(steps: Seq<StepView>, k: int) -> bool {
    &&& steps[k].number == k as usize
    &&& steps[k].states.len() == steps[k].symbols.len() + 1
    &&& steps[k].states[0] == 0
}

/// The steps so far are well recorded, none accepts, and the position in
/// the input is the number of shifts.
pub open spec fn steps_ok(c: ParserConfig) -> bool {
    &&& c.index == shift_count(c.steps)
    &&& forall|k: int| 0 <= k < c.steps.len() ==> #[trigger] step_well_recorded(c.steps, k)
    &&& forall|k: int| 0 <= k < c.steps.len() ==> (#[trigger] c.steps[k]).action != Action::Accept
}

/// The steps of an accepted analysis: all well recorded, only the last one
/// accepts, the tokens read are as many as the shifts, and the last step
/// leaves the input from that point on.
pub open spec fn accepted_steps_ok(toks: Seq<TokenView>, c: ParserConfig) -> bool {
    &&& c.steps.len() > 0
    &&& c.index == shift_count(c.steps)
    &&& forall|k: int| 0 <= k < c.steps.len() ==> #[trigger] step_well_recorded(c.steps, k)
    &&& forall|k: int| 0 <= k < c.steps.len() - 1 ==> (#[trigger] c.steps[k]).action != Action::Accept
    &&& c.steps.last().action == Action::Accept
    &&& c.steps.last().rest == toks.subrange(c.index, toks.len() as int)
}

/// One step keeps the record of the steps in order.
pub proof fn lemma_step_keeps_steps(g: &Grammar, table: &LRTable, toks: Seq<TokenView>, c: ParserConfig)
    requires
        config_ok(toks, c),
        steps_ok(c),
    ensures
        parse_step(g, table, toks, c) matches Outcome::Running(c2) ==> steps_ok(c2),
        parse_step(g, table, toks, c) matches Outcome::Accepted(c2, root) ==> accepted_steps_ok(toks, c2),
{
    lemma_step_keeps_shape(g, table, toks, c);
    let n = c.steps.len() as int;
    match parse_step(g, table, toks, c) {
        Outcome::Running(c2) => {
            assert(c2.steps.len() == n + 1);
            assert(c2.steps.drop_last() =~= c.steps);
            assert forall|k: int| 0 <= k < c2.steps.len() implies #[trigger] step_well_recorded(c2.steps, k) by {
                if k < n {
                    assert(c2.steps[k] == c.steps[k]);
                    assert(step_well_recorded(c.steps, k));
                }
            }
            assert forall|k: int| 0 <= k < c2.steps.len() implies (#[trigger] c2.steps[k]).action != Action::Accept by {
                if k < n {
                    assert(c2.steps[k] == c.steps[k]);
                }
            }
        },
        Outcome::Accepted(c2, root) => {
            assert(c2.steps.len() == n + 1);
            assert(c2.steps.drop_last() =~= c.steps);
            assert forall|k: int| 0 <= k < c2.steps.len() implies #[trigger] step_well_recorded(c2.steps, k) by {
                if k < n {
                    assert(c2.steps[k] == c.steps[k]);
                    assert(step_well_recorded(c.steps, k));
                }
            }
            assert forall|k: int| 0 <= k < c2.steps.len() - 1 implies (#[trigger] c2.steps[k]).action != Action::Accept by {
                assert(c2.steps[k] == c.steps[k]);
            }
        },
        Outcome::Failed(_) => {},
    }
}

/// Every configuration the machine reaches has its steps recorded in order,
/// and an accepted analysis has the record `accepted_steps_ok` describes.
pub proof fn lemma_run_keeps_steps(g: &Grammar, table: &LRTable, toks: Seq<TokenView>, n: nat)
    ensures
        run(g, table, toks, n) matches Outcome::Running(c) ==> steps_ok(c),
        run(g, table, toks, n) matches Outcome::Accepted(c, root) ==> accepted_steps_ok(toks, c),
    decreases n,
{
    if n > 0 {
        lemma_run_keeps_steps(g, table, toks, (n - 1) as nat);
        lemma_run_keeps_shape(g, table, toks, (n - 1) as nat);
        if let Outcome::Running(c) = run(g, table, toks, (n - 1) as nat) {
            lemma_step_keeps_steps(g, table, toks, c);
        }
    }
}

/// A node label fits a grammar symbol: the name of a non-terminal, or the
/// label of a leaf for a terminal.
pub open spec fn label_fits(label: Seq<char>, x: Symbol) -> bool {
    match x {
        Symbol::Terminal(t) => exists|lexeme: Seq<char>| label == #[trigger] terminal_label(t, lexeme),
        Symbol::NonTerminal(a) => label == a.spec_name(),
        Symbol::Epsilon => false,
    }
}

/// Node `i` of `t` is an instance of production `p`: it is labelled by the
/// left-hand side, and its children fit the right-hand side symbol by symbol,
/// or are a single epsilon leaf when the right-hand side is empty.
pub open spec fn node_by_production(g: &Grammar, t: Seq<NodeView>, i: int, p: int) -> bool {
    let rhs = g.rhs_of(p);
    let cs = t[i].1;
    &&& 0 <= p < g.num_prods()
    &&& t[i].0 == g.lhs_of(p).spec_name()
    &&& if rhs.len() == 0 {
        cs.len() == 1 && t[cs[0] as int] == ("ε"@, Seq::<usize>::empty())
    } else {
        cs.len() == rhs.len() && forall|j: int| 0 <= j < cs.len() ==> label_fits(t[#[trigger] cs[j] as int].0, rhs[j])
    }
}

/// Every inner node of the tree is an instance of a production of the grammar.
pub open spec fn tree_follows_grammar(g: &Grammar, t: Seq<NodeView>) -> bool {
    forall|i: int| 0 <= i < t.len() && (#[trigger] t[i]).1.len() > 0 ==> exists|p: int| node_by_production(g, t, i, p)
}

/// The tree of a configuration follows the grammar, and each node on the
/// stack fits the symbol beside it.
pub open spec fn tree_ok(g: &Grammar, c: ParserConfig) -> bool {
    &&& tree_follows_grammar(g, c.tree)
    &&& forall|k: int| 0 <= k < c.nodes.len() && k < c.symbols.len() ==> label_fits(c.tree[#[trigger] c.nodes[k] as int].0, c.symbols[k])
}

proof fn lemma_push_keeps_productions(g: &Grammar, t: Seq<NodeView>, n: NodeView)
    requires
        well_ordered(t),
        tree_follows_grammar(g, t),
    ensures
        forall|i: int| 0 <= i < t.len() && (#[trigger] t.push(n)[i]).1.len() > 0 ==> exists|p: int| node_by_production(g, t.push(n), i, p),
{
    let t2 = t.push(n);
    assert forall|i: int| 0 <= i < t.len() && (#[trigger] t2[i]).1.len() > 0 implies exists|p: int| node_by_production(g, t2, i, p) by {
        assert(t2[i] == t[i]);
        let p = choose|p: int| node_by_production(g, t, i, p);
        let cs = t[i].1;
        assert forall|j: int| 0 <= j < cs.len() implies t2[#[trigger] cs[j] as int] == t[cs[j] as int] by {
            assert(0 <= t[i].1[j] < i);
        }
        assert(node_by_production(g, t2, i, p));
    }
}

/// One step keeps the tree following the grammar and the stack nodes fitting
/// their symbols; an accepted root fits the top symbol.
pub proof fn lemma_step_keeps_tree(g: &Grammar, table: &LRTable, toks: Seq<TokenView>, c: ParserConfig)
    requires
        config_ok(toks, c),
        tree_ok(g, c),
    ensures
        parse_step(g, table, toks, c) matches Outcome::Running(c2) ==> c.tree.len() <= c2.tree.len() && (c2.tree.len()
            <= usize::MAX ==> tree_ok(g, c2)),
        parse_step(g, table, toks, c) matches Outcome::Accepted(c2, root) ==> tree_ok(g, c2) && label_fits(
            c2.tree[root as int].0,
            c2.symbols.last(),
        ),
{
    if c.states.len() > 0 && 0 <= c.index < toks.len() {
        let state_id = c.states.last();
        let kind = toks[c.index].kind;
        if table.action@.dom().contains((state_id, kind)) {
            match table.action@[(state_id, kind)] {
                Action::Shift(target) => {
                    let c2 = shift_config(toks, c, target);
                    if c2.tree.len() > usize::MAX {
                        return;
                    }
                    let leaf: NodeView = (terminal_label(kind, toks[c.index].lexeme), Seq::empty());
                    lemma_push_keeps_productions(g, c.tree, leaf);
                    assert(c2.tree == c.tree.push(leaf));
                    assert forall|k: int| 0 <= k < c2.nodes.len() && k < c2.symbols.len() implies label_fits(
                        c2.tree[#[trigger] c2.nodes[k] as int].0,
                        c2.symbols[k],
                    ) by {
                        if k < c.nodes.len() {
                            assert(c2.nodes[k] == c.nodes[k]);
                            assert(c2.symbols[k] == c.symbols[k]);
                            assert(c2.tree[c.nodes[k] as int] == c.tree[c.nodes[k] as int]);
                        } else {
                            assert(c2.tree[c2.nodes[k] as int] == leaf);
                            assert(leaf.0 == terminal_label(kind, toks[c.index].lexeme));
                        }
                    }
                },
                Action::Reduce(p) => {
                    if let Outcome::Running(c2) = reduce_outcome(g, table, toks, c, p) {
                        let lhs = g.lhs_of(p as int);
                        let rhs = g.rhs_of(p as int);
                        let r = rhs.len() as int;
                        let ln = c.nodes.len() as int;
                        let len = c.tree.len() as int;
                        if c2.tree.len() > usize::MAX {
                            return;
                        }
                        assert(c.symbols.subrange(ln - r, ln) == rhs);
                        if r == 0 {
                            let eps: NodeView = ("ε"@, Seq::empty());
                            let t1 = c.tree.push(eps);
                            let node: NodeView = (lhs.spec_name(), seq![len as usize]);
                            lemma_push_keeps_productions(g, c.tree, eps);
                            assert(well_ordered(t1)) by {
                                assert forall|i: int, k: int| 0 <= i < t1.len() && 0 <= k < t1[i].1.len() implies 0 <= #[trigger] t1[i].1[k] < i by {
                                    assert(t1[i] == c.tree[i]);
                                }
                            }
                            assert(tree_follows_grammar(g, t1));
                            lemma_push_keeps_productions(g, t1, node);
                            assert(c2.tree == t1.push(node));
                            assert(node_by_production(g, c2.tree, len + 1, p as int));
                        } else {
                            let node: NodeView = (lhs.spec_name(), c.nodes.subrange(ln - r, ln));
                            lemma_push_keeps_productions(g, c.tree, node);
                            assert(c2.tree == c.tree.push(node));
                            assert forall|j: int| 0 <= j < r implies label_fits(c2.tree[#[trigger] node.1[j] as int].0, rhs[j]) by {
                                assert(node.1[j] == c.nodes[ln - r + j]);
                                assert(c.symbols[ln - r + j] == rhs[j]);
                                assert(c2.tree[c.nodes[ln - r + j] as int] == c.tree[c.nodes[ln - r + j] as int]);
                            }
                            assert(node_by_production(g, c2.tree, len, p as int));
                        }
                        assert forall|k: int| 0 <= k < c2.nodes.len() && k < c2.symbols.len() implies label_fits(
                            c2.tree[#[trigger] c2.nodes[k] as int].0,
                            c2.symbols[k],
                        ) by {
                            if k < ln - r {
                                assert(c2.nodes[k] == c.nodes[k]);
                                assert(c2.symbols[k] == c.symbols[k]);
                                assert(c2.tree[c.nodes[k] as int] == c.tree[c.nodes[k] as int]);
                            }
                        }
                    }
                },
                Action::Accept => {
                    if c.nodes.len() == 1 {
                        assert(c.nodes[0] == c.nodes.last());
                    }
                },
            }
        }
    }
}

/// Every tree the machine builds (with no more nodes than a `usize` counts)
/// follows the grammar, and an accepted root fits the symbol on top of the
/// stack.
pub proof fn lemma_run_keeps_tree(g: &Grammar, table: &LRTable, toks: Seq<TokenView>, n: nat)
    ensures
        run(g, table, toks, n) matches Outcome::Running(c) ==> (c.tree.len() <= usize::MAX ==> tree_ok(g, c)),
        run(g, table, toks, n) matches Outcome::Accepted(c, root) ==> (c.tree.len() <= usize::MAX ==> tree_ok(g, c)
            && label_fits(c.tree[root as int].0, c.symbols.last())),
    decreases n,
{
    if n > 0 {
        lemma_run_keeps_tree(g, table, toks, (n - 1) as nat);
        lemma_run_keeps_shape(g, table, toks, (n - 1) as nat);
        if let Outcome::Running(c) = run(g, table, toks, (n - 1) as nat) {
            lemma_step_keeps_shape(g, table, toks, c);
            if c.tree.len() <= usize::MAX {
                lemma_step_keeps_tree(g, table, toks, c);
            }
        }
    }
}

/// The leaf texts of the first `n` tokens.
pub open spec fn read_labels(toks: Seq<TokenView>, n: int) -> Seq<Seq<char>> {
    toks.take(n).map_values(|tk: TokenView| terminal_label(tk.kind, tk.lexeme))
}

/// The leaves below the stack nodes, left to right, spell the tokens read so
/// far.
pub open spec fn yield_ok(toks: Seq<TokenView>, c: ParserConfig) -> bool {
    forest_leaves(c.tree, c.nodes) == read_labels(toks, c.index)
}

/// One step keeps the leaves below the stack spelling the tokens read; when
/// the machine accepts, the leaves of the root are the tokens read.
pub proof fn lemma_step_keeps_yield(g: &Grammar, table: &LRTable, toks: Seq<TokenView>, c: ParserConfig)
    requires
        config_ok(toks, c),
        yield_ok(toks, c),
    ensures
        parse_step(g, table, toks, c) matches Outcome::Running(c2) ==> (c2.tree.len() <= usize::MAX ==> yield_ok(toks, c2)),
        parse_step(g, table, toks, c) matches Outcome::Accepted(c2, root) ==> leaves(c2.tree, root as int) == read_labels(
            toks,
            c2.index,
        ),
{
    if c.states.len() > 0 && 0 <= c.index < toks.len() {
        let state_id = c.states.last();
        let kind = toks[c.index].kind;
        let t = c.tree;
        let len = t.len() as int;
        if table.action@.dom().contains((state_id, kind)) {
            match table.action@[(state_id, kind)] {
                Action::Shift(target) => {
                    let c2 = shift_config(toks, c, target);
                    if c2.tree.len() > usize::MAX {
                        return;
                    }
                    let label = terminal_label(kind, toks[c.index].lexeme);
                    let leaf: NodeView = (label, Seq::empty());
                    assert(c2.tree == t.push(leaf));
                    assert(c2.nodes == c.nodes.push(len as usize));
                    lemma_forest_leaves_push(t, leaf, c.nodes);
                    lemma_terminal_label_not_epsilon(kind, toks[c.index].lexeme);
                    assert(leaves(c2.tree, len) == seq![label]);
                    assert(c2.nodes.drop_last() == c.nodes);
                    assert(read_labels(toks, c.index + 1) =~= read_labels(toks, c.index).push(label));
                    assert(c2.nodes.last() as int == len);
                    assert(forest_leaves(c2.tree, c2.nodes) == forest_leaves(c2.tree, c.nodes) + leaves(c2.tree, len));
                    assert(forest_leaves(c2.tree, c2.nodes) =~= read_labels(toks, c2.index));
                },
                Action::Reduce(p) => {
                    if let Outcome::Running(c2) = reduce_outcome(g, table, toks, c, p) {
                        if c2.tree.len() > usize::MAX {
                            return;
                        }
                        let lhs = g.lhs_of(p as int);
                        let r = g.rhs_of(p as int).len() as int;
                        let ln = c.nodes.len() as int;
                        let kept = c.nodes.take(ln - r);
                        let top = c.nodes.subrange(ln - r, ln);
                        assert(c.nodes == kept + top);
                        lemma_forest_leaves_append(t, kept, top);
                        assert forall|k: int| 0 <= k < kept.len() implies #[trigger] kept[k] < t.len() by {
                            assert(kept[k] == c.nodes[k]);
                        }
                        if r == 0 {
                            let eps: NodeView = ("ε"@, Seq::empty());
                            let t1 = t.push(eps);
                            let node: NodeView = (lhs.spec_name(), seq![len as usize]);
                            assert(c2.tree == t1.push(node));
                            assert(well_ordered(t1)) by {
                                assert forall|i: int, k: int| 0 <= i < t1.len() && 0 <= k < t1[i].1.len() implies 0 <= #[trigger] t1[i].1[k] < i by {
                                    assert(t1[i] == t[i]);
                                }
                            }
                            lemma_forest_leaves_push(t, eps, kept);
                            assert forall|k: int| 0 <= k < kept.len() implies #[trigger] kept[k] < t1.len() by {}
                            lemma_forest_leaves_push(t1, node, kept);
                            assert(leaves(c2.tree, len) == Seq::<Seq<char>>::empty()) by {
                                assert(c2.tree[len] == eps);
                            }
                            assert(leaves(c2.tree, len + 1) == Seq::<Seq<char>>::empty()) by {
                                let cs = seq![len as usize];
                                assert(c2.tree[len + 1] == node);
                                assert(cs.drop_last() =~= Seq::<usize>::empty());
                                assert(cs.last() == len);
                                assert(children_leaves(c2.tree, len + 1, cs.drop_last()) == Seq::<Seq<char>>::empty());
                                assert(children_leaves(c2.tree, len + 1, cs) =~= Seq::<Seq<char>>::empty());
                            }
                            assert(c2.nodes == kept.push((len + 1) as usize));
                            assert(c2.nodes.drop_last() == kept);
                            assert(top =~= Seq::<usize>::empty());
                            assert(forest_leaves(t, top) =~= Seq::<Seq<char>>::empty());
                            assert(yield_ok(toks, c2));
                        } else {
                            let node: NodeView = (lhs.spec_name(), top);
                            assert(c2.tree == t.push(node));
                            assert forall|k: int| 0 <= k < top.len() implies #[trigger] top[k] < t.len() by {
                                assert(top[k] == c.nodes[ln - r + k]);
                            }
                            lemma_forest_leaves_push(t, node, kept);
                            lemma_forest_leaves_push(t, node, top);
                            assert forall|k: int| 0 <= k < top.len() implies #[trigger] top[k] < len by {}
                            lemma_children_leaves_forest(c2.tree, len, top);
                            assert(c2.tree[len] == node);
                            assert(leaves(c2.tree, len) == forest_leaves(c2.tree, top));
                            assert(c2.nodes == kept.push(len as usize));
                            assert(c2.nodes.drop_last() == kept);
                            assert(yield_ok(toks, c2));
                        }
                    }
                },
                Action::Accept => {
                    if c.nodes.len() == 1 {
                        assert(c.nodes.drop_last() =~= Seq::<usize>::empty());
                        assert(forest_leaves(t, c.nodes.drop_last()) == Seq::<Seq<char>>::empty());
                        assert(forest_leaves(t, c.nodes) =~= leaves(t, c.nodes.last() as int));
                    }
                },
            }
        }
    }
}

/// Whenever the machine accepts (with no more nodes than a `usize` counts),
/// the leaves of the syntax tree, left to right, are the tokens it read.
pub proof fn lemma_run_keeps_yield(g: &Grammar, table: &LRTable, toks: Seq<TokenView>, n: nat)
    ensures
        run(g, table, toks, n) matches Outcome::Running(c) ==> (c.tree.len() <= usize::MAX ==> yield_ok(toks, c)),
        run(g, table, toks, n) matches Outcome::Accepted(c, root) ==> (c.tree.len() <= usize::MAX ==> leaves(
            c.tree,
            root as int,
        ) == read_labels(toks, c.index)),
    decreases n,
{
    if n == 0 {
        assert(read_labels(toks, 0) =~= Seq::<Seq<char>>::empty());
    } else {
        lemma_run_keeps_yield(g, table, toks, (n - 1) as nat);
        lemma_run_keeps_shape(g, table, toks, (n - 1) as nat);
        if let Outcome::Running(c) = run(g, table, toks, (n - 1) as nat) {
            lemma_step_keeps_shape(g, table, toks, c);
            if c.tree.len() <= usize::MAX {
                lemma_step_keeps_yield(g, table, toks, c);
            }
        }
    }
}

/// Copies `v[lo..hi]`.
fn copy_range<T: Copy>(v: &Vec<T>, lo: usize, hi: usize) -> (r: Vec<T>)
    requires
        lo <= hi <= v@.len(),
    ensures
        r@ == v@.subrange(lo as int, hi as int),
{
    let mut r: Vec<T> = Vec::new();
    let mut i: usize = lo;
    while i < hi
        invariant
            lo <= i <= hi <= v@.len(),
            r@ == v@.subrange(lo as int, i as int),
        decreases hi - i,
    {
        r.push(v[i]);
        i = i + 1;
        assert(r@ =~= v@.subrange(lo as int, i as int));
    }
    r
}

fn make_error(kind: ParseErrorKind, state_id: usize, token: &Token, action: Option<Action>, message: String) -> (e: ParseError)
    ensures
        error_view(e) == (ErrorView { kind, state_id, token: token@, action, message: message@ }),
{
    ParseError { kind, state_id, current_token: token.duplicate(), action, message }
}

fn end_token(offset: usize) -> (t: Token)
    ensures
        t@ == synthetic_end(offset),
{
    Token { kind: Terminal::End, lexeme: String::from_str("#"), offset }
}

fn last_token(tokens: &[Token]) -> (t: Token)
    ensures
        t@ == fallback_token(tokens_view(tokens@)),
{
    if tokens.len() > 0 {
        tokens[tokens.len() - 1].duplicate()
    } else {
        end_token(0)
    }
}

/// The running machine: its stacks, its position, the steps so far and the tree.
struct Machine {
    states: Vec<usize>,
    symbols: Vec<Symbol>,
    nodes: Vec<usize>,
    index: usize,
    steps: Vec<ParseStep>,
    tree: SyntaxTree,
}

/// What one step of the running machine led to.
enum Advance {
    Continue,
    Accept(usize),
    Fail(ParseError),
}

impl Machine {
    spec fn config(&self) -> ParserConfig {
        ParserConfig {
            states: self.states@,
            symbols: self.symbols@,
            nodes: self.nodes@,
            index: self.index as int,
            tree: self.tree.view_nodes(),
            steps: steps_view(self.steps@),
        }
    }

    /// Appends the record of a step taken with `action`.
    fn record(&mut self, tokens: &[Token], action: Action)
        requires
            old(self).index <= tokens@.len(),
        ensures
            final(self).config() == (ParserConfig {
                steps: old(self).config().steps.push(
                    step_record(tokens_view(tokens@), old(self).config(), old(self).states@, old(self).symbols@, old(self).index as int, action),
                ),
                ..old(self).config()
            }),
            final(self).steps@.len() == old(self).steps@.len() + 1,
    {
        let step = ParseStep {
            step_number: self.steps.len(),
            state_stack: copy_range(&self.states, 0, self.states.len()),
            symbol_stack: copy_range(&self.symbols, 0, self.symbols.len()),
            rest_input: tokens_from(tokens, self.index),
            action,
        };
        proof {
            assert(self.states@.subrange(0, self.states@.len() as int) =~= self.states@);
            assert(self.symbols@.subrange(0, self.symbols@.len() as int) =~= self.symbols@);
        }
        self.steps.push(step);
        assert(self.config() =~= (ParserConfig {
            steps: old(self).config().steps.push(
                step_record(tokens_view(tokens@), old(self).config(), old(self).states@, old(self).symbols@, old(self).index as int, action),
            ),
            ..old(self).config()
        }));
    }

    fn shift(&mut self, tokens: &[Token], target: usize)
        requires
            old(self).index < tokens@.len(),
        ensures
            final(self).config() == shift_config(tokens_view(tokens@), old(self).config(), target),
            final(self).steps@.len() == old(self).steps@.len() + 1,
    {
        let token = &tokens[self.index];
        let kind = token.kind;
        self.states.push(target);
        self.symbols.push(Symbol::Terminal(kind));
        let node_id = self.tree.add_terminal(kind, token.lexeme.as_str());
        self.nodes.push(node_id);
        self.index = self.index + 1;
        self.record(tokens, Action::Shift(target));
        assert(tokens_view(tokens@)[old(self).index as int] == tokens@[old(self).index as int]@);
        assert(self.config() =~= shift_config(tokens_view(tokens@), old(self).config(), target));
    }

    fn reduce(&mut self, grammar: &Grammar, table: &LRTable, tokens: &[Token], p: usize) -> (r: Option<ParseError>)
        requires
            old(self).index < tokens@.len(),
            old(self).states@.len() > 0,
        ensures
            match reduce_outcome(grammar, table, tokens_view(tokens@), old(self).config(), p) {
                Outcome::Running(c) => r is None && final(self).config() == c,
                Outcome::Failed(e) => r matches Some(err) && error_view(err) == e,
                Outcome::Accepted(_, _) => false,
            },
            r is None ==> final(self).steps@.len() == old(self).steps@.len() + 1,
    {
        let ghost c = self.config();
        let ghost toks = tokens_view(tokens@);
        let token = &tokens[self.index];
        assert(toks[c.index] == token@);
        let state_id = self.states[self.states.len() - 1];
        let action = Action::Reduce(p);
        let prod = match grammar.production(p) {
            Some(prod) => prod,
            None => {
                let mut msg = String::from_str("invalid production id ");
                push_decimal(&mut msg, p);
                return Some(make_error(ParseErrorKind::Internal, state_id, token, Some(action), msg));
            },
        };
        let ghost rhs = grammar.rhs_of(p as int);
        let lhs = prod.lhs;
        let r = prod.rhs.len();
        let ls = self.states.len();
        let ly = self.symbols.len();
        let ln = self.nodes.len();
        if ls < r && ls <= ly && ls <= ln {
            return Some(make_error(ParseErrorKind::Internal, state_id, token, Some(action), String::from_str("state stack underflow during reduce")));
        } else if ly < r && ly <= ln {
            return Some(make_error(ParseErrorKind::Internal, state_id, token, Some(action), String::from_str("symbol stack underflow during reduce")));
        } else if ln < r {
            return Some(make_error(ParseErrorKind::Internal, state_id, token, Some(action), String::from_str("node stack underflow during reduce")));
        }
        let mut k: usize = 0;
        let mut same = true;
        while k < r && same
            invariant
                r == rhs.len(),
                rhs == prod.rhs@,
                r <= ly == self.symbols@.len(),
                k <= r,
                same ==> forall|j: int| 0 <= j < k ==> self.symbols@[ly - r + j] == rhs[j],
                !same ==> self.symbols@.subrange(ly - r, ly as int) != rhs,
            decreases r - k + (if same { 1int } else { 0int }),
        {
            if self.symbols[ly - r + k] != prod.rhs[k] {
                assert(self.symbols@.subrange(ly - r, ly as int)[k as int] != rhs[k as int]);
                same = false;
            } else {
                k = k + 1;
            }
        }
        if !same {
            let mut msg = String::from_str("reduced symbols do not match production ");
            let text = prod.text();
            msg.append(text.as_str());
            return Some(make_error(ParseErrorKind::Internal, state_id, token, Some(action), msg));
        }
        assert(self.symbols@.subrange(ly - r, ly as int) =~= rhs);
        let parent = if r == 0 {
            let eps = self.tree.add_epsilon();
            let mut children: Vec<usize> = Vec::new();
            children.push(eps);
            self.tree.add_non_terminal(lhs, children)
        } else {
            let children = copy_range(&self.nodes, ln - r, ln);
            self.tree.add_non_terminal(lhs, children)
        };
        assert(self.tree.view_nodes() =~= reduced_tree(c, lhs, r as int));
        self.symbols.truncate(ly - r);
        self.symbols.push(Symbol::NonTerminal(lhs));
        self.nodes.truncate(ln - r);
        self.nodes.push(parent);
        self.states.truncate(ls - r);
        if self.states.len() == 0 {
            return Some(make_error(ParseErrorKind::Internal, state_id, token, Some(action), String::from_str("state stack is empty after reduce")));
        }
        let top = self.states[self.states.len() - 1];
        let target = match table.goto.get(&(top, lhs)) {
            Some(t) => t,
            None => {
                let mut msg = String::from_str("missing GOTO[");
                push_decimal(&mut msg, top);
                msg.append(", ");
                msg.append(lhs.name());
                msg.append("]");
                return Some(make_error(ParseErrorKind::Internal, state_id, token, Some(action), msg));
            },
        };
        self.states.push(target);
        self.record(tokens, action);
        assert(self.config() =~= match reduce_outcome(grammar, table, toks, c, p) {
            Outcome::Running(c2) => c2,
            _ => c,
        });
        None
    }

    /// Carries out the action for the current state and token.
    fn advance(&mut self, grammar: &Grammar, table: &LRTable, tokens: &[Token]) -> (r: Advance)
        ensures
            match parse_step(grammar, table, tokens_view(tokens@), old(self).config()) {
                Outcome::Running(c) => r is Continue && final(self).config() == c,
                Outcome::Accepted(c, root) => r == Advance::Accept(root) && final(self).config() == c,
                Outcome::Failed(e) => r matches Advance::Fail(err) && error_view(err) == e,
            },
            r is Continue ==> final(self).steps@.len() == old(self).steps@.len() + 1,
    {
        let ghost toks = tokens_view(tokens@);
        if self.states.len() == 0 {
            let token = last_token(tokens);
            return Advance::Fail(make_error(ParseErrorKind::Internal, 0, &token, None, String::from_str("parser stopped before accept")));
        }
        let state_id = self.states[self.states.len() - 1];
        if self.index >= tokens.len() {
            let token = last_token(tokens);
            return Advance::Fail(make_error(ParseErrorKind::Syntax, state_id, &token, None, String::from_str("input exhausted before accept")));
        }
        let token = &tokens[self.index];
        assert(toks[self.index as int] == token@);
        let kind = token.kind;
        match table.action.get(&(state_id, kind)) {
            None => {
                let mut msg = String::from_str("missing ACTION[");
                push_decimal(&mut msg, state_id);
                msg.append(", ");
                msg.append(kind.name());
                msg.append("]");
                Advance::Fail(make_error(ParseErrorKind::Syntax, state_id, token, None, msg))
            },
            Some(Action::Shift(target)) => {
                self.shift(tokens, target);
                Advance::Continue
            },
            Some(Action::Reduce(p)) => {
                match self.reduce(grammar, table, tokens, p) {
                    None => Advance::Continue,
                    Some(e) => Advance::Fail(e),
                }
            },
            Some(Action::Accept) => {
                if self.nodes.len() != 1 {
                    let mut msg = String::from_str("node stack should contain exactly one root at accept, found ");
                    push_decimal(&mut msg, self.nodes.len());
                    Advance::Fail(make_error(ParseErrorKind::Internal, state_id, token, Some(Action::Accept), msg))
                } else {
                    let root = self.nodes[0];
                    self.record(tokens, Action::Accept);
                    Advance::Accept(root)
                }
            },
        }
    }
}

/// What a successful analysis returns for the accepting configuration `c`
/// with root `root`: its recorded steps and its tree, in which every inner
/// node is an instance of a production, and whose leaves, left to right, are
/// the tokens read, as many as the shifts among the steps.
pub open spec fn output_fits(g: &Grammar, toks: Seq<TokenView>, out: ParseOutput, c: ParserConfig, root: usize) -> bool {
    &&& steps_view(out.steps@) == c.steps
    &&& out.tree.view_nodes() == c.tree
    &&& out.tree.root == Some(root)
    &&& accepted_steps_ok(toks, c)
    &&& leaves(c.tree, root as int) == read_labels(toks, c.index)
    &&& well_ordered(c.tree)
    &&& root < c.tree.len()
    &&& tree_follows_grammar(g, c.tree)
    &&& printable_tree(c.tree, Some(root))
}

/// How the analysis stands after at most `n` steps: an empty input fails at
/// once; otherwise the machine has run `n` steps or stopped before.
pub open spec fn bounded_outcome(g: &Grammar, table: &LRTable, toks: Seq<TokenView>, n: nat) -> Outcome {
    if toks.len() == 0 {
        fail(ParseErrorKind::Syntax, 0, synthetic_end(0), None, "empty token stream; expected at least end marker"@)
    } else {
        run(g, table, toks, n)
    }
}

/// Drives the analysis for at most `max_steps` steps; `None` when the machine
/// has neither accepted nor failed by then.
pub fn parse_lr_within(grammar: &Grammar, lr_table: &LRTable, tokens: &[Token], max_steps: usize) -> (r: Option<
    Result<ParseOutput, ParseError>,
>)
    ensures
        match bounded_outcome(grammar, lr_table, tokens_view(tokens@), max_steps as nat) {
            Outcome::Running(_) => r is None,
            Outcome::Accepted(c, root) => r matches Some(Ok(out)) && output_fits(grammar, tokens_view(tokens@), out, c, root),
            Outcome::Failed(e) => r matches Some(Err(err)) && error_view(err) == e,
        },
{
    let ghost toks = tokens_view(tokens@);
    if tokens.len() == 0 {
        let token = end_token(0);
        return Some(Err(make_error(ParseErrorKind::Syntax, 0, &token, None, String::from_str("empty token stream; expected at least end marker"))));
    }
    let mut states: Vec<usize> = Vec::new();
    states.push(0);
    let mut m = Machine {
        states,
        symbols: Vec::new(),
        nodes: Vec::new(),
        index: 0,
        steps: Vec::new(),
        tree: SyntaxTree::new(),
    };
    assert(m.config() =~= initial_config());
    while m.steps.len() < max_steps
        invariant
            toks == tokens_view(tokens@),
            toks.len() > 0,
            m.steps@.len() <= max_steps,
            run(grammar, lr_table, toks, m.steps@.len() as nat) == Outcome::Running(m.config()),
        decreases max_steps - m.steps@.len(),
    {
        let ghost k = m.steps@.len() as nat;
        assert(run(grammar, lr_table, toks, k + 1) == parse_step(grammar, lr_table, toks, m.config()));
        match m.advance(grammar, lr_table, tokens) {
            Advance::Continue => {
                assert(m.steps@.len() == k + 1);
            },
            Advance::Accept(root) => {
                let node_count = m.tree.nodes.len();
                proof {
                    lemma_run_stays(grammar, lr_table, toks, k + 1, max_steps as nat);
                    lemma_run_keeps_shape(grammar, lr_table, toks, k + 1);
                    lemma_run_keeps_tree(grammar, lr_table, toks, k + 1);
                    lemma_run_keeps_yield(grammar, lr_table, toks, k + 1);
                    lemma_run_keeps_steps(grammar, lr_table, toks, k + 1);
                    assert(m.tree.view_nodes().len() == node_count);
                    lemma_well_ordered_printable(m.tree.view_nodes(), root as int);
                }
                m.tree.set_root(root);
                assert(printable_within_usize(m.tree.view_nodes(), root as int)) by {
                    assert(printable(m.tree.view_nodes(), root as int, (root + 1) as nat));
                }
                return Some(Ok(ParseOutput { steps: m.steps, tree: m.tree }));
            },
            Advance::Fail(e) => {
                proof {
                    lemma_run_stays(grammar, lr_table, toks, k + 1, max_steps as nat);
                }
                return Some(Err(e));
            },
        }
    }
    None
}

/// Drives the analysis with an LR table (LR(0), SLR(1) or LR(1)), recording
/// every step and building the syntax tree while shifting and reducing.
pub fn parse_lr(grammar: &Grammar, lr_table: &LRTable, tokens: &[Token]) -> (r: Result<ParseOutput, ParseError>)
    requires
        parse_halts(grammar, lr_table, tokens_view(tokens@)),
    ensures
        match parse_outcome(grammar, lr_table, tokens_view(tokens@)) {
            Outcome::Accepted(c, root) => r matches Ok(out) && output_fits(grammar, tokens_view(tokens@), out, c, root),
            Outcome::Failed(e) => r matches Err(err) && error_view(err) == e,
            Outcome::Running(_) => false,
        },
{
    let ghost toks = tokens_view(tokens@);
    proof {
        if toks.len() > 0 {
            lemma_run_stays(grammar, lr_table, toks, halting_steps(grammar, lr_table, toks), (usize::MAX - 1) as nat);
        }
    }
    match parse_lr_within(grammar, lr_table, tokens, usize::MAX - 1) {
        Some(r) => r,
        None => unreached(),
    }
}

/// The text of an error: its kind, where it happened, the action being
/// carried out (`none` when there was none), and the message.
pub open spec fn error_text(e: ErrorView) -> Seq<char> {
    (match e.kind {
        ParseErrorKind::Syntax => "syntax error"@,
        ParseErrorKind::Internal => "internal parser error"@,
    }) + " at state "@ + decimal(e.state_id as nat) + " with token `"@ + token_text(e.token) + "` (offset "@
        + decimal(e.token.offset as nat) + "), action "@ + (match e.action {
        Some(a) => action_text(a),
        None => "none"@,
    }) + ": "@ + e.message
}

impl ParseError {
    /// The error as one line of text.
    pub fn text(&self) -> (s: String)
        ensures
            s@ == error_text(error_view(*self)),
    {
        let mut s = match self.kind {
            ParseErrorKind::Syntax => String::from_str("syntax error"),
            ParseErrorKind::Internal => String::from_str("internal parser error"),
        };
        s.append(" at state ");
        push_decimal(&mut s, self.state_id);
        s.append(" with token `");
        let t = self.current_token.text();
        s.append(t.as_str());
        s.append("` (offset ");
        push_decimal(&mut s, self.current_token.offset);
        s.append("), action ");
        match self.action {
            Some(a) => {
                let at = a.text();
                s.append(at.as_str());
            },
            None => {
                s.append("none");
            },
        }
        s.append(": ");
        s.append(self.message.as_str());
        assert(s@ =~= error_text(error_view(*self)));
        s
    }
}

/// The report line for an error: its text after `语法错误: ` for a syntax
/// error or `内部错误: ` for an internal one.
pub open spec fn error_report(e: ErrorView) -> Seq<char> {
    (match e.kind {
        ParseErrorKind::Syntax => "语法错误: "@,
        ParseErrorKind::Internal => "内部错误: "@,
    }) + error_text(e)
}

impl ParseError {
    /// The error as a report line, its text after a prefix naming its kind.
    pub fn report(&self) -> (s: String)
        ensures
            s@ == error_report(error_view(*self)),
    {
        let mut s = match self.kind {
            ParseErrorKind::Syntax => String::from_str("语法错误: "),
            ParseErrorKind::Internal => String::from_str("内部错误: "),
        };
        let t = self.text();
        s.append(t.as_str());
        s
    }
}

/// The state numbers separated by spaces.
pub open spec fn states_text(states: Seq<usize>) -> Seq<char> {
    join(states.map_values(|q: usize| decimal(q as nat)), " "@)
}

/// The symbol names separated by spaces, or `(empty)`.
pub open spec fn symbols_text(symbols: Seq<Symbol>) -> Seq<char> {
    if symbols.len() == 0 {
        "(empty)"@
    } else {
        join(symbols.map_values(|x: Symbol| x.spec_name()), " "@)
    }
}

/// A row of the steps table: number, states, symbols, input and action in
/// columns of 4 (right-aligned), 24, 24 and 32 characters.
pub open spec fn table_row(number: Seq<char>, states: Seq<char>, symbols: Seq<char>, input: Seq<char>, action: Seq<char>) -> Seq<char> {
    pad_left(number, 4) + " | "@ + pad_right(states, 24) + " | "@ + pad_right(symbols, 24) + " | "@ + pad_right(input, 32)
        + " | "@ + action
}

pub open spec fn step_line(s: StepView) -> Seq<char> {
    table_row(decimal(s.number as nat), states_text(s.states), symbols_text(s.symbols), tokens_text(s.rest), action_text(s.action))
}

/// The steps as a table: a header, a rule of 108 dashes, and one row per step.
pub open spec fn steps_table(steps: Seq<StepView>) -> Seq<char> {
    join(
        seq![table_row("step"@, "states"@, "symbols"@, "input"@, "action"@), repeat("-"@, 108)] + steps.map_values(
            |s: StepView| step_line(s),
        ),
        "\n"@,
    )
}

fn states_string(states: &Vec<usize>) -> (s: String)
    ensures
        s@ == states_text(states@),
{
    let ghost texts = states@.map_values(|q: usize| decimal(q as nat));
    let mut s = String::new();
    let mut i: usize = 0;
    while i < states.len()
        invariant
            texts == states@.map_values(|q: usize| decimal(q as nat)),
            i <= states@.len(),
            s@ == join(texts.take(i as int), " "@),
        decreases states@.len() - i,
    {
        assert(texts.take(i + 1).drop_last() =~= texts.take(i as int));
        if i > 0 {
            s.append(" ");
        } else {
            assert(texts.take(1) =~= seq![texts[0]]);
        }
        push_decimal(&mut s, states[i]);
        i = i + 1;
    }
    assert(texts.take(states@.len() as int) =~= texts);
    s
}

fn symbols_string(symbols: &Vec<Symbol>) -> (s: String)
    ensures
        s@ == symbols_text(symbols@),
{
    if symbols.len() == 0 {
        return String::from_str("(empty)");
    }
    let ghost texts = symbols@.map_values(|x: Symbol| x.spec_name());
    let mut s = String::new();
    let mut i: usize = 0;
    while i < symbols.len()
        invariant
            texts == symbols@.map_values(|x: Symbol| x.spec_name()),
            i <= symbols@.len(),
            s@ == join(texts.take(i as int), " "@),
        decreases symbols@.len() - i,
    {
        assert(texts.take(i + 1).drop_last() =~= texts.take(i as int));
        if i > 0 {
            s.append(" ");
        } else {
            assert(texts.take(1) =~= seq![texts[0]]);
        }
        s.append(symbols[i].name());
        i = i + 1;
    }
    assert(texts.take(symbols@.len() as int) =~= texts);
    s
}

fn row_string(number: &str, states: &str, symbols: &str, input: &str, action: &str) -> (s: String)
    ensures
        s@ == table_row(number@, states@, symbols@, input@, action@),
{
    let mut s = String::new();
    push_pad_left(&mut s, number, 4);
    s.append(" | ");
    push_pad_right(&mut s, states, 24);
    s.append(" | ");
    push_pad_right(&mut s, symbols, 24);
    s.append(" | ");
    push_pad_right(&mut s, input, 32);
    s.append(" | ");
    s.append(action);
    assert(s@ =~= table_row(number@, states@, symbols@, input@, action@));
    s
}

/// The steps of an analysis as a table, one row per step.
pub fn format_parse_steps(steps: &[ParseStep]) -> (s: String)
    ensures
        s@ == steps_table(steps_view(steps@)),
{
    let ghost rows = steps_view(steps@).map_values(|s: StepView| step_line(s));
    let mut lines: Vec<String> = Vec::new();
    lines.push(row_string("step", "states", "symbols", "input", "action"));
    let mut dashes = String::new();
    push_repeat(&mut dashes, "-", 108);
    lines.push(dashes);
    let ghost head = string_views(lines@);
    let mut i: usize = 0;
    while i < steps.len()
        invariant
            rows == steps_view(steps@).map_values(|s: StepView| step_line(s)),
            i <= steps@.len(),
            string_views(lines@) == head + rows.take(i as int),
        decreases steps@.len() - i,
    {
        let step = &steps[i];
        let number = decimal_string(step.step_number);
        let states = states_string(&step.state_stack);
        let symbols = symbols_string(&step.symbol_stack);
        let input = format_tokens_verbose(step.rest_input.as_slice());
        let action = step.action.text();
        let line = row_string(number.as_str(), states.as_str(), symbols.as_str(), input.as_str(), action.as_str());
        assert(steps_view(steps@)[i as int] == step_view(*step));
        assert(line@ == rows[i as int]);
        let ghost before = string_views(lines@);
        lines.push(line);
        assert(string_views(lines@) =~= before.push(line@));
        assert(rows.take(i + 1) =~= rows.take(i as int).push(rows[i as int]));
        assert(string_views(lines@) =~= head + rows.take(i + 1));
        i = i + 1;
    }
    assert(rows.take(steps@.len() as int) =~= rows);
    assert(head =~= seq![table_row("step"@, "states"@, "symbols"@, "input"@, "action"@), repeat("-"@, 108)]);
    join_strings(&lines, "\n")
}

} // verus!
