use vstd::prelude::*;
use crate::grammar::Grammar;
use crate::lexer::TokenView;
use crate::lr_table::{Action, LRTable};
use crate::symbol::{NonTerminal, Terminal};
use crate::lr_parser::{
    ParserConfig, StepView, Outcome, parse_step, run, halts_within, parse_halts, halting_steps, parse_outcome,
    shift_config, reduce_outcome, accept_outcome, step_record, lemma_run_stays,
};

verus! {

/// A state stack with every state renamed by `mu`.
pub open spec fn rename_states(mu: spec_fn(usize) -> usize, s: Seq<usize>) -> Seq<usize> {
    s.map_values(|x: usize| mu(x))
}

/// An action with its shift target renamed by `mu`.
pub open spec fn rename_action(mu: spec_fn(usize) -> usize, a: Action) -> Action {
    match a {
        Action::Shift(j) => Action::Shift(mu(j)),
        other => other,
    }
}

/// A recorded step with its states renamed by `mu`.
pub open spec fn rename_step(mu: spec_fn(usize) -> usize, s: StepView) -> StepView {
    StepView { number: s.number, states: rename_states(mu, s.states), symbols: s.symbols, rest: s.rest, action: rename_action(mu, s.action) }
}

/// A configuration with its states, and those of its steps, renamed by `mu`.
pub open spec fn rename_config(mu: spec_fn(usize) -> usize, c: ParserConfig) -> ParserConfig {
    ParserConfig {
        states: rename_states(mu, c.states),
        steps: c.steps.map_values(|s: StepView| rename_step(mu, s)),
        ..c
    }
}

/// Table `t0` does, in state `mu(i)`, whatever table `t1` does in state `i`:
/// the same action (a shift going to the renamed target) and the renamed GOTO
/// target; and `mu` keeps the initial state.
pub open spec fn simulates(mu: spec_fn(usize) -> usize, t1: &LRTable, t0: &LRTable) -> bool {
    &&& mu(0) == 0
    &&& forall|i: usize, a: Terminal| #[trigger] t1.action@.dom().contains((i, a))
        ==> t0.action@.dom().contains((mu(i), a)) && t0.action@[(mu(i), a)] == rename_action(mu, t1.action@[(i, a)])
    &&& forall|i: usize, n: NonTerminal| #[trigger] t1.goto@.dom().contains((i, n))
        ==> t0.goto@.dom().contains((mu(i), n)) && t0.goto@[(mu(i), n)] == mu(t1.goto@[(i, n)])
}

proof fn lemma_rename_push_step(mu: spec_fn(usize) -> usize, steps: Seq<StepView>, s: StepView)
    ensures
        steps.push(s).map_values(|x: StepView| rename_step(mu, x)) == steps.map_values(|x: StepView| rename_step(mu, x)).push(rename_step(mu, s)),
{
    assert(steps.push(s).map_values(|x: StepView| rename_step(mu, x)) =~= steps.map_values(|x: StepView| rename_step(mu, x)).push(rename_step(mu, s)));
}

/// One step of the simulated machine is matched by one step of the other.
pub proof fn lemma_step_simulated(g: &Grammar, t1: &LRTable, t0: &LRTable, mu: spec_fn(usize) -> usize, toks: Seq<TokenView>, c: ParserConfig)
    requires
        simulates(mu, t1, t0),
    ensures
        parse_step(g, t1, toks, c) matches Outcome::Running(d) ==> parse_step(g, t0, toks, rename_config(mu, c)) == Outcome::Running(rename_config(mu, d)),
        parse_step(g, t1, toks, c) matches Outcome::Accepted(d, r) ==> parse_step(g, t0, toks, rename_config(mu, c)) == Outcome::Accepted(rename_config(mu, d), r),
{
    let m = rename_config(mu, c);
    if c.states.len() > 0 && 0 <= c.index < toks.len() {
        let s1 = c.states.last();
        let kind = toks[c.index].kind;
        assert(m.states.last() == mu(s1));
        if t1.action@.dom().contains((s1, kind)) {
            let a1 = t1.action@[(s1, kind)];
            match a1 {
                Action::Shift(j) => {
                    let d = shift_config(toks, c, j);
                    let e = shift_config(toks, m, mu(j));
                    assert(e.states =~= rename_states(mu, d.states));
                    lemma_rename_push_step(mu, c.steps, step_record(toks, c, d.states, d.symbols, c.index + 1, Action::Shift(j)));
                    assert(e.steps =~= d.steps.map_values(|x: StepView| rename_step(mu, x)));
                    assert(e =~= rename_config(mu, d));
                },
                Action::Reduce(p) => {
                    if p < g.num_prods() {
                        let lhs = g.lhs_of(p as int);
                        let r = g.rhs_of(p as int).len() as int;
                        let ls = c.states.len() as int;
                        let kept = c.states.take(ls - r);
                        let mkept = m.states.take(ls - r);
                        if r <= ls && r <= c.symbols.len() && r <= c.nodes.len() && kept.len() > 0 {
                            assert(mkept =~= rename_states(mu, kept));
                            assert(mkept.last() == mu(kept.last()));
                        }
                        if parse_step(g, t1, toks, c) is Running {
                            let d = parse_step(g, t1, toks, c)->Running_0;
                            let e_out = reduce_outcome(g, t0, toks, m, p);
                            assert(kept.len() > 0);
                            assert(t1.goto@.dom().contains((kept.last(), lhs)));
                            let target = t1.goto@[(kept.last(), lhs)];
                            let states = kept.push(target);
                            let mstates = mkept.push(mu(target));
                            assert(mstates =~= rename_states(mu, states));
                            lemma_rename_push_step(mu, c.steps, step_record(toks, c, states, d.symbols, c.index, Action::Reduce(p)));
                            let e = e_out->Running_0;
                            assert(e.steps =~= d.steps.map_values(|x: StepView| rename_step(mu, x)));
                            assert(e =~= rename_config(mu, d));
                        }
                    }
                },
                Action::Accept => {
                    if parse_step(g, t1, toks, c) is Accepted {
                        let d = parse_step(g, t1, toks, c)->Accepted_0;
                        lemma_rename_push_step(mu, c.steps, step_record(toks, c, c.states, c.symbols, c.index, Action::Accept));
                        let e = accept_outcome(toks, m)->Accepted_0;
                        assert(e.steps =~= d.steps.map_values(|x: StepView| rename_step(mu, x)));
                        assert(e =~= rename_config(mu, d));
                    }
                },
            }
        }
    }
}

/// After any number of steps, the simulating machine is where the simulated
/// one is, renamed, as long as the simulated one runs or has accepted.
pub proof fn lemma_run_simulated(g: &Grammar, t1: &LRTable, t0: &LRTable, mu: spec_fn(usize) -> usize, toks: Seq<TokenView>, n: nat)
    requires
        simulates(mu, t1, t0),
    ensures
        run(g, t1, toks, n) matches Outcome::Running(d) ==> run(g, t0, toks, n) == Outcome::Running(rename_config(mu, d)),
        run(g, t1, toks, n) matches Outcome::Accepted(d, r) ==> run(g, t0, toks, n) == Outcome::Accepted(rename_config(mu, d), r),
    decreases n,
{
    if n == 0 {
        let c = crate::lr_parser::initial_config();
        assert(rename_config(mu, c).states =~= seq![0usize]);
        assert(rename_config(mu, c).steps =~= Seq::<StepView>::empty());
        assert(rename_config(mu, c) =~= c);
    } else {
        lemma_run_simulated(g, t1, t0, mu, toks, (n - 1) as nat);
        if let Outcome::Running(c) = run(g, t1, toks, (n - 1) as nat) {
            lemma_step_simulated(g, t1, t0, mu, toks, c);
        }
    }
}

/// A table that simulates another accepts every input that the other
/// accepts, with the same syntax tree, the same input consumed and the same
/// steps up to the renaming of states.
pub proof fn lemma_simulated_parse_accepts(g: &Grammar, t1: &LRTable, t0: &LRTable, mu: spec_fn(usize) -> usize, toks: Seq<TokenView>)
    requires
        simulates(mu, t1, t0),
        parse_halts(g, t1, toks),
        parse_outcome(g, t1, toks) is Accepted,
    ensures
        parse_halts(g, t0, toks),
        parse_outcome(g, t0, toks) == Outcome::Accepted(
            rename_config(mu, parse_outcome(g, t1, toks)->Accepted_0),
            parse_outcome(g, t1, toks)->Accepted_1,
        ),
{
    let n1 = halting_steps(g, t1, toks);
    lemma_run_simulated(g, t1, t0, mu, toks, n1);
    assert(halts_within(g, t0, toks, n1));
    assert(parse_halts(g, t0, toks));
    let n0 = halting_steps(g, t0, toks);
    if n0 <= n1 {
        lemma_run_stays(g, t0, toks, n0, n1);
    } else {
        lemma_run_stays(g, t0, toks, n1, n0);
    }
}

} // verus!
