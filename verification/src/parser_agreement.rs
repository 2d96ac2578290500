use vstd::prelude::*;
use crate::grammar::Grammar;
use crate::item_lr0::{Item, State};
use crate::item_lr1::{ItemLR1, StateLR1};
use crate::symbol::{NonTerminal, Symbol, Terminal};
use crate::dfa::{Dfa, discovered, first_reaches, has_transition_from};
use crate::first_follow::{first_seq, is_first_sets, is_follow_sets, follow_closed, first_after, no_nonterminals};
use crate::dfa_lr0::{is_lr0_automaton, lr0_next_symbol, is_lr0_closure, lr0_kernel};
use crate::dfa_lr1::{first_covers_suffixes, lr1_next_symbol};
use crate::lr1_cores::{item_cores, first_sets_nonempty, lemma_lr1_state_in_lr0, lemma_kernel_cores, lemma_closure_cores};
use crate::lr_table::{Action, LRTable};
use crate::table_contents::{holds, shifts_follow_transitions, slr_cells_follow_items, lr1_cells_follow_items, gotos_follow_transitions, goto_holds};
use crate::parse_simulation::{simulates, rename_action};
use crate::dfa_lr1::{lr1_lookaheads, lr1_closed, lr1_successors_in, is_lr1_closure, lr1_kernel, is_lr1_automaton};
use crate::lexer::TokenView;
use crate::lr_parser::{Outcome, parse_halts, parse_outcome};
use crate::parse_simulation::{rename_config, lemma_simulated_parse_accepts};

verus! {

/// The terminals of FIRST(beta a) are those of FIRST(beta), and `a` when beta
/// can vanish.
pub proof fn lemma_first_then_terminal(m: Map<NonTerminal, Set<Symbol>>, w: Seq<Symbol>, a: Terminal, b: Terminal)
    ensures
        first_seq(m, w.push(Symbol::Terminal(a))).contains(Symbol::Terminal(b)) ==>
            first_seq(m, w).contains(Symbol::Terminal(b)) || (first_seq(m, w).contains(Symbol::Epsilon) && b == a),
    decreases w.len(),
{
    let v = w.push(Symbol::Terminal(a));
    if w.len() > 0 {
        assert(v[0] == w[0]);
        assert(v.drop_first() =~= w.drop_first().push(Symbol::Terminal(a)));
        lemma_first_then_terminal(m, w.drop_first(), a, b);
    } else {
        assert(v[0] == Symbol::Terminal(a));
    }
}

/// Every item has its lookahead in FOLLOW of its left-hand side.
pub open spec fn lookaheads_follow(g: &Grammar, follow: Map<NonTerminal, Set<Symbol>>) -> Set<ItemLR1> {
    Set::new(|it: ItemLR1| g.valid_prod(it.production_id as int) ==> follow[g.lhs_of(it.production_id as int)].contains(Symbol::Terminal(it.lookahead)))
}

proof fn lemma_lookaheads_follow_closed(g: &Grammar, first: Map<NonTerminal, Set<Symbol>>, follow: Map<NonTerminal, Set<Symbol>>)
    requires
        g.num_prods() <= usize::MAX,
        follow_closed(g, first, follow),
    ensures
        lr1_closed(g, first, lookaheads_follow(g, follow)),
{
    let t = lookaheads_follow(g, follow);
    assert forall|it: ItemLR1| #[trigger] t.contains(it) implies lr1_successors_in(g, first, t, it) by {
        assert forall|p: int, b: Terminal|
            #![trigger g.lhs_of(p), lr1_lookaheads(g, first, it).contains(Symbol::Terminal(b))]
            0 <= p < g.num_prods() && it.after_dot(g) == Some(Symbol::NonTerminal(g.lhs_of(p)))
                && lr1_lookaheads(g, first, it).contains(Symbol::Terminal(b)) implies t.contains(
                ItemLR1 { production_id: #[verifier::truncate] (p as usize), dot: 0, lookahead: b },
            ) by {
            let q = it.production_id as int;
            let k = it.dot as int;
            let rhs = g.rhs_of(q);
            assert(0 <= q < g.num_prods() && 0 <= k < rhs.len());
            assert(rhs[k] == Symbol::NonTerminal(g.lhs_of(p)));
            let w = rhs.subrange(k + 1, rhs.len() as int);
            lemma_first_then_terminal(first, w, it.lookahead, b);
            assert(first_after(first, g, q, k) == first_seq(first, w));
            assert(rhs[k] is NonTerminal);
            let f = first_after(first, g, q, k);
            assert(f.remove(Symbol::Epsilon).subset_of(follow[g.lhs_of(p)]));
            if f.contains(Symbol::Terminal(b)) {
                assert(f.remove(Symbol::Epsilon).contains(Symbol::Terminal(b)));
            }
            assert((p as usize) as int == p);
        }
    }
}

/// In every state of the LR(1) automaton, each item's lookahead lies in
/// FOLLOW of the item's left-hand side.
pub proof fn lemma_lr1_lookaheads_in_follow(
    g: &Grammar,
    first: Map<NonTerminal, Set<Symbol>>,
    follow: Map<NonTerminal, Set<Symbol>>,
    d1: &Dfa<StateLR1>,
    j: int,
)
    requires
        g.lhs_of(0) == g.start,
        g.num_prods() <= usize::MAX,
        follow_closed(g, first, follow),
        is_lr1_automaton(g, first, d1),
        0 <= j < d1.states@.len(),
    ensures
        d1.states@[j].contents().subset_of(lookaheads_follow(g, follow)),
    decreases j,
{
    let t = lookaheads_follow(g, follow);
    let t1 = d1.transitions@;
    lemma_lookaheads_follow_closed(g, first, follow);
    if j == 0 {
        let base = set![ItemLR1 { production_id: 0, dot: 0, lookahead: Terminal::End }];
        assert(base.subset_of(t)) by {
            assert forall|it: ItemLR1| #[trigger] base.contains(it) implies t.contains(it) by {
                assert(it.production_id == 0);
            }
        }
    } else {
        assert(discovered(t1, j));
        let k = choose|k: int| #[trigger] first_reaches(t1, j, k);
        let i = t1[k].0.0 as int;
        let x = t1[k].0.1;
        let si = d1.states@[i].contents();
        assert(0 <= i < d1.states@.len());
        lemma_lr1_lookaheads_in_follow(g, first, follow, d1, i);
        assert(is_lr1_closure(g, first, lr1_kernel(g, si, x), d1.states@[j].contents()));
        assert(lr1_kernel(g, si, x).subset_of(t)) by {
            assert forall|it: ItemLR1| #[trigger] lr1_kernel(g, si, x).contains(it) implies t.contains(it) by {
                let q = choose|q: ItemLR1| #![trigger si.contains(q)] si.contains(q) && q.after_dot(g) == Some(x) && it == ItemLR1 {
                    production_id: q.production_id,
                    dot: #[verifier::truncate] ((q.dot + 1) as usize),
                    lookahead: q.lookahead,
                };
                assert(t.contains(q));
            }
        }
    }
}

/// The LR(0) automaton and the LR(1) automaton of one grammar, with FIRST
/// sets in which every non-terminal derives something.
pub open spec fn automata_of(g: &Grammar, first: Map<NonTerminal, Set<Symbol>>, d0: &Dfa<State>, d1: &Dfa<StateLR1>) -> bool {
    &&& first_covers_suffixes(g, first)
    &&& no_nonterminals(first)
    &&& first_sets_nonempty(first)
    &&& is_lr0_automaton(g, d0)
    &&& is_lr1_automaton(g, first, d1)
    &&& d0.states@.len() <= usize::MAX
    &&& d1.states@.len() <= usize::MAX
}

/// For each LR(1) state, the LR(0) state that holds its cores.
pub open spec fn core_state(d0: &Dfa<State>, d1: &Dfa<StateLR1>) -> spec_fn(usize) -> usize {
    |i: usize| choose|j: usize| (j as int) < d0.states@.len() && #[trigger] d0.states@[j as int].contents() == item_cores(d1.states@[i as int].contents())
}

proof fn lemma_core_state(g: &Grammar, first: Map<NonTerminal, Set<Symbol>>, d0: &Dfa<State>, d1: &Dfa<StateLR1>, i: usize)
    requires
        automata_of(g, first, d0, d1),
        (i as int) < d1.states@.len(),
    ensures
        (core_state(d0, d1)(i) as int) < d0.states@.len(),
        d0.states@[core_state(d0, d1)(i) as int].contents() == item_cores(d1.states@[i as int].contents()),
{
    lemma_lr1_state_in_lr0(g, first, d0, d1, i as int);
    let i0 = choose|i0: int| 0 <= i0 < d0.states@.len() && (#[trigger] d0.states@[i0]).contents() == item_cores(d1.states@[i as int].contents());
    assert(d0.states@[(i0 as usize) as int].contents() == item_cores(d1.states@[i as int].contents()));
}

/// States of the LR(0) automaton with the same items are the same state.
proof fn lemma_lr0_state_unique(g: &Grammar, d0: &Dfa<State>, a: int, b: int)
    requires
        is_lr0_automaton(g, d0),
        0 <= a < d0.states@.len(),
        0 <= b < d0.states@.len(),
        d0.states@[a].contents() == d0.states@[b].contents(),
    ensures
        a == b,
{
    if a < b {
        assert(d0.states@[a].contents() != d0.states@[b].contents());
    } else if b < a {
        assert(d0.states@[b].contents() != d0.states@[a].contents());
    }
}

/// A transition of the LR(1) automaton is matched by the transition of the
/// LR(0) automaton between the states that hold the cores.
proof fn lemma_transition_cores(g: &Grammar, first: Map<NonTerminal, Set<Symbol>>, d0: &Dfa<State>, d1: &Dfa<StateLR1>, k1: int)
    requires
        automata_of(g, first, d0, d1),
        0 <= k1 < d1.transitions@.len(),
    ensures
        exists|k0: int| 0 <= k0 < d0.transitions@.len()
            && (#[trigger] d0.transitions@[k0]).0 == (core_state(d0, d1)(d1.transitions@[k1].0.0), d1.transitions@[k1].0.1)
            && d0.transitions@[k0].1 == core_state(d0, d1)(d1.transitions@[k1].1),
{
    let mu = core_state(d0, d1);
    let t0 = d0.transitions@;
    let t1 = d1.transitions@;
    let i = t1[k1].0.0;
    let x = t1[k1].0.1;
    let j = t1[k1].1;
    let s1 = d1.states@[i as int].contents();
    assert((i as int) < d1.states@.len() && (j as int) < d1.states@.len());
    assert(lr1_next_symbol(g, s1, x));
    assert(is_lr1_closure(g, first, lr1_kernel(g, s1, x), d1.states@[j as int].contents()));
    lemma_core_state(g, first, d0, d1, i);
    lemma_core_state(g, first, d0, d1, j);
    let i0 = mu(i);
    lemma_kernel_cores(g, s1, x);
    let st0 = |q: int| d0.states@[q].contents();
    assert(lr0_next_symbol(g, st0(i0 as int), x));
    assert(has_transition_from(t0, i0 as int, x));
    let k0 = choose|k0: int| 0 <= k0 < t0.len() && (#[trigger] t0[k0]).0 == ((i0 as int) as usize, x);
    let j0 = t0[k0].1;
    assert((j0 as int) < d0.states@.len());
    assert(is_lr0_closure(g, lr0_kernel(g, d0.states@[i0 as int].contents(), x), d0.states@[j0 as int].contents()));
    lemma_closure_cores(g, first, lr1_kernel(g, s1, x), d1.states@[j as int].contents(), d0.states@[j0 as int].contents());
    lemma_lr0_state_unique(g, d0, j0 as int, mu(j) as int);
}

/// The SLR(1) table built from the LR(0) automaton simulates the LR(1) table
/// built from the LR(1) automaton, when neither has a conflict.
pub proof fn lemma_slr_simulates_lr1(
    g: &Grammar,
    first: Map<NonTerminal, Set<Symbol>>,
    follow: Map<NonTerminal, Set<Symbol>>,
    d0: &Dfa<State>,
    d1: &Dfa<StateLR1>,
    t0: &LRTable,
    t1: &LRTable,
)
    requires
        g.lhs_of(0) == g.start,
        g.num_prods() <= usize::MAX,
        is_follow_sets(g, first, follow),
        automata_of(g, first, d0, d1),
        shifts_follow_transitions(t0.action@, d0.transitions@),
        slr_cells_follow_items(g, follow, d0.states@, t0.action@),
        gotos_follow_transitions(t0.goto@, d0.transitions@),
        shifts_follow_transitions(t1.action@, d1.transitions@),
        lr1_cells_follow_items(g, d1.states@, t1.action@),
        gotos_follow_transitions(t1.goto@, d1.transitions@),
    ensures
        simulates(core_state(d0, d1), t1, t0),
{
    let mu = core_state(d0, d1);
    let t0s = d0.transitions@;
    let t1s = d1.transitions@;
    assert(mu(0) == 0) by {
        lemma_core_state(g, first, d0, d1, 0);
        let base = set![ItemLR1 { production_id: 0, dot: 0, lookahead: Terminal::End }];
        assert(item_cores(base) =~= set![Item { production_id: 0, dot: 0 }]) by {
            assert(base.contains(ItemLR1 { production_id: 0, dot: 0, lookahead: Terminal::End }));
        }
        lemma_closure_cores(g, first, base, d1.states@[0].contents(), d0.states@[0].contents());
        lemma_lr0_state_unique(g, d0, 0, mu(0) as int);
    }
    assert forall|i: usize, a: Terminal| #[trigger] t1.action@.dom().contains((i, a))
        implies t0.action@.dom().contains((mu(i), a)) && t0.action@[(mu(i), a)] == rename_action(mu, t1.action@[(i, a)]) by {
        let x = t1.action@[(i, a)];
        assert(holds(t1.action@, i, a, x));
        match x {
            Action::Shift(j) => {
                let k1 = choose|k: int| 0 <= k < t1s.len() && (#[trigger] t1s[k]).0 == (i, Symbol::Terminal(a)) && t1s[k].1 == j;
                lemma_transition_cores(g, first, d0, d1, k1);
                let k0 = choose|k0: int| 0 <= k0 < t0s.len() && (#[trigger] t0s[k0]).0 == (mu(t1s[k1].0.0), t1s[k1].0.1) && t0s[k0].1 == mu(t1s[k1].1);
                assert(holds(t0.action@, mu(i), a, Action::Shift(mu(j))));
            },
            Action::Reduce(p) => {
                let it = choose|it: ItemLR1| #[trigger] d1.states@[i as int].elems().contains(it) && it.spec_is_complete(g) && it.production_id == p && it.lookahead == a;
                lemma_core_state(g, first, d0, d1, i);
                lemma_lr1_lookaheads_in_follow(g, first, follow, d1, i as int);
                assert(d1.states@[i as int].contents().contains(it));
                assert(lookaheads_follow(g, follow).contains(it));
                let core = Item { production_id: p, dot: it.dot };
                assert(item_cores(d1.states@[i as int].contents()).contains(core));
                assert(d0.states@[mu(i) as int].contents().contains(core));
                assert(d0.states@[mu(i) as int].elems().contains(core));
                assert(core.spec_is_complete(g));
                assert(g.defines(g.lhs_of(p as int)));
                assert(g.occurs(g.lhs_of(p as int)));
                assert(holds(t0.action@, mu(i), a, Action::Reduce(p)));
            },
            Action::Accept => {
                let it = choose|it: ItemLR1| #[trigger] d1.states@[i as int].elems().contains(it) && it.spec_is_complete(g) && it.production_id == 0;
                lemma_core_state(g, first, d0, d1, i);
                assert(d1.states@[i as int].contents().contains(it));
                let core = Item { production_id: 0, dot: it.dot };
                assert(item_cores(d1.states@[i as int].contents()).contains(core));
                assert(d0.states@[mu(i) as int].contents().contains(core));
                assert(d0.states@[mu(i) as int].elems().contains(core));
                assert(core.spec_is_complete(g));
                assert(holds(t0.action@, mu(i), a, Action::Accept));
            },
        }
    }
    assert forall|i: usize, n: NonTerminal| #[trigger] t1.goto@.dom().contains((i, n))
        implies t0.goto@.dom().contains((mu(i), n)) && t0.goto@[(mu(i), n)] == mu(t1.goto@[(i, n)]) by {
        let j = t1.goto@[(i, n)];
        assert(goto_holds(t1.goto@, i, n, j));
        let k1 = choose|k: int| 0 <= k < t1s.len() && (#[trigger] t1s[k]).0 == (i, Symbol::NonTerminal(n)) && t1s[k].1 == j;
        lemma_transition_cores(g, first, d0, d1, k1);
        let k0 = choose|k0: int| 0 <= k0 < t0s.len() && (#[trigger] t0s[k0]).0 == (mu(t1s[k1].0.0), t1s[k1].0.1) && t0s[k0].1 == mu(t1s[k1].1);
        assert(goto_holds(t0.goto@, mu(i), n, mu(j)));
    }
}

/// Of one grammar, an SLR(1) table and an LR(1) table built without conflicts
/// agree on every input that the LR(1) table accepts: the SLR(1) analysis
/// ends too, accepts, and builds the same syntax tree with the same reductions,
/// its states being those of the LR(0) automaton that hold the cores of the
/// LR(1) states. This holds when every non-terminal has a non-empty FIRST set.
pub proof fn lemma_slr_accepts_what_lr1_accepts(
    g: &Grammar,
    first: Map<NonTerminal, Set<Symbol>>,
    follow: Map<NonTerminal, Set<Symbol>>,
    d0: &Dfa<State>,
    d1: &Dfa<StateLR1>,
    t0: &LRTable,
    t1: &LRTable,
    toks: Seq<TokenView>,
)
    requires
        g.lhs_of(0) == g.start,
        g.num_prods() <= usize::MAX,
        is_first_sets(g, first),
        is_follow_sets(g, first, follow),
        automata_of(g, first, d0, d1),
        shifts_follow_transitions(t0.action@, d0.transitions@),
        slr_cells_follow_items(g, follow, d0.states@, t0.action@),
        gotos_follow_transitions(t0.goto@, d0.transitions@),
        shifts_follow_transitions(t1.action@, d1.transitions@),
        lr1_cells_follow_items(g, d1.states@, t1.action@),
        gotos_follow_transitions(t1.goto@, d1.transitions@),
        parse_halts(g, t1, toks),
        parse_outcome(g, t1, toks) is Accepted,
    ensures
        parse_halts(g, t0, toks),
        parse_outcome(g, t0, toks) == Outcome::Accepted(
            rename_config(core_state(d0, d1), parse_outcome(g, t1, toks)->Accepted_0),
            parse_outcome(g, t1, toks)->Accepted_1,
        ),
{
    lemma_slr_simulates_lr1(g, first, follow, d0, d1, t0, t1);
    lemma_simulated_parse_accepts(g, t1, t0, core_state(d0, d1), toks);
}

} // verus!
