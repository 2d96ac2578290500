use vstd::prelude::*;
use crate::grammar::Grammar;
use crate::item_lr0::Item;
use crate::item_lr1::ItemLR1;
use crate::symbol::{NonTerminal, Symbol, Terminal};
use crate::first_follow::{first_seq, no_nonterminals, first_seq_defined};
use crate::dfa::{Dfa, discovered, first_reaches, has_transition_from};
use crate::item_lr0::State;
use crate::item_lr1::StateLR1;
use crate::dfa_lr0::{lr0_closed, is_lr0_closure, lr0_kernel, lr0_next_symbol, is_lr0_automaton};
use crate::dfa_lr1::{first_covers_suffixes, lr1_lookaheads, lr1_closed, is_lr1_closure, lr1_kernel, lr1_next_symbol, is_lr1_automaton};

verus! {

/// The LR(0) cores of a set of LR(1) items: the items with their lookaheads
/// dropped.
pub open spec fn item_cores(s: Set<ItemLR1>) -> Set<Item> {
    Set::new(|i: Item| exists|j: ItemLR1| #[trigger] s.contains(j) && j.production_id == i.production_id && j.dot == i.dot)
}

/// Every FIRST set is non-empty: each non-terminal derives some string.
pub open spec fn first_sets_nonempty(first: Map<NonTerminal, Set<Symbol>>) -> bool {
    forall|a: NonTerminal| #[trigger] first.dom().contains(a) ==> first[a] != Set::<Symbol>::empty()
}

/// FIRST of a sequence followed by a terminal holds some terminal, when each
/// of its non-terminals has a non-empty FIRST set made of terminals and epsilon.
pub proof fn lemma_first_before_terminal(m: Map<NonTerminal, Set<Symbol>>, w: Seq<Symbol>, a: Terminal)
    requires
        no_nonterminals(m),
        first_sets_nonempty(m),
        first_seq_defined(m, w),
    ensures
        exists|b: Terminal| #[trigger] first_seq(m, w.push(Symbol::Terminal(a))).contains(Symbol::Terminal(b)),
    decreases w.len(),
{
    let v = w.push(Symbol::Terminal(a));
    if w.len() == 0 {
        assert(v[0] == Symbol::Terminal(a));
        assert(first_seq(m, v).contains(Symbol::Terminal(a)));
    } else {
        assert(v[0] == w[0]);
        assert(v.drop_first() =~= w.drop_first().push(Symbol::Terminal(a)));
        match w[0] {
            Symbol::Terminal(t) => {
                assert(first_seq(m, v).contains(Symbol::Terminal(t)));
            },
            Symbol::NonTerminal(n) => {
                assert(w[0] is NonTerminal);
                assert(m.dom().contains(n));
                assert(m[n] != Set::<Symbol>::empty());
                let x = m[n].choose();
                assert(m[n].contains(x)) by {
                    if !m[n].contains(x) {
                        assert(m[n] =~= Set::<Symbol>::empty());
                    }
                }
                match x {
                    Symbol::Terminal(b) => {
                        assert(first_seq(m, v).contains(Symbol::Terminal(b)));
                    },
                    Symbol::NonTerminal(_) => {
                        assert(false);
                    },
                    Symbol::Epsilon => {
                        lemma_first_before_terminal(m, w.drop_first(), a);
                        let b = choose|b: Terminal| #[trigger] first_seq(m, w.drop_first().push(Symbol::Terminal(a))).contains(Symbol::Terminal(b));
                        assert(first_seq(m, v).contains(Symbol::Terminal(b)));
                    },
                }
            },
            Symbol::Epsilon => {
                lemma_first_before_terminal(m, w.drop_first(), a);
                let b = choose|b: Terminal| #[trigger] first_seq(m, w.drop_first().push(Symbol::Terminal(a))).contains(Symbol::Terminal(b));
                assert(first_seq(m, v).contains(Symbol::Terminal(b)));
            },
        }
    }
}

/// Every LR(1) item passes at least one lookahead to the items after its dot.
pub proof fn lemma_lookaheads_nonempty(g: &Grammar, first: Map<NonTerminal, Set<Symbol>>, it: ItemLR1)
    requires
        first_covers_suffixes(g, first),
        no_nonterminals(first),
        first_sets_nonempty(first),
        it.after_dot(g) matches Some(Symbol::NonTerminal(_)),
    ensures
        exists|b: Terminal| #[trigger] lr1_lookaheads(g, first, it).contains(Symbol::Terminal(b)),
{
    let rhs = g.rhs_of(it.production_id as int);
    let w = rhs.subrange(it.dot + 1, rhs.len() as int);
    assert(rhs[it.dot as int] is NonTerminal);
    lemma_first_before_terminal(first, w, it.lookahead);
    assert(lr1_lookaheads(g, first, it) == first_seq(first, w.push(Symbol::Terminal(it.lookahead))));
}

/// With every lookahead set non-empty, the cores of an LR(1) closure are the
/// LR(0) closure of the cores of its base.
pub proof fn lemma_closure_cores(
    g: &Grammar,
    first: Map<NonTerminal, Set<Symbol>>,
    base: Set<ItemLR1>,
    c1: Set<ItemLR1>,
    c0: Set<Item>,
)
    requires
        first_covers_suffixes(g, first),
        no_nonterminals(first),
        first_sets_nonempty(first),
        is_lr1_closure(g, first, base, c1),
        is_lr0_closure(g, item_cores(base), c0),
    ensures
        item_cores(c1) == c0,
{
    let k1 = item_cores(c1);
    assert(item_cores(base).subset_of(k1)) by {
        assert forall|i: Item| #[trigger] item_cores(base).contains(i) implies k1.contains(i) by {
            let j = choose|j: ItemLR1| #[trigger] base.contains(j) && j.production_id == i.production_id && j.dot == i.dot;
            assert(c1.contains(j));
        }
    }
    assert(lr0_closed(g, k1)) by {
        assert forall|it: Item, p: int|
            #![trigger k1.contains(it), g.lhs_of(p)]
            k1.contains(it) && 0 <= p < g.num_prods() && it.after_dot(g) == Some(Symbol::NonTerminal(g.lhs_of(p)))
                implies k1.contains(Item { production_id: #[verifier::truncate] (p as usize), dot: 0 }) by {
            let j = choose|j: ItemLR1| #[trigger] c1.contains(j) && j.production_id == it.production_id && j.dot == it.dot;
            assert(j.after_dot(g) == it.after_dot(g));
            lemma_lookaheads_nonempty(g, first, j);
            let b = choose|b: Terminal| #[trigger] lr1_lookaheads(g, first, j).contains(Symbol::Terminal(b));
            assert(lr1_closed(g, first, c1));
            assert(c1.contains(ItemLR1 { production_id: #[verifier::truncate] (p as usize), dot: 0, lookahead: b }));
        }
    }
    assert(c0.subset_of(k1));
    let t = Set::new(|j: ItemLR1| c0.contains(Item { production_id: j.production_id, dot: j.dot }));
    assert(base.subset_of(t)) by {
        assert forall|j: ItemLR1| #[trigger] base.contains(j) implies t.contains(j) by {
            assert(item_cores(base).contains(Item { production_id: j.production_id, dot: j.dot }));
        }
    }
    assert(lr1_closed(g, first, t)) by {
        assert forall|j: ItemLR1| #[trigger] t.contains(j) implies crate::dfa_lr1::lr1_successors_in(g, first, t, j) by {
            let i = Item { production_id: j.production_id, dot: j.dot };
            assert(c0.contains(i));
            assert(i.after_dot(g) == j.after_dot(g));
            assert forall|p: int, b: Terminal|
                #![trigger g.lhs_of(p), lr1_lookaheads(g, first, j).contains(Symbol::Terminal(b))]
                0 <= p < g.num_prods() && j.after_dot(g) == Some(Symbol::NonTerminal(g.lhs_of(p)))
                    && lr1_lookaheads(g, first, j).contains(Symbol::Terminal(b)) implies t.contains(
                    ItemLR1 { production_id: #[verifier::truncate] (p as usize), dot: 0, lookahead: b },
                ) by {
                assert(lr0_closed(g, c0));
                assert(c0.contains(Item { production_id: #[verifier::truncate] (p as usize), dot: 0 }));
            }
        }
    }
    assert(c1.subset_of(t));
    assert(k1.subset_of(c0)) by {
        assert forall|i: Item| #[trigger] k1.contains(i) implies c0.contains(i) by {
            let j = choose|j: ItemLR1| #[trigger] c1.contains(j) && j.production_id == i.production_id && j.dot == i.dot;
            assert(t.contains(j));
        }
    }
    assert(k1 =~= c0);
}

/// Moving the dot past `x` commutes with dropping the lookaheads.
pub proof fn lemma_kernel_cores(g: &Grammar, s: Set<ItemLR1>, x: Symbol)
    ensures
        item_cores(lr1_kernel(g, s, x)) == lr0_kernel(g, item_cores(s), x),
        lr1_next_symbol(g, s, x) <==> lr0_next_symbol(g, item_cores(s), x),
{
    let k1 = lr1_kernel(g, s, x);
    let k0 = lr0_kernel(g, item_cores(s), x);
    assert forall|i: Item| #[trigger] item_cores(k1).contains(i) implies k0.contains(i) by {
        let j1 = choose|j1: ItemLR1| #[trigger] k1.contains(j1) && j1.production_id == i.production_id && j1.dot == i.dot;
        let j = choose|j: ItemLR1| #![trigger s.contains(j)] s.contains(j) && j.after_dot(g) == Some(x) && j1 == ItemLR1 {
            production_id: j.production_id,
            dot: #[verifier::truncate] ((j.dot + 1) as usize),
            lookahead: j.lookahead,
        };
        let i0 = Item { production_id: j.production_id, dot: j.dot };
        assert(item_cores(s).contains(i0));
        assert(i0.after_dot(g) == j.after_dot(g));
    }
    assert forall|i: Item| #[trigger] k0.contains(i) implies item_cores(k1).contains(i) by {
        let i0 = choose|i0: Item| #![trigger item_cores(s).contains(i0)] item_cores(s).contains(i0) && i0.after_dot(g) == Some(x) && i == Item {
            production_id: i0.production_id,
            dot: #[verifier::truncate] ((i0.dot + 1) as usize),
        };
        let j = choose|j: ItemLR1| #[trigger] s.contains(j) && j.production_id == i0.production_id && j.dot == i0.dot;
        assert(j.after_dot(g) == i0.after_dot(g));
        let j1 = ItemLR1 { production_id: j.production_id, dot: #[verifier::truncate] ((j.dot + 1) as usize), lookahead: j.lookahead };
        assert(k1.contains(j1));
    }
    assert(item_cores(k1) =~= k0);
    if lr1_next_symbol(g, s, x) {
        let j = choose|j: ItemLR1| #[trigger] s.contains(j) && j.after_dot(g) == Some(x);
        let i0 = Item { production_id: j.production_id, dot: j.dot };
        assert(item_cores(s).contains(i0));
        assert(i0.after_dot(g) == j.after_dot(g));
    }
    if lr0_next_symbol(g, item_cores(s), x) {
        let i0 = choose|i0: Item| #[trigger] item_cores(s).contains(i0) && i0.after_dot(g) == Some(x);
        let j = choose|j: ItemLR1| #[trigger] s.contains(j) && j.production_id == i0.production_id && j.dot == i0.dot;
        assert(j.after_dot(g) == i0.after_dot(g));
    }
}

/// GOTO on LR(1) items refines GOTO on their cores: `goto_lr1(s, x)` exists
/// exactly when `goto_lr0(cores(s), x)` does, and then its items, with their
/// lookaheads dropped, are the LR(0) result. This holds when every
/// non-terminal has a non-empty FIRST set.
pub proof fn lemma_goto_lr1_refines_goto_lr0(
    g: &Grammar,
    first: Map<NonTerminal, Set<Symbol>>,
    s: Set<ItemLR1>,
    x: Symbol,
    c1: Set<ItemLR1>,
    c0: Set<Item>,
)
    requires
        first_covers_suffixes(g, first),
        no_nonterminals(first),
        first_sets_nonempty(first),
        is_lr1_closure(g, first, lr1_kernel(g, s, x), c1),
        is_lr0_closure(g, lr0_kernel(g, item_cores(s), x), c0),
    ensures
        lr1_next_symbol(g, s, x) <==> lr0_next_symbol(g, item_cores(s), x),
        item_cores(c1) == c0,
{
    lemma_kernel_cores(g, s, x);
    lemma_closure_cores(g, first, lr1_kernel(g, s, x), c1, c0);
}

/// The item sets of the states of an LR(0) automaton.
pub open spec fn lr0_state_sets(d: &Dfa<State>) -> Set<Set<Item>> {
    Set::new(|c: Set<Item>| exists|i: int| 0 <= i < d.states@.len() && (#[trigger] d.states@[i]).contents() == c)
}

/// The cores of the states of an LR(1) automaton.
pub open spec fn lr1_state_cores(d: &Dfa<StateLR1>) -> Set<Set<Item>> {
    Set::new(|c: Set<Item>| exists|i: int| 0 <= i < d.states@.len() && item_cores((#[trigger] d.states@[i]).contents()) == c)
}

proof fn lemma_start_cores()
    ensures
        item_cores(set![ItemLR1 { production_id: 0, dot: 0, lookahead: Terminal::End }]) == set![Item { production_id: 0, dot: 0 }],
{
    let s1 = set![ItemLR1 { production_id: 0, dot: 0, lookahead: Terminal::End }];
    assert(s1.contains(ItemLR1 { production_id: 0, dot: 0, lookahead: Terminal::End }));
    assert(item_cores(s1) =~= set![Item { production_id: 0, dot: 0 }]);
}

/// Each state of the LR(1) automaton has, as its cores, the items of some
/// state of the LR(0) automaton.
pub(crate) proof fn lemma_lr1_state_in_lr0(g: &Grammar, first: Map<NonTerminal, Set<Symbol>>, d0: &Dfa<State>, d1: &Dfa<StateLR1>, j: int)
    requires
        first_covers_suffixes(g, first),
        no_nonterminals(first),
        first_sets_nonempty(first),
        is_lr0_automaton(g, d0),
        is_lr1_automaton(g, first, d1),
        d0.states@.len() <= usize::MAX,
        0 <= j < d1.states@.len(),
    ensures
        exists|i: int| 0 <= i < d0.states@.len() && (#[trigger] d0.states@[i]).contents() == item_cores(d1.states@[j].contents()),
    decreases j,
{
    let t0 = d0.transitions@;
    let t1 = d1.transitions@;
    if j == 0 {
        lemma_start_cores();
        lemma_closure_cores(g, first, set![ItemLR1 { production_id: 0, dot: 0, lookahead: Terminal::End }], d1.states@[0].contents(), d0.states@[0].contents());
    } else {
        assert(discovered(t1, j));
        let k = choose|k: int| #[trigger] first_reaches(t1, j, k);
        let i = t1[k].0.0 as int;
        let x = t1[k].0.1;
        let s1i = d1.states@[i].contents();
        assert(0 <= i < d1.states@.len());
        assert(lr1_next_symbol(g, s1i, x));
        assert(is_lr1_closure(g, first, lr1_kernel(g, s1i, x), d1.states@[j].contents()));
        lemma_lr1_state_in_lr0(g, first, d0, d1, i);
        let i0 = choose|i0: int| 0 <= i0 < d0.states@.len() && (#[trigger] d0.states@[i0]).contents() == item_cores(s1i);
        lemma_kernel_cores(g, s1i, x);
        let st0 = |q: int| d0.states@[q].contents();
        assert(lr0_next_symbol(g, st0(i0), x));
        assert(has_transition_from(t0, i0, x));
        let k0 = choose|k0: int| 0 <= k0 < t0.len() && (#[trigger] t0[k0]).0 == (i0 as usize, x);
        let j0 = t0[k0].1 as int;
        assert(0 <= j0 < d0.states@.len());
        assert(is_lr0_closure(g, lr0_kernel(g, d0.states@[i0].contents(), x), d0.states@[j0].contents()));
        lemma_closure_cores(g, first, lr1_kernel(g, s1i, x), d1.states@[j].contents(), d0.states@[j0].contents());
    }
}

/// Each state of the LR(0) automaton is the cores of some state of the LR(1)
/// automaton.
proof fn lemma_lr0_state_in_lr1(g: &Grammar, first: Map<NonTerminal, Set<Symbol>>, d0: &Dfa<State>, d1: &Dfa<StateLR1>, j: int)
    requires
        first_covers_suffixes(g, first),
        no_nonterminals(first),
        first_sets_nonempty(first),
        is_lr0_automaton(g, d0),
        is_lr1_automaton(g, first, d1),
        d1.states@.len() <= usize::MAX,
        0 <= j < d0.states@.len(),
    ensures
        exists|i: int| 0 <= i < d1.states@.len() && item_cores((#[trigger] d1.states@[i]).contents()) == d0.states@[j].contents(),
    decreases j,
{
    let t0 = d0.transitions@;
    let t1 = d1.transitions@;
    if j == 0 {
        lemma_start_cores();
        lemma_closure_cores(g, first, set![ItemLR1 { production_id: 0, dot: 0, lookahead: Terminal::End }], d1.states@[0].contents(), d0.states@[0].contents());
        assert(item_cores(d1.states@[0].contents()) == d0.states@[0].contents());
    } else {
        assert(discovered(t0, j));
        let k = choose|k: int| #[trigger] first_reaches(t0, j, k);
        let i = t0[k].0.0 as int;
        let x = t0[k].0.1;
        let s0i = d0.states@[i].contents();
        assert(0 <= i < d0.states@.len());
        assert(lr0_next_symbol(g, s0i, x));
        assert(is_lr0_closure(g, lr0_kernel(g, s0i, x), d0.states@[j].contents()));
        lemma_lr0_state_in_lr1(g, first, d0, d1, i);
        let i1 = choose|i1: int| 0 <= i1 < d1.states@.len() && item_cores((#[trigger] d1.states@[i1]).contents()) == s0i;
        let s1 = d1.states@[i1].contents();
        lemma_kernel_cores(g, s1, x);
        let st1 = |q: int| d1.states@[q].contents();
        assert(lr1_next_symbol(g, st1(i1), x));
        assert(has_transition_from(t1, i1, x));
        let k1 = choose|k1: int| 0 <= k1 < t1.len() && (#[trigger] t1[k1]).0 == (i1 as usize, x);
        let j1 = t1[k1].1 as int;
        assert(0 <= j1 < d1.states@.len());
        assert(is_lr1_closure(g, first, lr1_kernel(g, s1, x), d1.states@[j1].contents()));
        lemma_closure_cores(g, first, lr1_kernel(g, s1, x), d1.states@[j1].contents(), d0.states@[j].contents());
        assert(item_cores(d1.states@[j1].contents()) == d0.states@[j].contents());
    }
}

/// The LR(1) automaton refines the LR(0) automaton: dropping the lookaheads
/// of its states gives exactly the states of the LR(0) automaton. This holds
/// when every non-terminal has a non-empty FIRST set.
pub proof fn lemma_lr1_automaton_cores(g: &Grammar, first: Map<NonTerminal, Set<Symbol>>, d0: &Dfa<State>, d1: &Dfa<StateLR1>)
    requires
        first_covers_suffixes(g, first),
        no_nonterminals(first),
        first_sets_nonempty(first),
        is_lr0_automaton(g, d0),
        is_lr1_automaton(g, first, d1),
        d0.states@.len() <= usize::MAX,
        d1.states@.len() <= usize::MAX,
    ensures
        lr1_state_cores(d1) == lr0_state_sets(d0),
        d0.states@.len() <= d1.states@.len(),
{
    assert forall|c: Set<Item>| #[trigger] lr1_state_cores(d1).contains(c) implies lr0_state_sets(d0).contains(c) by {
        let i = choose|i: int| 0 <= i < d1.states@.len() && item_cores((#[trigger] d1.states@[i]).contents()) == c;
        lemma_lr1_state_in_lr0(g, first, d0, d1, i);
    }
    assert forall|c: Set<Item>| #[trigger] lr0_state_sets(d0).contains(c) implies lr1_state_cores(d1).contains(c) by {
        let i = choose|i: int| 0 <= i < d0.states@.len() && (#[trigger] d0.states@[i]).contents() == c;
        lemma_lr0_state_in_lr1(g, first, d0, d1, i);
    }
    assert(lr1_state_cores(d1) =~= lr0_state_sets(d0));
    let s0 = d0.states@.map_values(|st: State| st.contents());
    let s1 = d1.states@.map_values(|st: StateLR1| item_cores(st.contents()));
    assert(lr0_state_sets(d0) =~= s0.to_set()) by {
        assert forall|c: Set<Item>| #[trigger] lr0_state_sets(d0).contains(c) implies s0.to_set().contains(c) by {
            let i = choose|i: int| 0 <= i < d0.states@.len() && (#[trigger] d0.states@[i]).contents() == c;
            assert(s0[i] == c);
        }
        assert forall|c: Set<Item>| #[trigger] s0.to_set().contains(c) implies lr0_state_sets(d0).contains(c) by {
            let i = choose|i: int| 0 <= i < s0.len() && s0[i] == c;
            assert(d0.states@[i].contents() == c);
        }
    }
    assert(lr1_state_cores(d1) =~= s1.to_set()) by {
        assert forall|c: Set<Item>| #[trigger] lr1_state_cores(d1).contains(c) implies s1.to_set().contains(c) by {
            let i = choose|i: int| 0 <= i < d1.states@.len() && item_cores((#[trigger] d1.states@[i]).contents()) == c;
            assert(s1[i] == c);
        }
        assert forall|c: Set<Item>| #[trigger] s1.to_set().contains(c) implies lr1_state_cores(d1).contains(c) by {
            let i = choose|i: int| 0 <= i < s1.len() && s1[i] == c;
            assert(item_cores(d1.states@[i].contents()) == c);
        }
    }
    assert(s0.no_duplicates()) by {
        assert forall|a: int, b: int| 0 <= a < s0.len() && 0 <= b < s0.len() && a != b implies s0[a] != s0[b] by {
            if a < b {
                assert(d0.states@[a].contents() != d0.states@[b].contents());
            } else {
                assert(d0.states@[b].contents() != d0.states@[a].contents());
            }
        }
    }
    s0.unique_seq_to_set();
    s1.lemma_cardinality_of_set();
}

} // verus!
