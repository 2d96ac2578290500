use vstd::prelude::*;
use crate::dfa::{Dfa, transitions_sorted, has_transition_from, numbered_in_discovery_order, discovered, first_reaches, dfa_header, dfa_text, push_state_block, push_transitions, state_blocks, transition_line, transition_lines_show, lemma_dfa_text_shows_transitions};
use vstd::string::StringExecFns;
use crate::text::{concat_lines, decimal, join, join_strings, lines_text, push_decimal, string_views};
use crate::grammar::Grammar;
use crate::item_lr0::{Item, State, state_short_text, state_text};
use crate::symbol::NUM_SYMBOL_SLOTS;
use crate::symbol::{NUM_NONTERMINALS, NonTerminal, Symbol};
use crate::util::{lemma_index_set_bound, lemma_distinct_subsets_bound, two_pow};

verus! {

/// A set of LR(0) items is closed when, for every item whose dot stands before a
/// non-terminal `A`, it holds the initial item of every production of `A`.
pub open spec fn lr0_closed(g: &Grammar, s: Set<Item>) -> bool {
    forall|it: Item, p: int|
        #![trigger s.contains(it), g.lhs_of(p)]
        s.contains(it) && 0 <= p < g.num_prods() && it.after_dot(g) == Some(Symbol::NonTerminal(g.lhs_of(p)))
            ==> s.contains(Item { production_id: #[verifier::truncate] (p as usize), dot: 0 })
}

/// `c` is the LR(0) closure of `base`: the least closed set that holds `base`.
pub open spec fn is_lr0_closure(g: &Grammar, base: Set<Item>, c: Set<Item>) -> bool {
    &&& base.subset_of(c)
    &&& lr0_closed(g, c)
    &&& forall|t: Set<Item>| base.subset_of(t) && #[trigger] lr0_closed(g, t) ==> c.subset_of(t)
}

/// The items of `s` whose dot stands before `x`, with the dot moved past `x`.
pub open spec fn lr0_kernel(g: &Grammar, s: Set<Item>, x: Symbol) -> Set<Item> {
    Set::new(
        |it: Item|
            exists|j: Item|
                #![trigger s.contains(j)]
                s.contains(j) && j.after_dot(g) == Some(x) && it == Item {
                    production_id: j.production_id,
                    dot: #[verifier::truncate] ((j.dot + 1) as usize),
                },
    )
}

/// The symbols that stand right after a dot in some item of `s`.
pub open spec fn lr0_next_symbol(g: &Grammar, s: Set<Item>, x: Symbol) -> bool {
    exists|j: Item| #[trigger] s.contains(j) && j.after_dot(g) == Some(x)
}

/// Collects the items of `state` into a new worklist.
fn items_of(state: &State) -> (v: Vec<Item>)
    ensures
        v@ == state.elems(),
{
    let mut v: Vec<Item> = Vec::new();
    let mut i: usize = 0;
    while i < state.len()
        invariant
            i <= state.elems().len(),
            v@ == state.elems().subrange(0, i as int),
        decreases state.elems().len() - i,
    {
        v.push(state.get(i));
        i = i + 1;
    }
    assert(v@ =~= state.elems());
    v
}

/// The LR(0) closure of `state`: keeps adding the initial items of the
/// productions of every non-terminal that stands after a dot.
pub fn closure_lr0(state: &State, grammar: &Grammar) -> (c: State)
    requires
        state.wf(),
    ensures
        c.wf(),
        is_lr0_closure(grammar, state.contents(), c.contents()),
{
    let mut closure = state.duplicate();
    let mut work: Vec<Item> = items_of(state);
    let mut expanded: Vec<bool> = Vec::new();
    let mut n: usize = 0;
    while n < NUM_NONTERMINALS
        invariant
            n <= NUM_NONTERMINALS,
            expanded@.len() == n,
            forall|k: int| 0 <= k < n ==> !(#[trigger] expanded@[k]),
        decreases NUM_NONTERMINALS - n,
    {
        expanded.push(false);
        n = n + 1;
    }
    let ghost base = state.contents();
    let ghost mut done: Set<int> = Set::empty();
    assert(closure.contents() =~= base);
    while work.len() > 0
        invariant
            closure.wf(),
            expanded@.len() == NUM_NONTERMINALS,
            base.subset_of(closure.contents()),
            forall|t: Set<Item>| base.subset_of(t) && #[trigger] lr0_closed(grammar, t) ==> closure.contents().subset_of(t),
            forall|k: int| 0 <= k < work@.len() ==> closure.contents().contains(#[trigger] work@[k]),
            forall|it: Item|
                #[trigger] closure.contents().contains(it) && !work@.contains(it) ==> match it.after_dot(grammar) {
                    Some(Symbol::NonTerminal(a)) => expanded@[a.spec_index() as int],
                    _ => true,
                },
            forall|a: NonTerminal, q: int|
                #![trigger expanded@[a.spec_index() as int], grammar.lhs_of(q)]
                expanded@[a.spec_index() as int] && 0 <= q < grammar.num_prods() && grammar.lhs_of(q) == a
                    ==> closure.contents().contains(Item { production_id: #[verifier::truncate] (q as usize), dot: 0 }),
            forall|i: int| 0 <= i < NUM_NONTERMINALS ==> (#[trigger] expanded@[i] <==> done.contains(i)),
            forall|i: int| #[trigger] done.contains(i) ==> 0 <= i < NUM_NONTERMINALS,
        decreases NUM_NONTERMINALS - done.len(), work@.len(),
    {
        proof {
            lemma_index_set_bound(done, NUM_NONTERMINALS as int);
        }
        let ghost old_done = done;
        let ghost old_work = work@;
        let item = work.pop().unwrap();
        assert(old_work =~= work@.push(item));
        let after = item.symbol_after_dot(grammar);
        if let Some(Symbol::NonTerminal(ntr)) = after {
            let nt: NonTerminal = *ntr;
            let idx = nt.index();
            if !expanded[idx] {
                expanded.set(idx, true);
                proof {
                    done = done.insert(idx as int);
                }
                let mut p: usize = 0;
                while p < grammar.productions.len()
                    invariant
                        closure.wf(),
                        0 <= p <= grammar.num_prods(),
                        expanded@.len() == NUM_NONTERMINALS,
                        expanded@[nt.spec_index() as int],
                        item.after_dot(grammar) == Some(Symbol::NonTerminal(nt)),
                        closure.contents().contains(item),
                        base.subset_of(closure.contents()),
                        forall|t: Set<Item>| base.subset_of(t) && #[trigger] lr0_closed(grammar, t) ==> closure.contents().subset_of(t),
                        forall|k: int| 0 <= k < work@.len() ==> closure.contents().contains(#[trigger] work@[k]),
                        forall|it: Item|
                            #[trigger] closure.contents().contains(it) && !work@.contains(it) ==> match it.after_dot(grammar) {
                                Some(Symbol::NonTerminal(a)) => expanded@[a.spec_index() as int],
                                _ => true,
                            },
                        forall|a: NonTerminal, q: int|
                            #![trigger expanded@[a.spec_index() as int], grammar.lhs_of(q)]
                            expanded@[a.spec_index() as int] && 0 <= q < grammar.num_prods() && grammar.lhs_of(q) == a
                                && (a != nt || q < p) ==> closure.contents().contains(Item { production_id: #[verifier::truncate] (q as usize), dot: 0 }),
                    decreases grammar.num_prods() - p,
                {
                    if grammar.productions[p].lhs == nt {
                        let new_item = Item::new(p, 0);
                        let ghost before = closure.contents();
                        let ghost old_w = work@;
                        if closure.insert(new_item) {
                            work.push(new_item);
                            assert(work@[work@.len() - 1] == new_item);
                        }
                        assert forall|it: Item|
                            #[trigger] closure.contents().contains(it) && !work@.contains(it) implies match it.after_dot(grammar) {
                                Some(Symbol::NonTerminal(a)) => expanded@[a.spec_index() as int],
                                _ => true,
                            } by {
                            if it != new_item {
                                assert(before.contains(it));
                                if old_w.contains(it) {
                                    let k = choose|k: int| 0 <= k < old_w.len() && old_w[k] == it;
                                    assert(work@[k] == it);
                                }
                            }
                        }
                        assert forall|t: Set<Item>| base.subset_of(t) && #[trigger] lr0_closed(grammar, t) implies closure.contents().subset_of(t) by {
                            assert(before.subset_of(t));
                            assert(t.contains(item));
                            assert(grammar.lhs_of(p as int) == nt);
                        }
                    }
                    p = p + 1;
                }
                proof {
                    lemma_index_set_bound(done, NUM_NONTERMINALS as int);
                    assert(!old_done.contains(idx as int));
                }
            }
        }
    }
    assert forall|it: Item, p: int|
        #![trigger closure.contents().contains(it), grammar.lhs_of(p)]
        closure.contents().contains(it) && 0 <= p < grammar.num_prods() && it.after_dot(grammar) == Some(Symbol::NonTerminal(grammar.lhs_of(p)))
            implies closure.contents().contains(Item { production_id: #[verifier::truncate] (p as usize), dot: 0 }) by {
        assert(!work@.contains(it));
        let a = grammar.lhs_of(p);
        assert(expanded@[a.spec_index() as int]);
    }
    closure
}


/// The items of `state` whose dot stands before `x`, with the dot moved past it.
fn kernel_lr0(state: &State, symbol: &Symbol, grammar: &Grammar) -> (k: State)
    requires
        state.wf(),
    ensures
        k.wf(),
        k.contents() == lr0_kernel(grammar, state.contents(), *symbol),
{
    let mut result = State::new();
    let mut i: usize = 0;
    let ghost s = state.elems();
    while i < state.len()
        invariant
            result.wf(),
            i <= s.len(),
            s == state.elems(),
            forall|it: Item| #[trigger] result.contents().contains(it) <==> exists|m: int|
                0 <= m < i && s[m].after_dot(grammar) == Some(*symbol) && it == (Item {
                    production_id: s[m].production_id,
                    dot: #[verifier::truncate] ((s[m].dot + 1) as usize),
                }),
        decreases s.len() - i,
    {
        let item = state.get(i);
        let ghost before = result.contents();
        match item.symbol_after_dot(grammar) {
            Some(cur) => {
                if *cur == *symbol {
                    let next = item.advance_dot(grammar).unwrap();
                    result.insert(next);
                    assert forall|it: Item| #[trigger] result.contents().contains(it) <==> exists|m: int|
                        0 <= m < i + 1 && s[m].after_dot(grammar) == Some(*symbol) && it == (Item {
                            production_id: s[m].production_id,
                            dot: #[verifier::truncate] ((s[m].dot + 1) as usize),
                        }) by {
                        if it == next {
                            assert(s[i as int] == item);
                        }
                    }
                }
            },
            None => {},
        }
        i = i + 1;
    }
    assert forall|it: Item| #[trigger] result.contents().contains(it) <==> lr0_kernel(grammar, state.contents(), *symbol).contains(it) by {
        if result.contents().contains(it) {
            let m = choose|m: int|
                0 <= m < s.len() && s[m].after_dot(grammar) == Some(*symbol) && it == (Item {
                    production_id: s[m].production_id,
                    dot: #[verifier::truncate] ((s[m].dot + 1) as usize),
                });
            assert(state.contents().contains(s[m]));
        }
        if lr0_kernel(grammar, state.contents(), *symbol).contains(it) {
            let j = choose|j: Item|
                state.contents().contains(j) && j.after_dot(grammar) == Some(*symbol) && it == Item {
                    production_id: j.production_id,
                    dot: #[verifier::truncate] ((j.dot + 1) as usize),
                };
            let m = choose|m: int| 0 <= m < s.len() && s[m] == j;
        }
    }
    assert(result.contents() =~= lr0_kernel(grammar, state.contents(), *symbol));
    result
}

/// The empty set is closed, so the closure of the empty set is empty.
proof fn lemma_closure_of_empty(g: &Grammar, c: Set<Item>)
    requires
        is_lr0_closure(g, Set::empty(), c),
    ensures
        c == Set::<Item>::empty(),
{
    assert(lr0_closed(g, Set::<Item>::empty()));
    assert(Set::<Item>::empty().subset_of(Set::<Item>::empty()));
    assert(c =~= Set::<Item>::empty());
}

/// GOTO: moves the dot past `symbol` in every item where it can, then takes the
/// closure of the result. `None` when no item has `symbol` after its dot.
pub fn goto_lr0(state: &State, symbol: &Symbol, grammar: &Grammar) -> (r: Option<State>)
    requires
        state.wf(),
    ensures
        r is None <==> lr0_kernel(grammar, state.contents(), *symbol) == Set::<Item>::empty(),
        r is None <==> !lr0_next_symbol(grammar, state.contents(), *symbol),
        r matches Some(s) ==> s.wf() && is_lr0_closure(grammar, lr0_kernel(grammar, state.contents(), *symbol), s.contents()),
{
    let kernel = kernel_lr0(state, symbol, grammar);
    let closure = closure_lr0(&kernel, grammar);
    let ghost k = lr0_kernel(grammar, state.contents(), *symbol);
    proof {
        if lr0_next_symbol(grammar, state.contents(), *symbol) {
            let j = choose|j: Item| #[trigger] state.contents().contains(j) && j.after_dot(grammar) == Some(*symbol);
            assert(k.contains(Item { production_id: j.production_id, dot: #[verifier::truncate] ((j.dot + 1) as usize) }));
        } else {
            assert(k =~= Set::<Item>::empty());
        }
        if k == Set::<Item>::empty() {
            lemma_closure_of_empty(grammar, closure.contents());
        }
    }
    if closure.is_empty() {
        None
    } else {
        Some(closure)
    }
}

/// Every LR(0) item of the grammar, together with the start item.
pub open spec fn lr0_universe(g: &Grammar) -> Set<Item> {
    Set::new(
        |it: Item|
            (g.valid_prod(it.production_id as int) && it.dot <= g.rhs_of(it.production_id as int).len())
                || it == (Item { production_id: 0, dot: 0 }),
    )
}

spec fn items_upto(g: &Grammar, n: int) -> Seq<Item>
    decreases n,
{
    if n <= 0 {
        Seq::empty()
    } else {
        items_upto(g, n - 1) + Seq::new(
            (g.rhs_of(n - 1).len() + 1) as nat,
            |d: int| Item { production_id: (n - 1) as usize, dot: d as usize },
        )
    }
}

proof fn lemma_items_upto(g: &Grammar, n: int)
    requires
        n <= g.num_prods(),
    ensures
        forall|it: Item|
            (it.production_id < n && it.dot <= g.rhs_of(it.production_id as int).len()) ==> #[trigger] items_upto(g, n).contains(it),
    decreases n,
{
    if n > 0 {
        lemma_items_upto(g, n - 1);
        let prev = items_upto(g, n - 1);
        let tail = Seq::new(
            (g.rhs_of(n - 1).len() + 1) as nat,
            |d: int| Item { production_id: (n - 1) as usize, dot: d as usize },
        );
        assert forall|it: Item|
            (it.production_id < n && it.dot <= g.rhs_of(it.production_id as int).len()) implies #[trigger] items_upto(g, n).contains(it) by {
            if it.production_id < n - 1 {
                assert(prev.contains(it));
                let k = choose|k: int| 0 <= k < prev.len() && prev[k] == it;
                assert(items_upto(g, n)[k] == it);
            } else {
                assert(tail[it.dot as int] == it);
                assert(items_upto(g, n)[prev.len() + it.dot] == it);
            }
        }
    }
}

proof fn lemma_lr0_universe(g: &Grammar)
    ensures
        lr0_universe(g).finite(),
        lr0_closed(g, lr0_universe(g)),
{
    lemma_items_upto(g, g.num_prods() as int);
    let e = items_upto(g, g.num_prods() as int).to_set().insert(Item { production_id: 0, dot: 0 });
    assert(lr0_universe(g).subset_of(e));
    vstd::set_lib::lemma_len_subset(lr0_universe(g), e);
}

/// The closure of a set of grammar items holds only grammar items.
proof fn lemma_closure_in_universe(g: &Grammar, base: Set<Item>, c: Set<Item>)
    requires
        is_lr0_closure(g, base, c),
        base.subset_of(lr0_universe(g)),
    ensures
        c.subset_of(lr0_universe(g)),
{
    lemma_lr0_universe(g);
}

proof fn lemma_kernel_in_universe(g: &Grammar, s: Set<Item>, x: Symbol)
    ensures
        lr0_kernel(g, s, x).subset_of(lr0_universe(g)),
{
    assert forall|it: Item| #[trigger] lr0_kernel(g, s, x).contains(it) implies lr0_universe(g).contains(it) by {
        let j = choose|j: Item|
            s.contains(j) && j.after_dot(g) == Some(x) && it == Item {
                production_id: j.production_id,
                dot: #[verifier::truncate] ((j.dot + 1) as usize),
            };
    }
}

/// The automaton is the canonical collection of LR(0) item sets of the grammar.
pub open spec fn is_lr0_automaton(g: &Grammar, d: &Dfa<State>) -> bool {
    let n = d.states@.len();
    let t = d.transitions@;
    let st = |i: int| d.states@[i].contents();
    &&& n >= 1
    &&& forall|i: int| 0 <= i < n ==> (#[trigger] d.states@[i]).wf()
    &&& is_lr0_closure(g, set![Item { production_id: 0, dot: 0 }], st(0))
    &&& forall|k: int|
        0 <= k < t.len() ==> {
            let i = (#[trigger] t[k]).0.0 as int;
            let x = t[k].0.1;
            let j = t[k].1 as int;
            &&& 0 <= i < n
            &&& 0 <= j < n
            &&& lr0_next_symbol(g, st(i), x)
            &&& is_lr0_closure(g, lr0_kernel(g, st(i), x), st(j))
        }
    &&& forall|i: int, x: Symbol| 0 <= i < n && #[trigger] lr0_next_symbol(g, st(i), x) ==> has_transition_from(t, i, x)
    &&& transitions_sorted(t)
    &&& forall|a: int, b: int| 0 <= a < b < n ==> (#[trigger] d.states@[a]).contents() != (#[trigger] d.states@[b]).contents()
    &&& numbered_in_discovery_order(t, n as int)
}

/// Finds a state with the same items as `s`.
fn find_state(states: &Vec<State>, s: &State) -> (r: Option<usize>)
    requires
        s.wf(),
        forall|i: int| 0 <= i < states@.len() ==> (#[trigger] states@[i]).wf(),
    ensures
        r matches Some(j) ==> j < states@.len() && states@[j as int].contents() == s.contents(),
        r is None ==> forall|i: int| 0 <= i < states@.len() ==> (#[trigger] states@[i]).contents() != s.contents(),
{
    let mut i: usize = 0;
    while i < states.len()
        invariant
            i <= states@.len(),
            s.wf(),
            forall|k: int| 0 <= k < states@.len() ==> (#[trigger] states@[k]).wf(),
            forall|k: int| 0 <= k < i ==> (#[trigger] states@[k]).contents() != s.contents(),
        decreases states@.len() - i,
    {
        if states[i].same_items(s) {
            return Some(i);
        }
        i = i + 1;
    }
    None
}

/// Builds the LR(0) automaton: starting from the closure of the augmented start
/// item, expands every state once, on every symbol that follows a dot, in symbol
/// order; new states are numbered in the order they are found.
pub fn build_dfa_lr0(grammar: &Grammar) -> (d: Dfa<State>)
    ensures
        is_lr0_automaton(grammar, &d),
{
    let mut start = State::new();
    start.insert(Item::new(0, 0));
    let start_closure = closure_lr0(&start, grammar);
    assert(start.contents() =~= set![Item { production_id: 0, dot: 0 }]);
    let mut states: Vec<State> = Vec::new();
    states.push(start_closure);
    let mut transitions: Vec<((usize, Symbol), usize)> = Vec::new();
    let ghost u = lr0_universe(grammar);
    proof {
        lemma_lr0_universe(grammar);
        assert(start.contents().subset_of(u));
        lemma_closure_in_universe(grammar, start.contents(), states@[0].contents());
    }
    let ghost bound = two_pow(u.len()) as int;
    let mut index: usize = 0;
    while index < states.len()
        invariant
            u == lr0_universe(grammar),
            u.finite(),
            bound == two_pow(u.len()) as int,
            index <= states@.len(),
            states@.len() >= 1,
            forall|i: int| 0 <= i < states@.len() ==> (#[trigger] states@[i]).wf(),
            forall|i: int| 0 <= i < states@.len() ==> (#[trigger] states@[i]).contents().subset_of(u),
            is_lr0_closure(grammar, set![Item { production_id: 0, dot: 0 }], states@[0].contents()),
            forall|k: int|
                0 <= k < transitions@.len() ==> {
                    let i = (#[trigger] transitions@[k]).0.0 as int;
                    let x = transitions@[k].0.1;
                    let j = transitions@[k].1 as int;
                    &&& 0 <= i < index
                    &&& 0 <= j < states@.len()
                    &&& lr0_next_symbol(grammar, states@[i].contents(), x)
                    &&& is_lr0_closure(grammar, lr0_kernel(grammar, states@[i].contents(), x), states@[j].contents())
                },
            forall|i: int, x: Symbol| 0 <= i < index && #[trigger] lr0_next_symbol(grammar, states@[i].contents(), x) ==> has_transition_from(transitions@, i, x),
            transitions_sorted(transitions@),
            forall|a: int, b: int| 0 <= a < b < states@.len() ==> (#[trigger] states@[a]).contents() != (#[trigger] states@[b]).contents(),
            numbered_in_discovery_order(transitions@, states@.len() as int),
        decreases bound - index,
    {
        proof {
            let cs = states@.map_values(|s: State| s.contents());
            assert forall|a: int, b: int| 0 <= a < cs.len() && 0 <= b < cs.len() && a != b implies cs[a] != cs[b] by {
                if a < b {
                    assert(states@[a].contents() != states@[b].contents());
                } else {
                    assert(states@[b].contents() != states@[a].contents());
                }
            }
            assert forall|i: int| 0 <= i < cs.len() implies (#[trigger] cs[i]).subset_of(u) by {
                assert(states@[i].contents().subset_of(u));
            }
            lemma_distinct_subsets_bound(u, cs);
        }
        let state = states[index].duplicate();
        let mut slot: usize = 0;
        while slot < NUM_SYMBOL_SLOTS
            invariant
                u == lr0_universe(grammar),
                u.finite(),
                index < states@.len(),
                state.wf(),
                state.contents() == states@[index as int].contents(),
                slot <= NUM_SYMBOL_SLOTS,
                forall|i: int| 0 <= i < states@.len() ==> (#[trigger] states@[i]).wf(),
                forall|i: int| 0 <= i < states@.len() ==> (#[trigger] states@[i]).contents().subset_of(u),
                is_lr0_closure(grammar, set![Item { production_id: 0, dot: 0 }], states@[0].contents()),
                forall|k: int|
                    0 <= k < transitions@.len() ==> {
                        let i = (#[trigger] transitions@[k]).0.0 as int;
                        let x = transitions@[k].0.1;
                        let j = transitions@[k].1 as int;
                        &&& 0 <= i <= index
                        &&& (i == index ==> x.spec_slot() < slot)
                        &&& 0 <= j < states@.len()
                        &&& lr0_next_symbol(grammar, states@[i].contents(), x)
                        &&& is_lr0_closure(grammar, lr0_kernel(grammar, states@[i].contents(), x), states@[j].contents())
                    },
                forall|i: int, x: Symbol| 0 <= i < index && #[trigger] lr0_next_symbol(grammar, states@[i].contents(), x) ==> has_transition_from(transitions@, i, x),
                forall|x: Symbol| x.spec_slot() < slot && #[trigger] lr0_next_symbol(grammar, states@[index as int].contents(), x) ==> has_transition_from(transitions@, index as int, x),
                transitions_sorted(transitions@),
                forall|a: int, b: int| 0 <= a < b < states@.len() ==> (#[trigger] states@[a]).contents() != (#[trigger] states@[b]).contents(),
                numbered_in_discovery_order(transitions@, states@.len() as int),
            decreases NUM_SYMBOL_SLOTS - slot,
        {
            let symbol = Symbol::from_slot(slot);
            let ghost t_old = transitions@;
            let ghost s_old = states@;
            match goto_lr0(&state, &symbol, grammar) {
                None => {},
                Some(new_state) => {
                    proof {
                        lemma_kernel_in_universe(grammar, state.contents(), symbol);
                        lemma_closure_in_universe(grammar, lr0_kernel(grammar, state.contents(), symbol), new_state.contents());
                    }
                    let target = match find_state(&states, &new_state) {
                        Some(j) => j,
                        None => {
                            states.push(new_state);
                            assert(states@[states@.len() - 1] == new_state);
                            assert forall|a: int, b: int| 0 <= a < b < states@.len() implies (#[trigger] states@[a]).contents() != (#[trigger] states@[b]).contents() by {
                                if b == states@.len() - 1 {
                                    assert(s_old[a] == states@[a]);
                                } else {
                                    assert(s_old[a] == states@[a] && s_old[b] == states@[b]);
                                }
                            }
                            states.len() - 1
                        },
                    };
                    transitions.push(((index, symbol), target));
                    let ghost t = transitions@;
                    assert(t[t.len() - 1] == ((index, symbol), target));
                    assert forall|k: int| 0 <= k < t.len() - 1 implies #[trigger] t[k] == t_old[k] by {}
                    assert forall|a: int, b: int| 0 <= a < b < t.len() implies {
                        let ka = (#[trigger] t[a]).0;
                        let kb = (#[trigger] t[b]).0;
                        ka.0 < kb.0 || (ka.0 == kb.0 && ka.1.spec_slot() < kb.1.spec_slot())
                    } by {
                        if b == t.len() - 1 {
                            assert(t[a] == t_old[a]);
                        } else {
                            assert(t[a] == t_old[a] && t[b] == t_old[b]);
                        }
                    }
                    assert forall|j: int| 1 <= j < states@.len() implies #[trigger] discovered(t, j) by {
                        if j < s_old.len() {
                            assert(discovered(t_old, j));
                            let k = choose|k: int| #[trigger] first_reaches(t_old, j, k);
                            assert forall|m: int| 0 <= m < k implies (#[trigger] t[m]).1 < j by {
                                assert(t[m] == t_old[m]);
                            }
                            assert(first_reaches(t, j, k));
                        } else {
                            let k = t.len() - 1;
                            assert forall|m: int| 0 <= m < k implies (#[trigger] t[m]).1 < j by {
                                assert(t[m] == t_old[m]);
                            }
                            assert(first_reaches(t, j, k));
                        }
                    }
                    assert forall|i: int, x: Symbol| 0 <= i < index && #[trigger] lr0_next_symbol(grammar, states@[i].contents(), x) implies has_transition_from(t, i, x) by {
                        assert(states@[i] == s_old[i]);
                        assert(has_transition_from(t_old, i, x));
                        let k = choose|k: int| 0 <= k < t_old.len() && (#[trigger] t_old[k]).0 == (i as usize, x);
                        assert(t[k] == t_old[k]);
                    }
                    assert forall|x: Symbol| x.spec_slot() < slot + 1 && #[trigger] lr0_next_symbol(grammar, states@[index as int].contents(), x) implies has_transition_from(t, index as int, x) by {
                        if x.spec_slot() < slot {
                            assert(has_transition_from(t_old, index as int, x));
                            let k = choose|k: int| 0 <= k < t_old.len() && (#[trigger] t_old[k]).0 == (index, x);
                            assert(t[k] == t_old[k]);
                        } else {
                            x.lemma_slot();
                            assert(x == symbol);
                            assert(t[t.len() - 1].0 == (index, x));
                        }
                    }
                },
            }
            proof {
                if !lr0_next_symbol(grammar, state.contents(), symbol) {
                    assert forall|x: Symbol| x.spec_slot() < slot + 1 && #[trigger] lr0_next_symbol(grammar, states@[index as int].contents(), x) implies has_transition_from(transitions@, index as int, x) by {
                        if x.spec_slot() == slot {
                            x.lemma_slot();
                        }
                    }
                }
            }
            slot = slot + 1;
        }
        proof {
            assert forall|i: int, x: Symbol| 0 <= i < index + 1 && #[trigger] lr0_next_symbol(grammar, states@[i].contents(), x) implies has_transition_from(transitions@, i, x) by {
                if i == index {
                    x.lemma_slot();
                }
            }
        }
        index = index + 1;
    }
    Dfa { states, transitions }
}

/// The LR(0) automaton as text: the number of states, each state with its
/// items spelled out, then the transitions in order.
pub fn format_dfa_lr0(dfa: &Dfa<State>, grammar: &Grammar) -> (s: String)
    ensures
        s@ == dfa_text(dfa.states@.map_values(|q: State| state_text(grammar, q.elems())), dfa.transitions@),
        exists|lines: Seq<Seq<char>>| s@ == join(lines, "\n"@) && transition_lines_show(lines, dfa.transitions@),
{
    let ghost texts = dfa.states@.map_values(|q: State| state_text(grammar, q.elems()));
    let mut lines = dfa_header(dfa.states.len());
    let ghost head = string_views(lines@);
    let mut i: usize = 0;
    while i < dfa.states.len()
        invariant
            texts == dfa.states@.map_values(|q: State| state_text(grammar, q.elems())),
            i <= dfa.states@.len(),
            string_views(lines@) == head + state_blocks(texts, i as int),
        decreases dfa.states@.len() - i,
    {
        let text = dfa.states[i].format_with_grammar(grammar);
        push_state_block(&mut lines, i, text);
        i = i + 1;
        assert(string_views(lines@) =~= head + state_blocks(texts, i as int));
    }
    push_transitions(&mut lines, &dfa.transitions);
    assert(string_views(lines@) =~= head + state_blocks(texts, texts.len() as int) + seq!["transitions:"@]
        + dfa.transitions@.map_values(|t: ((usize, Symbol), usize)| transition_line(t)));
    proof {
        lemma_dfa_text_shows_transitions(texts, dfa.transitions@);
    }
    join_strings(&lines, "\n")
}

/// The LR(0) closure of a set is unique: two closures of the same set are equal.
pub proof fn lemma_lr0_closure_unique(g: &Grammar, base: Set<Item>, c1: Set<Item>, c2: Set<Item>)
    requires
        is_lr0_closure(g, base, c1),
        is_lr0_closure(g, base, c2),
    ensures
        c1 == c2,
{
    assert(c1.subset_of(c2));
    assert(c2.subset_of(c1));
    assert(c1 =~= c2);
}

/// Closing is idempotent: the closure of a closure is itself.
pub proof fn lemma_lr0_closure_idempotent(g: &Grammar, base: Set<Item>, c: Set<Item>)
    requires
        is_lr0_closure(g, base, c),
    ensures
        is_lr0_closure(g, c, c),
{
}

/// Closing is monotone: a larger set has a larger closure.
pub proof fn lemma_lr0_closure_monotone(g: &Grammar, b1: Set<Item>, c1: Set<Item>, b2: Set<Item>, c2: Set<Item>)
    requires
        is_lr0_closure(g, b1, c1),
        is_lr0_closure(g, b2, c2),
        b1.subset_of(b2),
    ensures
        c1.subset_of(c2),
{
    assert(b1.subset_of(c2));
}

/// A transition in short form: `I0 -- id --> I5`.
pub open spec fn transition_short_line(t: ((usize, Symbol), usize)) -> Seq<char> {
    "I"@ + decimal(t.0.0 as nat) + " -- "@ + t.0.1.spec_name() + " --> I"@ + decimal(t.1 as nat)
}

/// The heading and short text of each of the first `k` states.
pub open spec fn short_state_lines(states: Seq<State>, k: int) -> Seq<Seq<char>>
    decreases k,
{
    if k <= 0 {
        Seq::empty()
    } else {
        short_state_lines(states, k - 1) + seq!["I"@ + decimal((k - 1) as nat) + ":"@, state_short_text(states[k - 1].elems())]
    }
}

/// The automaton in short form: the number of states, each state with its
/// items as `#id @ dot`, and the transitions, every line ended by a break.
pub open spec fn dfa_short_text(d: &Dfa<State>) -> Seq<char> {
    lines_text(
        seq!["states: "@ + decimal(d.states@.len())] + short_state_lines(d.states@, d.states@.len() as int) + seq!["transitions:"@]
            + d.transitions@.map_values(|t: ((usize, Symbol), usize)| transition_short_line(t)),
    )
}

impl Dfa<State> {
    /// The automaton as text, with items in short form.
    pub fn text(&self) -> (s: String)
        ensures
            s@ == dfa_short_text(self),
    {
        let mut lines: Vec<String> = Vec::new();
        let mut head = String::from_str("states: ");
        push_decimal(&mut head, self.states.len());
        lines.push(head);
        let ghost start = string_views(lines@);
        let mut i: usize = 0;
        while i < self.states.len()
            invariant
                i <= self.states@.len(),
                string_views(lines@) == start + short_state_lines(self.states@, i as int),
            decreases self.states@.len() - i,
        {
            let mut label = String::from_str("I");
            push_decimal(&mut label, i);
            label.append(":");
            let ghost before = string_views(lines@);
            let ghost lv = label@;
            lines.push(label);
            let t = self.states[i].text();
            let ghost tv = t@;
            lines.push(t);
            assert(string_views(lines@) =~= before + seq![lv, tv]);
            i = i + 1;
            assert(string_views(lines@) =~= start + short_state_lines(self.states@, i as int));
        }
        let ghost mid = string_views(lines@);
        lines.push(String::from_str("transitions:"));
        let ghost texts = self.transitions@.map_values(|t: ((usize, Symbol), usize)| transition_short_line(t));
        let ghost head2 = string_views(lines@);
        assert(head2 =~= mid + seq!["transitions:"@]);
        let mut k: usize = 0;
        while k < self.transitions.len()
            invariant
                texts == self.transitions@.map_values(|t: ((usize, Symbol), usize)| transition_short_line(t)),
                k <= self.transitions@.len(),
                string_views(lines@) == head2 + texts.take(k as int),
            decreases self.transitions@.len() - k,
        {
            let ((source, symbol), target) = self.transitions[k];
            let mut line = String::from_str("I");
            push_decimal(&mut line, source);
            line.append(" -- ");
            line.append(symbol.name());
            line.append(" --> I");
            push_decimal(&mut line, target);
            let ghost before = string_views(lines@);
            lines.push(line);
            assert(string_views(lines@) =~= before.push(texts[k as int]));
            assert(texts.take(k + 1) =~= texts.take(k as int).push(texts[k as int]));
            k = k + 1;
        }
        assert(texts.take(self.transitions@.len() as int) =~= texts);
        assert(string_views(lines@) =~= seq!["states: "@ + decimal(self.states@.len())] + short_state_lines(self.states@, self.states@.len() as int)
            + seq!["transitions:"@] + texts);
        concat_lines(&lines)
    }
}

} // verus!
