use vstd::prelude::*;
use crate::dfa::{Dfa, transitions_sorted, has_transition_from, numbered_in_discovery_order, discovered, first_reaches, dfa_header, dfa_text, push_state_block, push_transitions, state_blocks, transition_line, transition_lines_show, lemma_dfa_text_shows_transitions};
use crate::text::{join, join_strings, string_views};
use crate::first_follow::{SymbolSetMap, is_first_sets, first_seq, first_seq_defined, all_defined, lemma_all_defined, first_of_sequence, no_nonterminals, lemma_first_seq_terminal_end};
use crate::grammar::Grammar;
use crate::item_lr1::{ItemLR1, StateLR1, state_lr1_text};
use crate::symbol::{NUM_SYMBOL_SLOTS, NUM_TERMINALS, NonTerminal, Symbol, Terminal};
use crate::util::{lemma_index_set_bound, lemma_distinct_subsets_bound, two_pow};

verus! {

/// FIRST of what follows each non-terminal in a right-hand side can be
/// computed: every non-terminal reached there past symbols that can vanish
/// has a FIRST set.
pub open spec fn first_covers_suffixes(g: &Grammar, first: Map<NonTerminal, Set<Symbol>>) -> bool {
    forall|p: int, k: int|
        0 <= p < g.num_prods() && 0 <= k < g.rhs_of(p).len() && (#[trigger] g.rhs_of(p)[k]) is NonTerminal
            ==> first_seq_defined(first, g.rhs_of(p).subrange(k + 1, g.rhs_of(p).len() as int))
}

/// A sequence whose FIRST can be computed still can with a terminal appended.
pub proof fn lemma_defined_push_terminal(first: Map<NonTerminal, Set<Symbol>>, s: Seq<Symbol>, t: Terminal)
    requires
        first_seq_defined(first, s),
    ensures
        first_seq_defined(first, s.push(Symbol::Terminal(t))),
    decreases s.len(),
{
    let w = s.push(Symbol::Terminal(t));
    if s.len() == 0 {
        assert(w[0] == Symbol::Terminal(t));
    } else {
        assert(w[0] == s[0]);
        assert(w.drop_first() =~= s.drop_first().push(Symbol::Terminal(t)));
        match s[0] {
            Symbol::NonTerminal(a) => {
                if first[a].contains(Symbol::Epsilon) {
                    lemma_defined_push_terminal(first, s.drop_first(), t);
                }
            },
            Symbol::Epsilon => lemma_defined_push_terminal(first, s.drop_first(), t),
            _ => {},
        }
    }
}

/// The lookaheads that item `[A -> alpha . B beta, a]` passes to the items of
/// `B`: FIRST(beta a).
pub open spec fn lr1_lookaheads(g: &Grammar, first: Map<NonTerminal, Set<Symbol>>, it: ItemLR1) -> Set<Symbol> {
    first_seq(
        first,
        g.rhs_of(it.production_id as int).subrange(it.dot + 1, g.rhs_of(it.production_id as int).len() as int).push(
            Symbol::Terminal(it.lookahead),
        ),
    )
}

/// Every production `p` of the non-terminal after the dot of `it` has its
/// initial item in `s` with every lookahead of `it`.
pub open spec fn lr1_successors_in(g: &Grammar, first: Map<NonTerminal, Set<Symbol>>, s: Set<ItemLR1>, it: ItemLR1) -> bool {
    forall|p: int, b: Terminal|
        #![trigger g.lhs_of(p), lr1_lookaheads(g, first, it).contains(Symbol::Terminal(b))]
        0 <= p < g.num_prods() && it.after_dot(g) == Some(Symbol::NonTerminal(g.lhs_of(p)))
            && lr1_lookaheads(g, first, it).contains(Symbol::Terminal(b)) ==> s.contains(
            ItemLR1 { production_id: #[verifier::truncate] (p as usize), dot: 0, lookahead: b },
        )
}

/// A set of LR(1) items is closed when every item passes its lookaheads to the
/// initial items of the non-terminal after its dot.
pub open spec fn lr1_closed(g: &Grammar, first: Map<NonTerminal, Set<Symbol>>, s: Set<ItemLR1>) -> bool {
    forall|it: ItemLR1| #[trigger] s.contains(it) ==> lr1_successors_in(g, first, s, it)
}

/// `c` is the LR(1) closure of `base`: the least closed set that holds `base`.
pub open spec fn is_lr1_closure(g: &Grammar, first: Map<NonTerminal, Set<Symbol>>, base: Set<ItemLR1>, c: Set<ItemLR1>) -> bool {
    &&& base.subset_of(c)
    &&& lr1_closed(g, first, c)
    &&& forall|t: Set<ItemLR1>| base.subset_of(t) && #[trigger] lr1_closed(g, first, t) ==> c.subset_of(t)
}

fn items_of_lr1(state: &StateLR1) -> (v: Vec<ItemLR1>)
    ensures
        v@ == state.elems(),
{
    let mut v: Vec<ItemLR1> = Vec::new();
    let mut i: usize = 0;
    while i < state.len()
        invariant
            i <= state.elems().len(),
            v@ == state.elems().subrange(0, i as int),
        decreases state.elems().len() - i,
    {
        v.push(state.get(i));
        i = i + 1;
    }
    assert(v@ =~= state.elems());
    v
}

/// The symbols after the non-terminal that follows the dot, then the lookahead.
fn beta_with_lookahead(item: &ItemLR1, grammar: &Grammar) -> (v: Vec<Symbol>)
    requires
        item.after_dot(grammar) is Some,
        item.dot < usize::MAX,
    ensures
        v@ == grammar.rhs_of(item.production_id as int).subrange(
            item.dot + 1,
            grammar.rhs_of(item.production_id as int).len() as int,
        ).push(Symbol::Terminal(item.lookahead)),
{
    let rhs = &grammar.productions[item.production_id].rhs;
    let mut v: Vec<Symbol> = Vec::new();
    let mut k: usize = item.dot + 1;
    while k < rhs.len()
        invariant
            item.dot + 1 <= k <= rhs@.len(),
            rhs == &grammar.productions@[item.production_id as int].rhs,
            v@ == rhs@.subrange(item.dot + 1, k as int),
        decreases rhs@.len() - k,
    {
        v.push(rhs[k]);
        k = k + 1;
    }
    v.push(Symbol::Terminal(item.lookahead));
    v
}

proof fn lemma_lookaheads_defined(g: &Grammar, first: Map<NonTerminal, Set<Symbol>>, it: ItemLR1)
    requires
        first_covers_suffixes(g, first),
        it.after_dot(g) matches Some(Symbol::NonTerminal(_)),
    ensures
        first_seq_defined(
            first,
            g.rhs_of(it.production_id as int).subrange(it.dot + 1, g.rhs_of(it.production_id as int).len() as int).push(
                Symbol::Terminal(it.lookahead),
            ),
        ),
{
    let r = g.rhs_of(it.production_id as int);
    assert(r[it.dot as int] is NonTerminal);
    lemma_defined_push_terminal(first, r.subrange(it.dot + 1, r.len() as int), it.lookahead);
}

/// The LR(1) closure of `state`: every item `[A -> alpha . B beta, a]` adds
/// `[B -> . gamma, b]` for every production of `B` and every `b` in FIRST(beta a).
pub fn closure_lr1(state: &StateLR1, grammar: &Grammar, first_set: &SymbolSetMap) -> (c: StateLR1)
    requires
        state.wf(),
        first_covers_suffixes(grammar, first_set.view()),
        no_nonterminals(first_set.view()),
    ensures
        c.wf(),
        is_lr1_closure(grammar, first_set.view(), state.contents(), c.contents()),
{
    let ghost first = first_set.view();
    let ghost base = state.contents();
    let ghost np = grammar.num_prods() as int;
    let mut closure = state.duplicate();
    let mut work: Vec<ItemLR1> = items_of_lr1(state);
    let ghost mut added: Set<int> = Set::empty();
    assert(closure.contents() =~= base);
    while work.len() > 0
        invariant
            first == first_set.view(),
            first_covers_suffixes(grammar, first),
            no_nonterminals(first),
            np == grammar.num_prods(),
            closure.wf(),
            base.subset_of(closure.contents()),
            forall|t: Set<ItemLR1>| base.subset_of(t) && #[trigger] lr1_closed(grammar, first, t) ==> closure.contents().subset_of(t),
            forall|k: int| 0 <= k < work@.len() ==> closure.contents().contains(#[trigger] work@[k]),
            forall|it: ItemLR1|
                #[trigger] closure.contents().contains(it) && !work@.contains(it) ==> lr1_successors_in(grammar, first, closure.contents(), it),
            forall|c: int| #[trigger] added.contains(c) ==> 0 <= c < np * 28 && closure.contents().contains(
                ItemLR1 { production_id: (c / 28) as usize, dot: 0, lookahead: Terminal::at(c % 28) },
            ),
        decreases np * 28 - added.len(), work@.len(),
    {
        proof {
            lemma_index_set_bound(added, np * 28);
        }
        let ghost old_added = added;
        let ghost old_work = work@;
        let item = work.pop().unwrap();
        assert(old_work =~= work@.push(item));
        let after = item.symbol_after_dot(grammar);
        if let Some(Symbol::NonTerminal(ntr)) = after {
            let nt: NonTerminal = *ntr;
            let beta = beta_with_lookahead(&item, grammar);
            proof {
                lemma_lookaheads_defined(grammar, first, item);
                lemma_first_seq_terminal_end(
                    first,
                    grammar.rhs_of(item.production_id as int).subrange(item.dot + 1, grammar.rhs_of(item.production_id as int).len() as int),
                    item.lookahead,
                );
            }
            let lookahead_set = first_of_sequence(beta.as_slice(), first_set);
            assert(lookahead_set.contents() == lr1_lookaheads(grammar, first, item));
            let mut p: usize = 0;
            while p < grammar.productions.len()
                invariant
                    first == first_set.view(),
                    np == grammar.num_prods(),
                    closure.wf(),
                    0 <= p <= np,
                    item.after_dot(grammar) == Some(Symbol::NonTerminal(nt)),
                    lookahead_set.contents() == lr1_lookaheads(grammar, first, item),
                    closure.contents().contains(item),
                    base.subset_of(closure.contents()),
                    forall|t: Set<ItemLR1>| base.subset_of(t) && #[trigger] lr1_closed(grammar, first, t) ==> closure.contents().subset_of(t),
                    forall|k: int| 0 <= k < work@.len() ==> closure.contents().contains(#[trigger] work@[k]),
                    forall|it: ItemLR1|
                        #[trigger] closure.contents().contains(it) && !work@.contains(it) && it != item ==> lr1_successors_in(grammar, first, closure.contents(), it),
                    forall|q: int, b: Terminal|
                        #![trigger grammar.lhs_of(q), lr1_lookaheads(grammar, first, item).contains(Symbol::Terminal(b))]
                        0 <= q < p && grammar.lhs_of(q) == nt && lr1_lookaheads(grammar, first, item).contains(Symbol::Terminal(b))
                            ==> closure.contents().contains(ItemLR1 { production_id: q as usize, dot: 0, lookahead: b }),
                    forall|c: int| #[trigger] added.contains(c) ==> 0 <= c < np * 28 && closure.contents().contains(
                        ItemLR1 { production_id: (c / 28) as usize, dot: 0, lookahead: Terminal::at(c % 28) },
                    ),
                    old_added.subset_of(added),
                    added.finite(),
                    added.len() >= old_added.len(),
                    added.len() == old_added.len() ==> work@.len() + 1 == old_work.len(),
                decreases np - p,
            {
                if grammar.productions[p].lhs == nt {
                    let mut i: usize = 0;
                    while i < NUM_TERMINALS
                        invariant
                            first == first_set.view(),
                            np == grammar.num_prods(),
                            closure.wf(),
                            0 <= p < np,
                            grammar.lhs_of(p as int) == nt,
                            i <= NUM_TERMINALS,
                            item.after_dot(grammar) == Some(Symbol::NonTerminal(nt)),
                            lookahead_set.contents() == lr1_lookaheads(grammar, first, item),
                            closure.contents().contains(item),
                            base.subset_of(closure.contents()),
                            forall|t: Set<ItemLR1>| base.subset_of(t) && #[trigger] lr1_closed(grammar, first, t) ==> closure.contents().subset_of(t),
                            forall|k: int| 0 <= k < work@.len() ==> closure.contents().contains(#[trigger] work@[k]),
                            forall|it: ItemLR1|
                                #[trigger] closure.contents().contains(it) && !work@.contains(it) && it != item ==> lr1_successors_in(grammar, first, closure.contents(), it),
                            forall|q: int, b: Terminal|
                                #![trigger grammar.lhs_of(q), lr1_lookaheads(grammar, first, item).contains(Symbol::Terminal(b))]
                                0 <= q < p && grammar.lhs_of(q) == nt && lr1_lookaheads(grammar, first, item).contains(Symbol::Terminal(b))
                                    ==> closure.contents().contains(ItemLR1 { production_id: q as usize, dot: 0, lookahead: b }),
                            forall|b: Terminal|
                                b.spec_index() < i && lr1_lookaheads(grammar, first, item).contains(Symbol::Terminal(b))
                                    ==> #[trigger] closure.contents().contains(ItemLR1 { production_id: p, dot: 0, lookahead: b }),
                            forall|c: int| #[trigger] added.contains(c) ==> 0 <= c < np * 28 && closure.contents().contains(
                                ItemLR1 { production_id: (c / 28) as usize, dot: 0, lookahead: Terminal::at(c % 28) },
                            ),
                            old_added.subset_of(added),
                            added.finite(),
                            added.len() >= old_added.len(),
                            added.len() == old_added.len() ==> work@.len() + 1 == old_work.len(),
                        decreases NUM_TERMINALS - i,
                    {
                        let term = Terminal::from_index(i);
                        if lookahead_set.contains(&Symbol::Terminal(term)) {
                            let new_item = ItemLR1::new(p, 0, term);
                            let ghost before = closure.contents();
                            let ghost old_w = work@;
                            if closure.insert(new_item) {
                                work.push(new_item);
                                assert(work@[work@.len() - 1] == new_item);
                                proof {
                                    let c = (p as int) * 28 + (i as int);
                                    assert(c / 28 == p && c % 28 == i);
                                    if added.contains(c) {
                                        assert(before.contains(new_item));
                                    }
                                    added = added.insert(c);
                                }
                            }
                            assert forall|t: Set<ItemLR1>| base.subset_of(t) && #[trigger] lr1_closed(grammar, first, t) implies closure.contents().subset_of(t) by {
                                assert(before.subset_of(t));
                                assert(t.contains(item));
                                assert(lr1_successors_in(grammar, first, t, item));
                                assert(lr1_lookaheads(grammar, first, item).contains(Symbol::Terminal(term)));
                                assert(grammar.lhs_of(p as int) == nt);
                            }
                            assert forall|it: ItemLR1|
                                #[trigger] closure.contents().contains(it) && !work@.contains(it) && it != item implies lr1_successors_in(grammar, first, closure.contents(), it) by {
                                if it != new_item {
                                    assert(before.contains(it));
                                    if old_w.contains(it) {
                                        let k = choose|k: int| 0 <= k < old_w.len() && old_w[k] == it;
                                        assert(work@[k] == it);
                                    }
                                    assert(lr1_successors_in(grammar, first, before, it));
                                }
                            }
                        }
                        assert forall|b: Terminal|
                            b.spec_index() < i + 1 && lr1_lookaheads(grammar, first, item).contains(Symbol::Terminal(b))
                                implies #[trigger] closure.contents().contains(ItemLR1 { production_id: p, dot: 0, lookahead: b }) by {
                            if b.spec_index() == i {
                                b.lemma_at_index();
                            }
                        }
                        i = i + 1;
                    }
                    assert forall|q: int, b: Terminal|
                        #![trigger grammar.lhs_of(q), lr1_lookaheads(grammar, first, item).contains(Symbol::Terminal(b))]
                        0 <= q < p + 1 && grammar.lhs_of(q) == nt && lr1_lookaheads(grammar, first, item).contains(Symbol::Terminal(b))
                            implies closure.contents().contains(ItemLR1 { production_id: q as usize, dot: 0, lookahead: b }) by {
                        if q == p {
                            b.lemma_at_index();
                            assert(closure.contents().contains(ItemLR1 { production_id: p, dot: 0, lookahead: b }));
                        }
                    }
                }
                p = p + 1;
            }
            assert(lr1_successors_in(grammar, first, closure.contents(), item));
        } else {
            assert(lr1_successors_in(grammar, first, closure.contents(), item));
        }
        proof {
            lemma_index_set_bound(added, np * 28);
        }
    }
    assert forall|it: ItemLR1| #[trigger] closure.contents().contains(it) implies lr1_successors_in(grammar, first, closure.contents(), it) by {
        assert(!work@.contains(it));
    }
    closure
}


/// The items of `s` whose dot stands before `x`, with the dot moved past `x`
/// and the lookahead kept.
pub open spec fn lr1_kernel(g: &Grammar, s: Set<ItemLR1>, x: Symbol) -> Set<ItemLR1> {
    Set::new(
        |it: ItemLR1|
            exists|j: ItemLR1|
                #![trigger s.contains(j)]
                s.contains(j) && j.after_dot(g) == Some(x) && it == ItemLR1 {
                    production_id: j.production_id,
                    dot: #[verifier::truncate] ((j.dot + 1) as usize),
                    lookahead: j.lookahead,
                },
    )
}

/// Some item of `s` has `x` right after its dot.
pub open spec fn lr1_next_symbol(g: &Grammar, s: Set<ItemLR1>, x: Symbol) -> bool {
    exists|j: ItemLR1| #[trigger] s.contains(j) && j.after_dot(g) == Some(x)
}

/// The items of `state` whose dot stands before `x`, with the dot moved past it.
fn kernel_lr1(state: &StateLR1, symbol: &Symbol, grammar: &Grammar) -> (k: StateLR1)
    requires
        state.wf(),
    ensures
        k.wf(),
        k.contents() == lr1_kernel(grammar, state.contents(), *symbol),
{
    let mut result = StateLR1::new();
    let mut i: usize = 0;
    let ghost s = state.elems();
    while i < state.len()
        invariant
            result.wf(),
            i <= s.len(),
            s == state.elems(),
            forall|it: ItemLR1| #[trigger] result.contents().contains(it) <==> exists|m: int|
                0 <= m < i && s[m].after_dot(grammar) == Some(*symbol) && it == (ItemLR1 {
                    production_id: s[m].production_id,
                    dot: #[verifier::truncate] ((s[m].dot + 1) as usize),
                    lookahead: s[m].lookahead,
                }),
        decreases s.len() - i,
    {
        let item = state.get(i);
        let ghost before = result.contents();
        match item.symbol_after_dot(grammar) {
            Some(cur) => {
                if *cur == *symbol {
                    let next = item.advance_dot(grammar).unwrap();
                    result.insert(next);
                    assert forall|it: ItemLR1| #[trigger] result.contents().contains(it) <==> exists|m: int|
                        0 <= m < i + 1 && s[m].after_dot(grammar) == Some(*symbol) && it == (ItemLR1 {
                            production_id: s[m].production_id,
                            dot: #[verifier::truncate] ((s[m].dot + 1) as usize),
                            lookahead: s[m].lookahead,
                        }) by {
                        if it == next {
                            assert(s[i as int] == item);
                        }
                    }
                }
            },
            None => {},
        }
        i = i + 1;
    }
    assert forall|it: ItemLR1| #[trigger] result.contents().contains(it) <==> lr1_kernel(grammar, state.contents(), *symbol).contains(it) by {
        if result.contents().contains(it) {
            let m = choose|m: int|
                0 <= m < s.len() && s[m].after_dot(grammar) == Some(*symbol) && it == (ItemLR1 {
                    production_id: s[m].production_id,
                    dot: #[verifier::truncate] ((s[m].dot + 1) as usize),
                    lookahead: s[m].lookahead,
                });
            assert(state.contents().contains(s[m]));
        }
        if lr1_kernel(grammar, state.contents(), *symbol).contains(it) {
            let j = choose|j: ItemLR1|
                state.contents().contains(j) && j.after_dot(grammar) == Some(*symbol) && it == ItemLR1 {
                    production_id: j.production_id,
                    dot: #[verifier::truncate] ((j.dot + 1) as usize),
                    lookahead: j.lookahead,
                };
            let m = choose|m: int| 0 <= m < s.len() && s[m] == j;
        }
    }
    assert(result.contents() =~= lr1_kernel(grammar, state.contents(), *symbol));
    result
}

/// The empty set is closed, so the closure of the empty set is empty.
proof fn lemma_closure_of_empty_lr1(g: &Grammar, first: Map<NonTerminal, Set<Symbol>>, c: Set<ItemLR1>)
    requires
        is_lr1_closure(g, first, Set::empty(), c),
    ensures
        c == Set::<ItemLR1>::empty(),
{
    assert(lr1_closed(g, first, Set::<ItemLR1>::empty()));
    assert(Set::<ItemLR1>::empty().subset_of(Set::<ItemLR1>::empty()));
    assert(c =~= Set::<ItemLR1>::empty());
}

/// GOTO: moves the dot past `symbol` in every item where it can, then takes the
/// closure of the result. `None` when no item has `symbol` after its dot.
pub fn goto_lr1(state: &StateLR1, symbol: &Symbol, grammar: &Grammar, first_set: &SymbolSetMap) -> (r: Option<StateLR1>)
    requires
        state.wf(),
        first_covers_suffixes(grammar, first_set.view()),
        no_nonterminals(first_set.view()),
    ensures
        r is None <==> lr1_kernel(grammar, state.contents(), *symbol) == Set::<ItemLR1>::empty(),
        r is None <==> !lr1_next_symbol(grammar, state.contents(), *symbol),
        r matches Some(s) ==> s.wf() && is_lr1_closure(grammar, first_set.view(), lr1_kernel(grammar, state.contents(), *symbol), s.contents()),
{
    let kernel = kernel_lr1(state, symbol, grammar);
    let closure = closure_lr1(&kernel, grammar, first_set);
    let ghost k = lr1_kernel(grammar, state.contents(), *symbol);
    proof {
        if lr1_next_symbol(grammar, state.contents(), *symbol) {
            let j = choose|j: ItemLR1| #[trigger] state.contents().contains(j) && j.after_dot(grammar) == Some(*symbol);
            assert(k.contains(ItemLR1 { production_id: j.production_id, dot: #[verifier::truncate] ((j.dot + 1) as usize), lookahead: j.lookahead }));
        } else {
            assert(k =~= Set::<ItemLR1>::empty());
        }
        if k == Set::<ItemLR1>::empty() {
            lemma_closure_of_empty_lr1(grammar, first_set.view(), closure.contents());
        }
    }
    if closure.is_empty() {
        None
    } else {
        Some(closure)
    }
}



/// Every LR(1) item of the grammar, together with the start item.
pub open spec fn lr1_universe(g: &Grammar) -> Set<ItemLR1> {
    Set::new(
        |it: ItemLR1|
            (g.valid_prod(it.production_id as int) && it.dot <= g.rhs_of(it.production_id as int).len())
                || it == (ItemLR1 { production_id: 0, dot: 0, lookahead: Terminal::End }),
    )
}

spec fn items_upto_lr1(g: &Grammar, n: int) -> Seq<ItemLR1>
    decreases n,
{
    if n <= 0 {
        Seq::empty()
    } else {
        items_upto_lr1(g, n - 1) + Seq::new(
            ((g.rhs_of(n - 1).len() + 1) * 28) as nat,
            |i: int| ItemLR1 { production_id: (n - 1) as usize, dot: (i / 28) as usize, lookahead: Terminal::at(i % 28) },
        )
    }
}

proof fn lemma_items_upto_lr1(g: &Grammar, n: int)
    requires
        n <= g.num_prods(),
    ensures
        forall|it: ItemLR1|
            (it.production_id < n && it.dot <= g.rhs_of(it.production_id as int).len()) ==> #[trigger] items_upto_lr1(g, n).contains(it),
    decreases n,
{
    if n > 0 {
        lemma_items_upto_lr1(g, n - 1);
        let prev = items_upto_lr1(g, n - 1);
        let len = g.rhs_of(n - 1).len();
        let tail = Seq::new(
            ((len + 1) * 28) as nat,
            |i: int| ItemLR1 { production_id: (n - 1) as usize, dot: (i / 28) as usize, lookahead: Terminal::at(i % 28) },
        );
        assert(items_upto_lr1(g, n) == prev + tail);
        assert forall|it: ItemLR1|
            (it.production_id < n && it.dot <= g.rhs_of(it.production_id as int).len()) implies #[trigger] items_upto_lr1(g, n).contains(it) by {
            if it.production_id < n - 1 {
                assert(prev.contains(it));
                let k = choose|k: int| 0 <= k < prev.len() && prev[k] == it;
                assert(items_upto_lr1(g, n)[k] == it);
            } else {
                let i = (it.dot as int) * 28 + it.lookahead.spec_index();
                it.lookahead.lemma_at_index();
                assert(i / 28 == it.dot && i % 28 == it.lookahead.spec_index());
                assert(i < (len + 1) * 28) by (nonlinear_arith)
                    requires
                        i == (it.dot as int) * 28 + it.lookahead.spec_index(),
                        it.dot <= len,
                        it.lookahead.spec_index() < 28,
                ;
                assert(tail[i] == it);
                assert(items_upto_lr1(g, n)[prev.len() + i] == it);
            }
        }
    }
}

proof fn lemma_lr1_universe(g: &Grammar, first: Map<NonTerminal, Set<Symbol>>)
    ensures
        lr1_universe(g).finite(),
        lr1_closed(g, first, lr1_universe(g)),
{
    lemma_items_upto_lr1(g, g.num_prods() as int);
    let e = items_upto_lr1(g, g.num_prods() as int).to_set().insert(ItemLR1 { production_id: 0, dot: 0, lookahead: Terminal::End });
    assert(lr1_universe(g).subset_of(e));
    vstd::set_lib::lemma_len_subset(lr1_universe(g), e);
}

/// The closure of a set of grammar items holds only grammar items.
proof fn lemma_closure_in_universe_lr1(g: &Grammar, first: Map<NonTerminal, Set<Symbol>>, base: Set<ItemLR1>, c: Set<ItemLR1>)
    requires
        is_lr1_closure(g, first, base, c),
        base.subset_of(lr1_universe(g)),
    ensures
        c.subset_of(lr1_universe(g)),
{
    lemma_lr1_universe(g, first);
}

proof fn lemma_kernel_in_universe_lr1(g: &Grammar, s: Set<ItemLR1>, x: Symbol)
    ensures
        lr1_kernel(g, s, x).subset_of(lr1_universe(g)),
{
    assert forall|it: ItemLR1| #[trigger] lr1_kernel(g, s, x).contains(it) implies lr1_universe(g).contains(it) by {
        let j = choose|j: ItemLR1|
            s.contains(j) && j.after_dot(g) == Some(x) && it == ItemLR1 {
                production_id: j.production_id,
                dot: #[verifier::truncate] ((j.dot + 1) as usize),
                lookahead: j.lookahead,
            };
    }
}

/// The automaton is the canonical collection of LR(1) item sets of the grammar.
pub open spec fn is_lr1_automaton(g: &Grammar, first: Map<NonTerminal, Set<Symbol>>, d: &Dfa<StateLR1>) -> bool {
    let n = d.states@.len();
    let t = d.transitions@;
    let st = |i: int| d.states@[i].contents();
    &&& n >= 1
    &&& forall|i: int| 0 <= i < n ==> (#[trigger] d.states@[i]).wf()
    &&& is_lr1_closure(g, first, set![ItemLR1 { production_id: 0, dot: 0, lookahead: Terminal::End }], st(0))
    &&& forall|k: int|
        0 <= k < t.len() ==> {
            let i = (#[trigger] t[k]).0.0 as int;
            let x = t[k].0.1;
            let j = t[k].1 as int;
            &&& 0 <= i < n
            &&& 0 <= j < n
            &&& lr1_next_symbol(g, st(i), x)
            &&& is_lr1_closure(g, first, lr1_kernel(g, st(i), x), st(j))
        }
    &&& forall|i: int, x: Symbol| 0 <= i < n && #[trigger] lr1_next_symbol(g, st(i), x) ==> has_transition_from(t, i, x)
    &&& transitions_sorted(t)
    &&& forall|a: int, b: int| 0 <= a < b < n ==> (#[trigger] d.states@[a]).contents() != (#[trigger] d.states@[b]).contents()
    &&& numbered_in_discovery_order(t, n as int)
}

/// Finds a state with the same items as `s`.
fn find_state_lr1(states: &Vec<StateLR1>, s: &StateLR1) -> (r: Option<usize>)
    requires
        s.wf(),
        forall|i: int| 0 <= i < states@.len() ==> (#[trigger] states@[i]).wf(),
    ensures
        r matches Some(j) ==> j < states@.len() && states@[j as int].contents() == s.contents(),
        r is None ==> forall|i: int| 0 <= i < states@.len() ==> (#[trigger] states@[i]).contents() != s.contents(),
{
    let mut i: usize = 0;
    while i < states.len()
        invariant
            i <= states@.len(),
            s.wf(),
            forall|k: int| 0 <= k < states@.len() ==> (#[trigger] states@[k]).wf(),
            forall|k: int| 0 <= k < i ==> (#[trigger] states@[k]).contents() != s.contents(),
        decreases states@.len() - i,
    {
        if states[i].same_items(s) {
            return Some(i);
        }
        i = i + 1;
    }
    None
}

/// Builds the canonical LR(1) automaton: starting from the closure of the augmented
/// start item with lookahead `#`, expands every state once, on every symbol that follows a dot, in symbol
/// order; new states are numbered in the order they are found.
pub fn build_dfa_lr1(grammar: &Grammar, first_set: &SymbolSetMap) -> (d: Dfa<StateLR1>)
    requires
        first_covers_suffixes(grammar, first_set.view()),
        no_nonterminals(first_set.view()),
    ensures
        is_lr1_automaton(grammar, first_set.view(), &d),
{
    let ghost first = first_set.view();
    let mut start = StateLR1::new();
    start.insert(ItemLR1::new(0, 0, Terminal::End));
    let start_closure = closure_lr1(&start, grammar, first_set);
    assert(start.contents() =~= set![ItemLR1 { production_id: 0, dot: 0, lookahead: Terminal::End }]);
    let mut states: Vec<StateLR1> = Vec::new();
    states.push(start_closure);
    let mut transitions: Vec<((usize, Symbol), usize)> = Vec::new();
    let ghost u = lr1_universe(grammar);
    proof {
        lemma_lr1_universe(grammar, first);
        assert(start.contents().subset_of(u));
        lemma_closure_in_universe_lr1(grammar, first, start.contents(), states@[0].contents());
    }
    let ghost bound = two_pow(u.len()) as int;
    let mut index: usize = 0;
    while index < states.len()
        invariant
            u == lr1_universe(grammar),
            first == first_set.view(),
            first_covers_suffixes(grammar, first),
            no_nonterminals(first),
            u.finite(),
            bound == two_pow(u.len()) as int,
            index <= states@.len(),
            states@.len() >= 1,
            forall|i: int| 0 <= i < states@.len() ==> (#[trigger] states@[i]).wf(),
            forall|i: int| 0 <= i < states@.len() ==> (#[trigger] states@[i]).contents().subset_of(u),
            is_lr1_closure(grammar, first, set![ItemLR1 { production_id: 0, dot: 0, lookahead: Terminal::End }], states@[0].contents()),
            forall|k: int|
                0 <= k < transitions@.len() ==> {
                    let i = (#[trigger] transitions@[k]).0.0 as int;
                    let x = transitions@[k].0.1;
                    let j = transitions@[k].1 as int;
                    &&& 0 <= i < index
                    &&& 0 <= j < states@.len()
                    &&& lr1_next_symbol(grammar, states@[i].contents(), x)
                    &&& is_lr1_closure(grammar, first, lr1_kernel(grammar, states@[i].contents(), x), states@[j].contents())
                },
            forall|i: int, x: Symbol| 0 <= i < index && #[trigger] lr1_next_symbol(grammar, states@[i].contents(), x) ==> has_transition_from(transitions@, i, x),
            transitions_sorted(transitions@),
            forall|a: int, b: int| 0 <= a < b < states@.len() ==> (#[trigger] states@[a]).contents() != (#[trigger] states@[b]).contents(),
            numbered_in_discovery_order(transitions@, states@.len() as int),
        decreases bound - index,
    {
        proof {
            let cs = states@.map_values(|s: StateLR1| s.contents());
            assert forall|a: int, b: int| 0 <= a < cs.len() && 0 <= b < cs.len() && a != b implies cs[a] != cs[b] by {
                if a < b {
                    assert(states@[a].contents() != states@[b].contents());
                } else {
                    assert(states@[b].contents() != states@[a].contents());
                }
            }
            assert forall|i: int| 0 <= i < cs.len() implies (#[trigger] cs[i]).subset_of(u) by {
                assert(states@[i].contents().subset_of(u));
            }
            lemma_distinct_subsets_bound(u, cs);
        }
        let state = states[index].duplicate();
        let mut slot: usize = 0;
        while slot < NUM_SYMBOL_SLOTS
            invariant
                u == lr1_universe(grammar),
                first == first_set.view(),
                first_covers_suffixes(grammar, first),
                no_nonterminals(first),
                u.finite(),
                index < states@.len(),
                state.wf(),
                state.contents() == states@[index as int].contents(),
                slot <= NUM_SYMBOL_SLOTS,
                forall|i: int| 0 <= i < states@.len() ==> (#[trigger] states@[i]).wf(),
                forall|i: int| 0 <= i < states@.len() ==> (#[trigger] states@[i]).contents().subset_of(u),
                is_lr1_closure(grammar, first, set![ItemLR1 { production_id: 0, dot: 0, lookahead: Terminal::End }], states@[0].contents()),
                forall|k: int|
                    0 <= k < transitions@.len() ==> {
                        let i = (#[trigger] transitions@[k]).0.0 as int;
                        let x = transitions@[k].0.1;
                        let j = transitions@[k].1 as int;
                        &&& 0 <= i <= index
                        &&& (i == index ==> x.spec_slot() < slot)
                        &&& 0 <= j < states@.len()
                        &&& lr1_next_symbol(grammar, states@[i].contents(), x)
                        &&& is_lr1_closure(grammar, first, lr1_kernel(grammar, states@[i].contents(), x), states@[j].contents())
                    },
                forall|i: int, x: Symbol| 0 <= i < index && #[trigger] lr1_next_symbol(grammar, states@[i].contents(), x) ==> has_transition_from(transitions@, i, x),
                forall|x: Symbol| x.spec_slot() < slot && #[trigger] lr1_next_symbol(grammar, states@[index as int].contents(), x) ==> has_transition_from(transitions@, index as int, x),
                transitions_sorted(transitions@),
                forall|a: int, b: int| 0 <= a < b < states@.len() ==> (#[trigger] states@[a]).contents() != (#[trigger] states@[b]).contents(),
                numbered_in_discovery_order(transitions@, states@.len() as int),
            decreases NUM_SYMBOL_SLOTS - slot,
        {
            let symbol = Symbol::from_slot(slot);
            let ghost t_old = transitions@;
            let ghost s_old = states@;
            match goto_lr1(&state, &symbol, grammar, first_set) {
                None => {},
                Some(new_state) => {
                    proof {
                        lemma_kernel_in_universe_lr1(grammar, state.contents(), symbol);
                        lemma_closure_in_universe_lr1(grammar, first, lr1_kernel(grammar, state.contents(), symbol), new_state.contents());
                    }
                    let target = match find_state_lr1(&states, &new_state) {
                        Some(j) => j,
                        None => {
                            states.push(new_state);
                            assert(states@[states@.len() - 1] == new_state);
                            assert forall|a: int, b: int| 0 <= a < b < states@.len() implies (#[trigger] states@[a]).contents() != (#[trigger] states@[b]).contents() by {
                                if b == states@.len() - 1 {
                                    assert(s_old[a] == states@[a]);
                                } else {
                                    assert(s_old[a] == states@[a] && s_old[b] == states@[b]);
                                }
                            }
                            states.len() - 1
                        },
                    };
                    transitions.push(((index, symbol), target));
                    let ghost t = transitions@;
                    assert(t[t.len() - 1] == ((index, symbol), target));
                    assert forall|k: int| 0 <= k < t.len() - 1 implies #[trigger] t[k] == t_old[k] by {}
                    assert forall|a: int, b: int| 0 <= a < b < t.len() implies {
                        let ka = (#[trigger] t[a]).0;
                        let kb = (#[trigger] t[b]).0;
                        ka.0 < kb.0 || (ka.0 == kb.0 && ka.1.spec_slot() < kb.1.spec_slot())
                    } by {
                        if b == t.len() - 1 {
                            assert(t[a] == t_old[a]);
                        } else {
                            assert(t[a] == t_old[a] && t[b] == t_old[b]);
                        }
                    }
                    assert forall|j: int| 1 <= j < states@.len() implies #[trigger] discovered(t, j) by {
                        if j < s_old.len() {
                            assert(discovered(t_old, j));
                            let k = choose|k: int| #[trigger] first_reaches(t_old, j, k);
                            assert forall|m: int| 0 <= m < k implies (#[trigger] t[m]).1 < j by {
                                assert(t[m] == t_old[m]);
                            }
                            assert(first_reaches(t, j, k));
                        } else {
                            let k = t.len() - 1;
                            assert forall|m: int| 0 <= m < k implies (#[trigger] t[m]).1 < j by {
                                assert(t[m] == t_old[m]);
                            }
                            assert(first_reaches(t, j, k));
                        }
                    }
                    assert forall|i: int, x: Symbol| 0 <= i < index && #[trigger] lr1_next_symbol(grammar, states@[i].contents(), x) implies has_transition_from(t, i, x) by {
                        assert(states@[i] == s_old[i]);
                        assert(has_transition_from(t_old, i, x));
                        let k = choose|k: int| 0 <= k < t_old.len() && (#[trigger] t_old[k]).0 == (i as usize, x);
                        assert(t[k] == t_old[k]);
                    }
                    assert forall|x: Symbol| x.spec_slot() < slot + 1 && #[trigger] lr1_next_symbol(grammar, states@[index as int].contents(), x) implies has_transition_from(t, index as int, x) by {
                        if x.spec_slot() < slot {
                            assert(has_transition_from(t_old, index as int, x));
                            let k = choose|k: int| 0 <= k < t_old.len() && (#[trigger] t_old[k]).0 == (index, x);
                            assert(t[k] == t_old[k]);
                        } else {
                            x.lemma_slot();
                            assert(x == symbol);
                            assert(t[t.len() - 1].0 == (index, x));
                        }
                    }
                },
            }
            proof {
                if !lr1_next_symbol(grammar, state.contents(), symbol) {
                    assert forall|x: Symbol| x.spec_slot() < slot + 1 && #[trigger] lr1_next_symbol(grammar, states@[index as int].contents(), x) implies has_transition_from(transitions@, index as int, x) by {
                        if x.spec_slot() == slot {
                            x.lemma_slot();
                        }
                    }
                }
            }
            slot = slot + 1;
        }
        proof {
            assert forall|i: int, x: Symbol| 0 <= i < index + 1 && #[trigger] lr1_next_symbol(grammar, states@[i].contents(), x) implies has_transition_from(transitions@, i, x) by {
                if i == index {
                    x.lemma_slot();
                }
            }
        }
        index = index + 1;
    }
    Dfa { states, transitions }
}

/// The LR(1) automaton as text: the number of states, each state with its
/// items spelled out, then the transitions in order.
pub fn format_dfa_lr1(dfa: &Dfa<StateLR1>, grammar: &Grammar) -> (s: String)
    ensures
        s@ == dfa_text(dfa.states@.map_values(|q: StateLR1| state_lr1_text(grammar, q.elems())), dfa.transitions@),
        exists|lines: Seq<Seq<char>>| s@ == join(lines, "\n"@) && transition_lines_show(lines, dfa.transitions@),
{
    let ghost texts = dfa.states@.map_values(|q: StateLR1| state_lr1_text(grammar, q.elems()));
    let mut lines = dfa_header(dfa.states.len());
    let ghost head = string_views(lines@);
    let mut i: usize = 0;
    while i < dfa.states.len()
        invariant
            texts == dfa.states@.map_values(|q: StateLR1| state_lr1_text(grammar, q.elems())),
            i <= dfa.states@.len(),
            string_views(lines@) == head + state_blocks(texts, i as int),
        decreases dfa.states@.len() - i,
    {
        let text = dfa.states[i].format_with_grammar(grammar);
        push_state_block(&mut lines, i, text);
        i = i + 1;
        assert(string_views(lines@) =~= head + state_blocks(texts, i as int));
    }
    push_transitions(&mut lines, &dfa.transitions);
    assert(string_views(lines@) =~= head + state_blocks(texts, texts.len() as int) + seq!["transitions:"@]
        + dfa.transitions@.map_values(|t: ((usize, Symbol), usize)| transition_line(t)));
    proof {
        lemma_dfa_text_shows_transitions(texts, dfa.transitions@);
    }
    join_strings(&lines, "\n")
}

/// The LR(1) closure of a set is unique: two closures of the same set are equal.
pub proof fn lemma_lr1_closure_unique(
    g: &Grammar,
    first: Map<NonTerminal, Set<Symbol>>,
    base: Set<ItemLR1>,
    c1: Set<ItemLR1>,
    c2: Set<ItemLR1>,
)
    requires
        is_lr1_closure(g, first, base, c1),
        is_lr1_closure(g, first, base, c2),
    ensures
        c1 == c2,
{
    assert(c1.subset_of(c2));
    assert(c2.subset_of(c1));
    assert(c1 =~= c2);
}

/// Closing is idempotent: the closure of a closure is itself.
pub proof fn lemma_lr1_closure_idempotent(g: &Grammar, first: Map<NonTerminal, Set<Symbol>>, base: Set<ItemLR1>, c: Set<ItemLR1>)
    requires
        is_lr1_closure(g, first, base, c),
    ensures
        is_lr1_closure(g, first, c, c),
{
}

/// Closing is monotone: a larger set has a larger closure.
pub proof fn lemma_lr1_closure_monotone(
    g: &Grammar,
    first: Map<NonTerminal, Set<Symbol>>,
    b1: Set<ItemLR1>,
    c1: Set<ItemLR1>,
    b2: Set<ItemLR1>,
    c2: Set<ItemLR1>,
)
    requires
        is_lr1_closure(g, first, b1, c1),
        is_lr1_closure(g, first, b2, c2),
        b1.subset_of(b2),
    ensures
        c1.subset_of(c2),
{
    assert(b1.subset_of(c2));
}

/// For a well-formed grammar, its FIRST sets cover every right-hand side, as
/// the LR(1) construction needs.
pub proof fn lemma_first_sets_cover_rhs(g: &Grammar, first: Map<NonTerminal, Set<Symbol>>)
    requires
        g.wf(),
        is_first_sets(g, first),
    ensures
        first_covers_suffixes(g, first),
{
    assert forall|p: int, k: int|
        0 <= p < g.num_prods() && 0 <= k < g.rhs_of(p).len() && (#[trigger] g.rhs_of(p)[k]) is NonTerminal
            implies first_seq_defined(first, g.rhs_of(p).subrange(k + 1, g.rhs_of(p).len() as int)) by {
        let w = g.rhs_of(p).subrange(k + 1, g.rhs_of(p).len() as int);
        assert forall|j: int| 0 <= j < w.len() && (#[trigger] w[j]) is NonTerminal implies first.dom().contains(w[j]->NonTerminal_0) by {
            assert(w[j] == g.rhs_of(p)[k + 1 + j]);
            assert(g.defines(g.rhs_of(p)[k + 1 + j]->NonTerminal_0));
        }
        lemma_all_defined(first, w);
    }
}

} // verus!
