use vstd::prelude::*;
use crate::grammar::Grammar;
use crate::item_lr0::{Item, State};
use crate::item_lr1::{ItemLR1, StateLR1};
use crate::symbol::{NonTerminal, Symbol, Terminal};
use crate::dfa::{Dfa, has_transition_from};
use crate::dfa_lr0::{lr0_closed, is_lr0_closure, lr0_kernel, lr0_next_symbol, is_lr0_automaton};
use crate::dfa_lr1::{lr1_closed, lr1_successors_in, lr1_lookaheads, is_lr1_closure, lr1_kernel, lr1_next_symbol, is_lr1_automaton};
use crate::lexer::TokenView;
use crate::lr_table::{Action, LRTable};
use crate::lr_parser::{ParserConfig, Outcome, ParseErrorKind, parse_step, run, parse_outcome, initial_config};
use crate::table_contents::{holds, goto_holds, shifts_follow_transitions, slr_cells_follow_items, lr1_cells_follow_items, gotos_follow_transitions};

verus! {

/// Grammar conditions of an augmented grammar: production 0 has exactly one
/// symbol on its right, its left-hand side occurs on no right-hand side, and
/// the sizes fit the machine.
pub open spec fn augmented(g: &Grammar) -> bool {
    &&& g.num_prods() >= 1
    &&& g.rhs_of(0).len() == 1
    &&& forall|p: int, k: int| 0 <= p < g.num_prods() && 0 <= k < g.rhs_of(p).len() ==> #[trigger] g.rhs_of(p)[k] != Symbol::NonTerminal(g.lhs_of(0))
    &&& g.num_prods() <= usize::MAX
    &&& forall|p: int| 0 <= p < g.num_prods() ==> #[trigger] g.rhs_of(p).len() < usize::MAX
}

/// An initial item in a closure is in the base, or is asked for by an item of
/// the closure whose dot stands before its left-hand side.
pub open spec fn justified(g: &Grammar, base: Set<Item>, c: Set<Item>, it: Item) -> bool {
    ||| base.contains(it)
    ||| (it.dot == 0 && g.valid_prod(it.production_id as int) && exists|j: Item|
        #[trigger] c.contains(j) && j.after_dot(g) == Some(Symbol::NonTerminal(g.lhs_of(it.production_id as int))))
}

/// Every item of a closure is in its base or is an initial item asked for by
/// another item of the closure.
pub proof fn lemma_closure_items_justified(g: &Grammar, base: Set<Item>, c: Set<Item>)
    requires
        g.num_prods() <= usize::MAX,
        is_lr0_closure(g, base, c),
    ensures
        forall|it: Item| #[trigger] c.contains(it) ==> justified(g, base, c, it),
{
    let t = Set::new(|it: Item| c.contains(it) && justified(g, base, c, it));
    assert(base.subset_of(t));
    assert(lr0_closed(g, t)) by {
        assert forall|it: Item, p: int|
            #![trigger t.contains(it), g.lhs_of(p)]
            t.contains(it) && 0 <= p < g.num_prods() && it.after_dot(g) == Some(Symbol::NonTerminal(g.lhs_of(p)))
                implies t.contains(Item { production_id: #[verifier::truncate] (p as usize), dot: 0 }) by {
            let q = Item { production_id: #[verifier::truncate] (p as usize), dot: 0 };
            assert(lr0_closed(g, c));
            assert(c.contains(q));
            assert((p as usize) as int == p);
            assert(c.contains(it) && it.after_dot(g) == Some(Symbol::NonTerminal(g.lhs_of(q.production_id as int))));
            assert(justified(g, base, c, q));
        }
    }
    assert(c.subset_of(t));
}

/// The items of a kernel have their dot past the start.
pub proof fn lemma_kernel_dots(g: &Grammar, s: Set<Item>, x: Symbol, it: Item)
    requires
        lr0_kernel(g, s, x).contains(it),
        forall|p: int| 0 <= p < g.num_prods() ==> #[trigger] g.rhs_of(p).len() < usize::MAX,
    ensures
        it.dot > 0,
        exists|j: Item| #[trigger] s.contains(j) && j.after_dot(g) == Some(x) && j.production_id == it.production_id && j.dot + 1 == it.dot,
{
    let j = choose|j: Item| #![trigger s.contains(j)] s.contains(j) && j.after_dot(g) == Some(x) && it == Item {
        production_id: j.production_id,
        dot: #[verifier::truncate] ((j.dot + 1) as usize),
    };
    assert(j.dot < g.rhs_of(j.production_id as int).len());
    assert(g.rhs_of(j.production_id as int).len() < usize::MAX);
}

/// The states along a stack are joined by transitions on the symbols between them.
pub open spec fn on_path<S>(d: &Dfa<S>, states: Seq<usize>, symbols: Seq<Symbol>) -> bool {
    &&& states.len() == symbols.len() + 1
    &&& states[0] == 0
    &&& forall|k: int| 0 <= k < symbols.len() ==> exists|q: int|
        0 <= q < d.transitions@.len() && (#[trigger] d.transitions@[q]).0 == (states[k], #[trigger] symbols[k]) && d.transitions@[q].1 == states[k + 1]
}

/// The state of position `m` on a stack holds an item with its dot at `d`
/// only when the `d` symbols below spell the start of its right-hand side and
/// the state `d` positions down holds the item with its dot at the start.
pub proof fn lemma_trace(g: &Grammar, d: &Dfa<State>, states: Seq<usize>, symbols: Seq<Symbol>, m: int, it: Item)
    requires
        augmented(g),
        is_lr0_automaton(g, d),
        d.states@.len() <= usize::MAX,
        on_path(d, states, symbols),
        0 <= m < states.len(),
        forall|k: int| 0 <= k < states.len() ==> (#[trigger] states[k] as int) < d.states@.len(),
        d.states@[states[m] as int].contents().contains(it),
    ensures
        it.dot <= m,
        it.dot > 0 ==> it.dot <= g.rhs_of(it.production_id as int).len() && g.valid_prod(it.production_id as int),
        it.dot > 0 ==> symbols.subrange(m - it.dot, m) == g.rhs_of(it.production_id as int).subrange(0, it.dot as int),
        d.states@[states[m - it.dot] as int].contents().contains(Item { production_id: it.production_id, dot: 0 }),
    decreases m,
{
    let st = |q: int| d.states@[q].contents();
    if it.dot > 0 {
        if m == 0 {
            lemma_closure_items_justified(g, set![Item { production_id: 0, dot: 0 }], st(0));
            assert(justified(g, set![Item { production_id: 0, dot: 0 }], st(0), it));
            assert(false);
        } else {
            let q = choose|q: int| 0 <= q < d.transitions@.len() && (#[trigger] d.transitions@[q]).0 == (states[m - 1], symbols[m - 1]) && d.transitions@[q].1 == states[m];
            let tq = d.transitions@[q];
            let i = tq.0.0 as int;
            let x = tq.0.1;
            assert(is_lr0_closure(g, lr0_kernel(g, st(i), x), st(states[m] as int)));
            lemma_closure_items_justified(g, lr0_kernel(g, st(i), x), st(states[m] as int));
            assert(justified(g, lr0_kernel(g, st(i), x), st(states[m] as int), it));
            lemma_kernel_dots(g, st(i), x, it);
            let j = choose|j: Item| #[trigger] st(i).contains(j) && j.after_dot(g) == Some(x) && j.production_id == it.production_id && j.dot + 1 == it.dot;
            assert(i == states[m - 1] as int);
            lemma_trace(g, d, states, symbols, m - 1, j);
            let rhs = g.rhs_of(it.production_id as int);
            assert(rhs[j.dot as int] == x);
            if j.dot > 0 {
                assert(symbols.subrange(m - it.dot, m) =~= symbols.subrange(m - 1 - j.dot, m - 1).push(symbols[m - 1]));
                assert(rhs.subrange(0, it.dot as int) =~= rhs.subrange(0, j.dot as int).push(rhs[j.dot as int]));
            } else {
                assert(symbols.subrange(m - it.dot, m) =~= seq![symbols[m - 1]]);
                assert(rhs.subrange(0, it.dot as int) =~= seq![rhs[0]]);
            }
        }
    }
}

/// An initial item in a state of the stack, other than the start item at the
/// bottom, is there because some item of that state has its left-hand side
/// right after the dot.
pub proof fn lemma_initial_item_asked(g: &Grammar, d: &Dfa<State>, states: Seq<usize>, symbols: Seq<Symbol>, m: int, p: usize)
    requires
        augmented(g),
        is_lr0_automaton(g, d),
        on_path(d, states, symbols),
        0 <= m < states.len(),
        forall|k: int| 0 <= k < states.len() ==> (#[trigger] states[k] as int) < d.states@.len(),
        d.states@[states[m] as int].contents().contains(Item { production_id: p, dot: 0 }),
        m > 0 || p != 0,
    ensures
        g.valid_prod(p as int),
        lr0_next_symbol(g, d.states@[states[m] as int].contents(), Symbol::NonTerminal(g.lhs_of(p as int))),
{
    let st = |q: int| d.states@[q].contents();
    let it = Item { production_id: p, dot: 0 };
    if m == 0 {
        lemma_closure_items_justified(g, set![Item { production_id: 0, dot: 0 }], st(0));
        assert(justified(g, set![Item { production_id: 0, dot: 0 }], st(0), it));
    } else {
        let q = choose|q: int| 0 <= q < d.transitions@.len() && (#[trigger] d.transitions@[q]).0 == (states[m - 1], symbols[m - 1]) && d.transitions@[q].1 == states[m];
        let tq = d.transitions@[q];
        let i = tq.0.0 as int;
        let x = tq.0.1;
        assert(is_lr0_closure(g, lr0_kernel(g, st(i), x), st(states[m] as int)));
        lemma_closure_items_justified(g, lr0_kernel(g, st(i), x), st(states[m] as int));
        assert(justified(g, lr0_kernel(g, st(i), x), st(states[m] as int), it));
        if lr0_kernel(g, st(i), x).contains(it) {
            lemma_kernel_dots(g, st(i), x, it);
        }
    }
    let j = choose|j: Item| #[trigger] st(states[m] as int).contains(j) && j.after_dot(g) == Some(Symbol::NonTerminal(g.lhs_of(p as int)));
}

/// The machine's configuration lies along the LR(0) automaton: the states on
/// the stack are joined by transitions on the symbols, and there are as many
/// nodes as symbols.
pub open spec fn safe_config<S>(d: &Dfa<S>, c: ParserConfig) -> bool {
    &&& on_path(d, c.states, c.symbols)
    &&& c.nodes.len() == c.symbols.len()
    &&& forall|k: int| 0 <= k < c.states.len() ==> (#[trigger] c.states[k] as int) < d.states@.len()
}

/// An SLR(1) table built without conflicts from an LR(0) automaton.
pub open spec fn slr_table_of(g: &Grammar, follow: Map<NonTerminal, Set<Symbol>>, d: &Dfa<State>, t: &LRTable) -> bool {
    &&& shifts_follow_transitions(t.action@, d.transitions@)
    &&& slr_cells_follow_items(g, follow, d.states@, t.action@)
    &&& gotos_follow_transitions(t.goto@, d.transitions@)
}

/// One step from a configuration along the automaton stays along it, and
/// fails, if it does, only on the input.
pub proof fn lemma_slr_step_safe(
    g: &Grammar,
    follow: Map<NonTerminal, Set<Symbol>>,
    d: &Dfa<State>,
    t: &LRTable,
    toks: Seq<TokenView>,
    c: ParserConfig,
)
    requires
        augmented(g),
        is_lr0_automaton(g, d),
        d.states@.len() <= usize::MAX,
        slr_table_of(g, follow, d, t),
        safe_config(d, c),
    ensures
        parse_step(g, t, toks, c) matches Outcome::Running(c2) ==> safe_config(d, c2),
        parse_step(g, t, toks, c) matches Outcome::Failed(e) ==> e.kind == ParseErrorKind::Syntax,
{
    let m = c.symbols.len() as int;
    let tr = d.transitions@;
    let st = |q: int| d.states@[q].contents();
    assert(c.states.last() == c.states[m]);
    if 0 <= c.index < toks.len() {
        let s = c.states[m];
        let kind = toks[c.index].kind;
        if t.action@.dom().contains((s, kind)) {
            let x = t.action@[(s, kind)];
            assert(holds(t.action@, s, kind, x));
            match x {
                Action::Shift(j) => {
                    let q = choose|q: int| 0 <= q < tr.len() && (#[trigger] tr[q]).0 == (s, Symbol::Terminal(kind)) && tr[q].1 == j;
                    let c2 = parse_step(g, t, toks, c)->Running_0;
                    assert(c2.symbols[m] == Symbol::Terminal(kind));
                    assert forall|k: int| 0 <= k < c2.symbols.len() implies exists|q2: int|
                        0 <= q2 < tr.len() && (#[trigger] tr[q2]).0 == (c2.states[k], #[trigger] c2.symbols[k]) && tr[q2].1 == c2.states[k + 1] by {
                        if k < m {
                            assert(c2.symbols[k] == c.symbols[k] && c2.states[k] == c.states[k] && c2.states[k + 1] == c.states[k + 1]);
                        } else {
                            assert(tr[q].0 == (c2.states[k], c2.symbols[k]));
                        }
                    }
                    assert(forall|k: int| 0 <= k < c2.states.len() ==> (#[trigger] c2.states[k] as int) < d.states@.len()) by {
                        assert forall|k: int| 0 <= k < c2.states.len() implies (#[trigger] c2.states[k] as int) < d.states@.len() by {
                            if k < m + 1 {
                                assert(c2.states[k] == c.states[k]);
                            }
                        }
                    }
                },
                Action::Reduce(p) => {
                    let it = choose|it: Item| #[trigger] d.states@[s as int].elems().contains(it) && it.spec_is_complete(g) && it.production_id == p;
                    assert(st(s as int).contains(it));
                    lemma_trace(g, d, c.states, c.symbols, m, it);
                    let rhs = g.rhs_of(p as int);
                    let r = rhs.len() as int;
                    assert(it.dot == r);
                    assert(rhs.subrange(0, r) =~= rhs);
                    assert(st(c.states[m - r] as int).contains(Item { production_id: p, dot: 0 }));
                    lemma_initial_item_asked(g, d, c.states, c.symbols, m - r, p);
                    let lhs = g.lhs_of(p as int);
                    assert(has_transition_from(tr, c.states[m - r] as int, Symbol::NonTerminal(lhs)));
                    let q = choose|q: int| 0 <= q < tr.len() && (#[trigger] tr[q]).0 == ((c.states[m - r] as int) as usize, Symbol::NonTerminal(lhs));
                    assert(goto_holds(t.goto@, c.states[m - r], lhs, tr[q].1));
                    let kept = c.states.take(m + 1 - r);
                    assert(kept.last() == c.states[m - r]);
                    assert(c.symbols.subrange(m - r, m) == rhs);
                    let c2 = parse_step(g, t, toks, c)->Running_0;
                    let target = t.goto@[(kept.last(), lhs)];
                    assert(goto_holds(t.goto@, c.states[m - r], lhs, target));
                    let q2 = choose|q2: int| 0 <= q2 < tr.len() && (#[trigger] tr[q2]).0 == (c.states[m - r], Symbol::NonTerminal(lhs)) && tr[q2].1 == target;
                    assert(c2.states =~= kept.push(target));
                    assert forall|k: int| 0 <= k < c2.symbols.len() implies exists|q3: int|
                        0 <= q3 < tr.len() && (#[trigger] tr[q3]).0 == (c2.states[k], #[trigger] c2.symbols[k]) && tr[q3].1 == c2.states[k + 1] by {
                        if k < m - r {
                            assert(c2.symbols[k] == c.symbols[k] && c2.states[k] == c.states[k] && c2.states[k + 1] == c.states[k + 1]);
                        } else {
                            assert(tr[q2].0 == (c2.states[k], c2.symbols[k]));
                        }
                    }
                    assert(forall|k: int| 0 <= k < c2.states.len() ==> (#[trigger] c2.states[k] as int) < d.states@.len()) by {
                        assert forall|k: int| 0 <= k < c2.states.len() implies (#[trigger] c2.states[k] as int) < d.states@.len() by {
                            if k < m + 1 - r {
                                assert(c2.states[k] == c.states[k]);
                            }
                        }
                    }
                },
                Action::Accept => {
                    let it = choose|it: Item| #[trigger] d.states@[s as int].elems().contains(it) && it.spec_is_complete(g) && it.production_id == 0;
                    assert(st(s as int).contains(it));
                    lemma_trace(g, d, c.states, c.symbols, m, it);
                    assert(it.dot == 1);
                    if m > 1 {
                        lemma_initial_item_asked(g, d, c.states, c.symbols, m - 1, 0);
                        let j = choose|j: Item| #[trigger] st(c.states[m - 1] as int).contains(j) && j.after_dot(g) == Some(Symbol::NonTerminal(g.lhs_of(0)));
                        assert(g.rhs_of(j.production_id as int)[j.dot as int] == Symbol::NonTerminal(g.lhs_of(0)));
                    }
                },
            }
        }
    }
}

/// Along any number of steps, the machine on an SLR(1) table built without
/// conflicts stays along the automaton and fails, if it does, only on the input.
pub proof fn lemma_slr_run_safe(
    g: &Grammar,
    follow: Map<NonTerminal, Set<Symbol>>,
    d: &Dfa<State>,
    t: &LRTable,
    toks: Seq<TokenView>,
    n: nat,
)
    requires
        augmented(g),
        is_lr0_automaton(g, d),
        d.states@.len() <= usize::MAX,
        slr_table_of(g, follow, d, t),
    ensures
        run(g, t, toks, n) matches Outcome::Running(c) ==> safe_config(d, c),
        run(g, t, toks, n) matches Outcome::Failed(e) ==> e.kind == ParseErrorKind::Syntax,
    decreases n,
{
    if n == 0 {
        let c = initial_config();
        assert(c.states[0] == 0);
    } else {
        lemma_slr_run_safe(g, follow, d, t, toks, (n - 1) as nat);
        if let Outcome::Running(c) = run(g, t, toks, (n - 1) as nat) {
            lemma_slr_step_safe(g, follow, d, t, toks, c);
        }
    }
}

/// An SLR(1) table built without conflicts from the LR(0) automaton of an
/// augmented grammar never makes the analysis fail for an internal reason:
/// every failure is a syntax error in the input.
pub proof fn lemma_slr_failures_are_syntax_errors(
    g: &Grammar,
    follow: Map<NonTerminal, Set<Symbol>>,
    d: &Dfa<State>,
    t: &LRTable,
    toks: Seq<TokenView>,
)
    requires
        augmented(g),
        is_lr0_automaton(g, d),
        d.states@.len() <= usize::MAX,
        slr_table_of(g, follow, d, t),
    ensures
        parse_outcome(g, t, toks) matches Outcome::Failed(e) ==> e.kind == ParseErrorKind::Syntax,
{
    if toks.len() > 0 {
        lemma_slr_run_safe(g, follow, d, t, toks, crate::lr_parser::halting_steps(g, t, toks));
    }
}

/// An initial item in a closure is in the base, or is asked for by an item of
/// the closure whose dot stands before its left-hand side.
pub open spec fn justified_lr1(g: &Grammar, first: Map<NonTerminal, Set<Symbol>>, base: Set<ItemLR1>, c: Set<ItemLR1>, it: ItemLR1) -> bool {
    ||| base.contains(it)
    ||| (it.dot == 0 && g.valid_prod(it.production_id as int) && exists|j: ItemLR1|
        #[trigger] c.contains(j) && j.after_dot(g) == Some(Symbol::NonTerminal(g.lhs_of(it.production_id as int))))
}

/// Every item of a closure is in its base or is an initial item asked for by
/// another item of the closure.
pub proof fn lemma_closure_items_justified_lr1(g: &Grammar, first: Map<NonTerminal, Set<Symbol>>, base: Set<ItemLR1>, c: Set<ItemLR1>)
    requires
        g.num_prods() <= usize::MAX,
        is_lr1_closure(g, first, base, c),
    ensures
        forall|it: ItemLR1| #[trigger] c.contains(it) ==> justified_lr1(g, first, base, c, it),
{
    let t = Set::new(|it: ItemLR1| c.contains(it) && justified_lr1(g, first, base, c, it));
    assert(base.subset_of(t));
    assert(lr1_closed(g, first, t)) by {
        assert forall|it: ItemLR1| #[trigger] t.contains(it) implies lr1_successors_in(g, first, t, it) by {
            assert forall|p: int, b: Terminal|
                #![trigger g.lhs_of(p), lr1_lookaheads(g, first, it).contains(Symbol::Terminal(b))]
                0 <= p < g.num_prods() && it.after_dot(g) == Some(Symbol::NonTerminal(g.lhs_of(p)))
                    && lr1_lookaheads(g, first, it).contains(Symbol::Terminal(b)) implies t.contains(
                    ItemLR1 { production_id: #[verifier::truncate] (p as usize), dot: 0, lookahead: b },
                ) by {
                let q = ItemLR1 { production_id: #[verifier::truncate] (p as usize), dot: 0, lookahead: b };
                assert(lr1_successors_in(g, first, c, it));
                assert(c.contains(q));
                assert((p as usize) as int == p);
                assert(c.contains(it) && it.after_dot(g) == Some(Symbol::NonTerminal(g.lhs_of(q.production_id as int))));
                assert(justified_lr1(g, first, base, c, q));
            }
        }
    }
    assert(c.subset_of(t));
}

/// The items of a kernel have their dot past the start.
pub proof fn lemma_kernel_dots_lr1(g: &Grammar, s: Set<ItemLR1>, x: Symbol, it: ItemLR1)
    requires
        lr1_kernel(g, s, x).contains(it),
        forall|p: int| 0 <= p < g.num_prods() ==> #[trigger] g.rhs_of(p).len() < usize::MAX,
    ensures
        it.dot > 0,
        exists|j: ItemLR1| #[trigger] s.contains(j) && j.after_dot(g) == Some(x) && j.production_id == it.production_id && j.dot + 1 == it.dot
            && j.lookahead == it.lookahead,
{
    let j = choose|j: ItemLR1| #![trigger s.contains(j)] s.contains(j) && j.after_dot(g) == Some(x) && it == ItemLR1 {
        production_id: j.production_id,
        dot: #[verifier::truncate] ((j.dot + 1) as usize),
        lookahead: j.lookahead,
    };
    assert(j.dot < g.rhs_of(j.production_id as int).len());
    assert(g.rhs_of(j.production_id as int).len() < usize::MAX);
}


/// The state of position `m` on a stack holds an item with its dot at `d`
/// only when the `d` symbols below spell the start of its right-hand side and
/// the state `d` positions down holds the item with its dot at the start.
pub proof fn lemma_trace_lr1(g: &Grammar, first: Map<NonTerminal, Set<Symbol>>, d: &Dfa<StateLR1>, states: Seq<usize>, symbols: Seq<Symbol>, m: int, it: ItemLR1)
    requires
        augmented(g),
        is_lr1_automaton(g, first, d),
        d.states@.len() <= usize::MAX,
        on_path(d, states, symbols),
        0 <= m < states.len(),
        forall|k: int| 0 <= k < states.len() ==> (#[trigger] states[k] as int) < d.states@.len(),
        d.states@[states[m] as int].contents().contains(it),
    ensures
        it.dot <= m,
        it.dot > 0 ==> it.dot <= g.rhs_of(it.production_id as int).len() && g.valid_prod(it.production_id as int),
        it.dot > 0 ==> symbols.subrange(m - it.dot, m) == g.rhs_of(it.production_id as int).subrange(0, it.dot as int),
        d.states@[states[m - it.dot] as int].contents().contains(ItemLR1 { production_id: it.production_id, dot: 0, lookahead: it.lookahead }),
    decreases m,
{
    let st = |q: int| d.states@[q].contents();
    if it.dot > 0 {
        if m == 0 {
            lemma_closure_items_justified_lr1(g, first, set![ItemLR1 { production_id: 0, dot: 0, lookahead: Terminal::End }], st(0));
            assert(justified_lr1(g, first, set![ItemLR1 { production_id: 0, dot: 0, lookahead: Terminal::End }], st(0), it));
            assert(false);
        } else {
            let q = choose|q: int| 0 <= q < d.transitions@.len() && (#[trigger] d.transitions@[q]).0 == (states[m - 1], symbols[m - 1]) && d.transitions@[q].1 == states[m];
            let tq = d.transitions@[q];
            let i = tq.0.0 as int;
            let x = tq.0.1;
            assert(is_lr1_closure(g, first, lr1_kernel(g, st(i), x), st(states[m] as int)));
            lemma_closure_items_justified_lr1(g, first, lr1_kernel(g, st(i), x), st(states[m] as int));
            assert(justified_lr1(g, first, lr1_kernel(g, st(i), x), st(states[m] as int), it));
            lemma_kernel_dots_lr1(g, st(i), x, it);
            let j = choose|j: ItemLR1| #[trigger] st(i).contains(j) && j.after_dot(g) == Some(x) && j.production_id == it.production_id && j.dot + 1 == it.dot
                && j.lookahead == it.lookahead;
            assert(i == states[m - 1] as int);
            lemma_trace_lr1(g, first, d, states, symbols, m - 1, j);
            let rhs = g.rhs_of(it.production_id as int);
            assert(rhs[j.dot as int] == x);
            if j.dot > 0 {
                assert(symbols.subrange(m - it.dot, m) =~= symbols.subrange(m - 1 - j.dot, m - 1).push(symbols[m - 1]));
                assert(rhs.subrange(0, it.dot as int) =~= rhs.subrange(0, j.dot as int).push(rhs[j.dot as int]));
            } else {
                assert(symbols.subrange(m - it.dot, m) =~= seq![symbols[m - 1]]);
                assert(rhs.subrange(0, it.dot as int) =~= seq![rhs[0]]);
            }
        }
    }
}

/// An initial item in a state of the stack, other than the start item at the
/// bottom, is there because some item of that state has its left-hand side
/// right after the dot.
pub proof fn lemma_initial_item_asked_lr1(
    g: &Grammar,
    first: Map<NonTerminal, Set<Symbol>>,
    d: &Dfa<StateLR1>,
    states: Seq<usize>,
    symbols: Seq<Symbol>,
    m: int,
    p: usize,
    la: Terminal,
)
    requires
        augmented(g),
        is_lr1_automaton(g, first, d),
        on_path(d, states, symbols),
        0 <= m < states.len(),
        forall|k: int| 0 <= k < states.len() ==> (#[trigger] states[k] as int) < d.states@.len(),
        d.states@[states[m] as int].contents().contains(ItemLR1 { production_id: p, dot: 0, lookahead: la }),
        m > 0 || p != 0,
    ensures
        g.valid_prod(p as int),
        lr1_next_symbol(g, d.states@[states[m] as int].contents(), Symbol::NonTerminal(g.lhs_of(p as int))),
{
    let st = |q: int| d.states@[q].contents();
    let it = ItemLR1 { production_id: p, dot: 0, lookahead: la };
    if m == 0 {
        lemma_closure_items_justified_lr1(g, first, set![ItemLR1 { production_id: 0, dot: 0, lookahead: Terminal::End }], st(0));
        assert(justified_lr1(g, first, set![ItemLR1 { production_id: 0, dot: 0, lookahead: Terminal::End }], st(0), it));
    } else {
        let q = choose|q: int| 0 <= q < d.transitions@.len() && (#[trigger] d.transitions@[q]).0 == (states[m - 1], symbols[m - 1]) && d.transitions@[q].1 == states[m];
        let tq = d.transitions@[q];
        let i = tq.0.0 as int;
        let x = tq.0.1;
        assert(is_lr1_closure(g, first, lr1_kernel(g, st(i), x), st(states[m] as int)));
        lemma_closure_items_justified_lr1(g, first, lr1_kernel(g, st(i), x), st(states[m] as int));
        assert(justified_lr1(g, first, lr1_kernel(g, st(i), x), st(states[m] as int), it));
        if lr1_kernel(g, st(i), x).contains(it) {
            lemma_kernel_dots_lr1(g, st(i), x, it);
        }
    }
    let j = choose|j: ItemLR1| #[trigger] st(states[m] as int).contains(j) && j.after_dot(g) == Some(Symbol::NonTerminal(g.lhs_of(p as int)));
}



/// An LR(1) table built without conflicts from an LR(1) automaton.
pub open spec fn lr1_table_of(g: &Grammar, d: &Dfa<StateLR1>, t: &LRTable) -> bool {
    &&& shifts_follow_transitions(t.action@, d.transitions@)
    &&& lr1_cells_follow_items(g, d.states@, t.action@)
    &&& gotos_follow_transitions(t.goto@, d.transitions@)
}

/// One step from a configuration along the automaton stays along it, and
/// fails, if it does, only on the input.
#[verifier::rlimit(50)]
pub proof fn lemma_lr1_step_safe(
    g: &Grammar,
    first: Map<NonTerminal, Set<Symbol>>,
    d: &Dfa<StateLR1>,
    t: &LRTable,
    toks: Seq<TokenView>,
    c: ParserConfig,
)
    requires
        augmented(g),
        is_lr1_automaton(g, first, d),
        d.states@.len() <= usize::MAX,
        lr1_table_of(g, d, t),
        safe_config(d, c),
    ensures
        parse_step(g, t, toks, c) matches Outcome::Running(c2) ==> safe_config(d, c2),
        parse_step(g, t, toks, c) matches Outcome::Failed(e) ==> e.kind == ParseErrorKind::Syntax,
{
    let m = c.symbols.len() as int;
    let tr = d.transitions@;
    let st = |q: int| d.states@[q].contents();
    assert(c.states.last() == c.states[m]);
    if 0 <= c.index < toks.len() {
        let s = c.states[m];
        let kind = toks[c.index].kind;
        if t.action@.dom().contains((s, kind)) {
            let x = t.action@[(s, kind)];
            assert(holds(t.action@, s, kind, x));
            match x {
                Action::Shift(j) => {
                    let q = choose|q: int| 0 <= q < tr.len() && (#[trigger] tr[q]).0 == (s, Symbol::Terminal(kind)) && tr[q].1 == j;
                    let c2 = parse_step(g, t, toks, c)->Running_0;
                    assert(c2.symbols[m] == Symbol::Terminal(kind));
                    assert forall|k: int| 0 <= k < c2.symbols.len() implies exists|q2: int|
                        0 <= q2 < tr.len() && (#[trigger] tr[q2]).0 == (c2.states[k], #[trigger] c2.symbols[k]) && tr[q2].1 == c2.states[k + 1] by {
                        if k < m {
                            assert(c2.symbols[k] == c.symbols[k] && c2.states[k] == c.states[k] && c2.states[k + 1] == c.states[k + 1]);
                        } else {
                            assert(tr[q].0 == (c2.states[k], c2.symbols[k]));
                        }
                    }
                    assert(forall|k: int| 0 <= k < c2.states.len() ==> (#[trigger] c2.states[k] as int) < d.states@.len()) by {
                        assert forall|k: int| 0 <= k < c2.states.len() implies (#[trigger] c2.states[k] as int) < d.states@.len() by {
                            if k < m + 1 {
                                assert(c2.states[k] == c.states[k]);
                            }
                        }
                    }
                },
                Action::Reduce(p) => {
                    let it = choose|it: ItemLR1| #[trigger] d.states@[s as int].elems().contains(it) && it.spec_is_complete(g) && it.production_id == p && it.lookahead == kind;
                    assert(st(s as int).contains(it));
                    lemma_trace_lr1(g, first, d, c.states, c.symbols, m, it);
                    let rhs = g.rhs_of(p as int);
                    let r = rhs.len() as int;
                    assert(it.dot == r);
                    assert(rhs.subrange(0, r) =~= rhs);
                    assert(st(c.states[m - r] as int).contains(ItemLR1 { production_id: p, dot: 0, lookahead: it.lookahead }));
                    lemma_initial_item_asked_lr1(g, first, d, c.states, c.symbols, m - r, p, it.lookahead);
                    let lhs = g.lhs_of(p as int);
                    assert(has_transition_from(tr, c.states[m - r] as int, Symbol::NonTerminal(lhs)));
                    let q = choose|q: int| 0 <= q < tr.len() && (#[trigger] tr[q]).0 == ((c.states[m - r] as int) as usize, Symbol::NonTerminal(lhs));
                    assert(goto_holds(t.goto@, c.states[m - r], lhs, tr[q].1));
                    let kept = c.states.take(m + 1 - r);
                    assert(kept.last() == c.states[m - r]);
                    assert(c.symbols.subrange(m - r, m) == rhs);
                    let c2 = parse_step(g, t, toks, c)->Running_0;
                    let target = t.goto@[(kept.last(), lhs)];
                    assert(goto_holds(t.goto@, c.states[m - r], lhs, target));
                    let q2 = choose|q2: int| 0 <= q2 < tr.len() && (#[trigger] tr[q2]).0 == (c.states[m - r], Symbol::NonTerminal(lhs)) && tr[q2].1 == target;
                    assert(c2.states =~= kept.push(target));
                    assert forall|k: int| 0 <= k < c2.symbols.len() implies exists|q3: int|
                        0 <= q3 < tr.len() && (#[trigger] tr[q3]).0 == (c2.states[k], #[trigger] c2.symbols[k]) && tr[q3].1 == c2.states[k + 1] by {
                        if k < m - r {
                            assert(c2.symbols[k] == c.symbols[k] && c2.states[k] == c.states[k] && c2.states[k + 1] == c.states[k + 1]);
                        } else {
                            assert(tr[q2].0 == (c2.states[k], c2.symbols[k]));
                        }
                    }
                    assert(forall|k: int| 0 <= k < c2.states.len() ==> (#[trigger] c2.states[k] as int) < d.states@.len()) by {
                        assert forall|k: int| 0 <= k < c2.states.len() implies (#[trigger] c2.states[k] as int) < d.states@.len() by {
                            if k < m + 1 - r {
                                assert(c2.states[k] == c.states[k]);
                            }
                        }
                    }
                },
                Action::Accept => {
                    let it = choose|it: ItemLR1| #[trigger] d.states@[s as int].elems().contains(it) && it.spec_is_complete(g) && it.production_id == 0;
                    assert(st(s as int).contains(it));
                    lemma_trace_lr1(g, first, d, c.states, c.symbols, m, it);
                    assert(it.dot == 1);
                    if m > 1 {
                        lemma_initial_item_asked_lr1(g, first, d, c.states, c.symbols, m - 1, 0, it.lookahead);
                        let j = choose|j: ItemLR1| #[trigger] st(c.states[m - 1] as int).contains(j) && j.after_dot(g) == Some(Symbol::NonTerminal(g.lhs_of(0)));
                        assert(g.rhs_of(j.production_id as int)[j.dot as int] == Symbol::NonTerminal(g.lhs_of(0)));
                    }
                },
            }
        }
    }
}

/// Along any number of steps, the machine on an SLR(1) table built without
/// conflicts stays along the automaton and fails, if it does, only on the input.
pub proof fn lemma_lr1_run_safe(
    g: &Grammar,
    first: Map<NonTerminal, Set<Symbol>>,
    d: &Dfa<StateLR1>,
    t: &LRTable,
    toks: Seq<TokenView>,
    n: nat,
)
    requires
        augmented(g),
        is_lr1_automaton(g, first, d),
        d.states@.len() <= usize::MAX,
        lr1_table_of(g, d, t),
    ensures
        run(g, t, toks, n) matches Outcome::Running(c) ==> safe_config(d, c),
        run(g, t, toks, n) matches Outcome::Failed(e) ==> e.kind == ParseErrorKind::Syntax,
    decreases n,
{
    if n == 0 {
        let c = initial_config();
        assert(c.states[0] == 0);
    } else {
        lemma_lr1_run_safe(g, first, d, t, toks, (n - 1) as nat);
        if let Outcome::Running(c) = run(g, t, toks, (n - 1) as nat) {
            lemma_lr1_step_safe(g, first, d, t, toks, c);
        }
    }
}

/// An SLR(1) table built without conflicts from the LR(0) automaton of an
/// augmented grammar never makes the analysis fail for an internal reason:
/// every failure is a syntax error in the input.
pub proof fn lemma_lr1_failures_are_syntax_errors(
    g: &Grammar,
    first: Map<NonTerminal, Set<Symbol>>,
    d: &Dfa<StateLR1>,
    t: &LRTable,
    toks: Seq<TokenView>,
)
    requires
        augmented(g),
        is_lr1_automaton(g, first, d),
        d.states@.len() <= usize::MAX,
        lr1_table_of(g, d, t),
    ensures
        parse_outcome(g, t, toks) matches Outcome::Failed(e) ==> e.kind == ParseErrorKind::Syntax,
{
    if toks.len() > 0 {
        lemma_lr1_run_safe(g, first, d, t, toks, crate::lr_parser::halting_steps(g, t, toks));
    }
}

} // verus!
