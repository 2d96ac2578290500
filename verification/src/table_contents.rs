use vstd::prelude::*;
use crate::lr_table::{Action, Request, TableModel, apply_requests, empty_model, shift_requests, state_requests, all_requests, request_met, lemma_requests_fill_cells, lr1_item_requests, lr1_requests_fn, lr1_items, lr0_item_requests, lr0_requests_fn, lr0_items, slr_item_requests, slr_requests_fn, terminals_in, goto_entries};
use crate::dfa::transitions_sorted;
use crate::item_lr0::{Item, State};
use crate::grammar::Grammar;
use crate::item_lr1::{ItemLR1, StateLR1};
use crate::symbol::{NonTerminal, Symbol, Terminal};

verus! {

/// The ACTION cells are exactly what the requests ask for: cell `(i, a)`
/// holds `x` if and only if some request asks for `x` there.
pub open spec fn cells_are_requests(cells: Map<(usize, Terminal), Action>, reqs: Seq<Request>) -> bool {
    forall|i: usize, a: Terminal, x: Action|
        #![trigger cells.dom().contains((i, a)), reqs.contains((i, a, x))]
        (cells.dom().contains((i, a)) && cells[(i, a)] == x) <==> reqs.contains((i, a, x))
}

/// Applying two runs of requests is applying their concatenation.
pub proof fn lemma_apply_concat(m: TableModel, a: Seq<Request>, b: Seq<Request>)
    ensures
        apply_requests(apply_requests(m, a), b) == apply_requests(m, a + b),
    decreases b.len(),
{
    if b.len() > 0 {
        lemma_apply_concat(m, a, b.drop_last());
        assert((a + b).drop_last() =~= a + b.drop_last());
        assert((a + b).last() == b.last());
    } else {
        assert(a + b =~= a);
    }
}

/// When filling an empty table records no conflict, its cells are exactly the
/// requests.
pub proof fn lemma_conflict_free_cells(reqs: Seq<Request>)
    requires
        apply_requests(empty_model(), reqs).1.len() == 0,
    ensures
        cells_are_requests(apply_requests(empty_model(), reqs).0, reqs),
{
    let fin = apply_requests(empty_model(), reqs);
    lemma_requests_fill_cells(empty_model(), reqs);
    assert forall|i: usize, a: Terminal, x: Action|
        (fin.0.dom().contains((i, a)) && fin.0[(i, a)] == x) <==> reqs.contains((i, a, x)) by {
        if fin.0.dom().contains((i, a)) && fin.0[(i, a)] == x {
            assert(!empty_model().0.dom().contains((i, a)));
            let k = choose|k: int| 0 <= k < reqs.len() && (reqs[k].0, reqs[k].1) == (i, a) && #[trigger] reqs[k].2 == fin.0[(i, a)];
            assert(reqs[k] == (i, a, x));
        }
        if reqs.contains((i, a, x)) {
            let k = choose|k: int| 0 <= k < reqs.len() && reqs[k] == (i, a, x);
            assert(request_met(fin.0, reqs[k]));
        }
    }
}

/// `(a + b)` holds `r` exactly when `a` or `b` does.
pub proof fn lemma_concat_contains<T>(a: Seq<T>, b: Seq<T>, r: T)
    ensures
        (a + b).contains(r) <==> a.contains(r) || b.contains(r),
{
    if (a + b).contains(r) {
        let k = choose|k: int| 0 <= k < (a + b).len() && (a + b)[k] == r;
        if k >= a.len() {
            assert(b[k - a.len()] == r);
        }
    }
    if a.contains(r) {
        let k = choose|k: int| 0 <= k < a.len() && a[k] == r;
        assert((a + b)[k] == r);
    }
    if b.contains(r) {
        let k = choose|k: int| 0 <= k < b.len() && b[k] == r;
        assert((a + b)[a.len() + k] == r);
    }
}

/// The shift requests are the transitions on terminals.
pub proof fn lemma_shift_requests_contains(t: Seq<((usize, Symbol), usize)>, i: usize, a: Terminal, x: Action)
    ensures
        shift_requests(t).contains((i, a, x)) <==> exists|k: int|
            0 <= k < t.len() && (#[trigger] t[k]).0 == (i, Symbol::Terminal(a)) && x == Action::Shift(t[k].1),
    decreases t.len(),
{
    if t.len() > 0 {
        let pre = t.drop_last();
        lemma_shift_requests_contains(pre, i, a, x);
        let r = shift_requests(pre);
        let e = t.last();
        if exists|k: int| 0 <= k < pre.len() && (#[trigger] pre[k]).0 == (i, Symbol::Terminal(a)) && x == Action::Shift(pre[k].1) {
            let k = choose|k: int| 0 <= k < pre.len() && (#[trigger] pre[k]).0 == (i, Symbol::Terminal(a)) && x == Action::Shift(pre[k].1);
            assert(t[k] == pre[k]);
        }
        match e.0.1 {
            Symbol::Terminal(term) => {
                let q = (e.0.0, term, Action::Shift(e.1));
                lemma_concat_contains(r, seq![q], (i, a, x));
                assert(r.push(q) =~= r + seq![q]);
                if seq![q].contains((i, a, x)) {
                    assert(seq![q][0] == q);
                    assert(t[t.len() - 1] == e);
                }
                if exists|k: int| 0 <= k < t.len() && (#[trigger] t[k]).0 == (i, Symbol::Terminal(a)) && x == Action::Shift(t[k].1) {
                    let k = choose|k: int| 0 <= k < t.len() && (#[trigger] t[k]).0 == (i, Symbol::Terminal(a)) && x == Action::Shift(t[k].1);
                    if k < pre.len() {
                        assert(pre[k] == t[k]);
                    } else {
                        assert(seq![q][0] == (i, a, x));
                    }
                }
            },
            _ => {
                if exists|k: int| 0 <= k < t.len() && (#[trigger] t[k]).0 == (i, Symbol::Terminal(a)) && x == Action::Shift(t[k].1) {
                    let k = choose|k: int| 0 <= k < t.len() && (#[trigger] t[k]).0 == (i, Symbol::Terminal(a)) && x == Action::Shift(t[k].1);
                    if k < pre.len() {
                        assert(pre[k] == t[k]);
                    }
                }
            },
        }
    }
}

/// The requests of a state are those of its items.
pub proof fn lemma_state_requests_contains<I>(f: spec_fn(usize, I) -> Seq<Request>, s: usize, items: Seq<I>, r: Request)
    ensures
        state_requests(f, s, items).contains(r) <==> exists|k: int| 0 <= k < items.len() && #[trigger] f(s, items[k]).contains(r),
    decreases items.len(),
{
    if items.len() > 0 {
        let pre = items.drop_last();
        lemma_state_requests_contains(f, s, pre, r);
        lemma_concat_contains(state_requests(f, s, pre), f(s, items.last()), r);
        if exists|k: int| 0 <= k < pre.len() && #[trigger] f(s, pre[k]).contains(r) {
            let k = choose|k: int| 0 <= k < pre.len() && #[trigger] f(s, pre[k]).contains(r);
            assert(items[k] == pre[k]);
        }
        if f(s, items.last()).contains(r) {
            assert(items[items.len() - 1] == items.last());
        }
        if exists|k: int| 0 <= k < items.len() && #[trigger] f(s, items[k]).contains(r) {
            let k = choose|k: int| 0 <= k < items.len() && #[trigger] f(s, items[k]).contains(r);
            if k < pre.len() {
                assert(items[k] == pre[k]);
            }
        }
    }
}

/// The requests of all states are those of the items of each state.
pub proof fn lemma_all_requests_contains<I>(f: spec_fn(usize, I) -> Seq<Request>, states: Seq<Seq<I>>, r: Request)
    ensures
        all_requests(f, states).contains(r) <==> exists|s: int, k: int|
            0 <= s < states.len() && 0 <= k < states[s].len() && #[trigger] f(s as usize, states[s][k]).contains(r),
    decreases states.len(),
{
    if states.len() > 0 {
        let pre = states.drop_last();
        let last = (states.len() - 1) as usize;
        lemma_all_requests_contains(f, pre, r);
        lemma_state_requests_contains(f, last, states.last(), r);
        lemma_concat_contains(all_requests(f, pre), state_requests(f, last, states.last()), r);
        if exists|s: int, k: int| 0 <= s < pre.len() && 0 <= k < pre[s].len() && #[trigger] f(s as usize, pre[s][k]).contains(r) {
            let (s, k) = choose|s: int, k: int| 0 <= s < pre.len() && 0 <= k < pre[s].len() && #[trigger] f(s as usize, pre[s][k]).contains(r);
            assert(states[s] == pre[s]);
        }
        if state_requests(f, last, states.last()).contains(r) {
            let k = choose|k: int| 0 <= k < states.last().len() && #[trigger] f(last, states.last()[k]).contains(r);
            assert(states[states.len() - 1] == states.last());
            assert(f((states.len() - 1) as usize, states[states.len() - 1][k]).contains(r));
        }
        if exists|s: int, k: int| 0 <= s < states.len() && 0 <= k < states[s].len() && #[trigger] f(s as usize, states[s][k]).contains(r) {
            let (s, k) = choose|s: int, k: int| 0 <= s < states.len() && 0 <= k < states[s].len() && #[trigger] f(s as usize, states[s][k]).contains(r);
            if s < pre.len() {
                assert(states[s] == pre[s]);
            } else {
                assert(states[s] == states.last());
            }
        }
    }
}

/// Cell `(i, a)` holds `x`.
pub open spec fn holds(cells: Map<(usize, Terminal), Action>, i: usize, a: Terminal, x: Action) -> bool {
    cells.dom().contains((i, a)) && cells[(i, a)] == x
}

/// The shift cells are the transitions on terminals: `(i, a)` holds shift `j`
/// exactly when the automaton goes from `i` on `a` to `j`.
pub open spec fn shifts_follow_transitions(cells: Map<(usize, Terminal), Action>, t: Seq<((usize, Symbol), usize)>) -> bool {
    forall|i: usize, a: Terminal, j: usize|
        #[trigger] holds(cells, i, a, Action::Shift(j)) <==> exists|k: int|
            0 <= k < t.len() && (#[trigger] t[k]).0 == (i, Symbol::Terminal(a)) && t[k].1 == j
}

/// The reduce and accept cells of an LR(1) table follow the complete items:
/// `(i, a)` reduces by `p` exactly when state `i` holds the complete item of
/// `p` with lookahead `a` (`p` not the augmented production), and accepts
/// exactly when `a` is `#` and state `i` holds a complete augmented item.
pub open spec fn lr1_cells_follow_items(g: &Grammar, states: Seq<StateLR1>, cells: Map<(usize, Terminal), Action>) -> bool {
    &&& forall|i: usize, a: Terminal, p: usize|
        #[trigger] holds(cells, i, a, Action::Reduce(p)) <==> p != 0 && i < states.len() && exists|it: ItemLR1|
            #[trigger] states[i as int].elems().contains(it) && it.spec_is_complete(g) && it.production_id == p && it.lookahead == a
    &&& forall|i: usize, a: Terminal|
        #[trigger] holds(cells, i, a, Action::Accept) <==> a == Terminal::End && i < states.len() && exists|it: ItemLR1|
            #[trigger] states[i as int].elems().contains(it) && it.spec_is_complete(g) && it.production_id == 0
}

/// What an LR(1) item asks for.
pub proof fn lemma_lr1_item_requests_contains(g: &Grammar, s: usize, it: ItemLR1, i: usize, a: Terminal, x: Action)
    ensures
        lr1_item_requests(g, s, it).contains((i, a, x)) <==> i == s && it.spec_is_complete(g) && if it.production_id == 0 {
            a == Terminal::End && x == Action::Accept
        } else {
            a == it.lookahead && x == Action::Reduce(it.production_id)
        },
{
    let r = lr1_item_requests(g, s, it);
    if it.spec_is_complete(g) {
        assert(r.len() == 1);
        if r.contains((i, a, x)) {
            let k = choose|k: int| 0 <= k < r.len() && r[k] == (i, a, x);
            assert(k == 0);
        }
        assert(r[0] == r[0]);
    }
}

/// The requests made for an item are all for its own state, and none is a shift.
pub open spec fn asks_in_own_state<I>(f: spec_fn(usize, I) -> Seq<Request>) -> bool {
    forall|s: usize, it: I, r: Request| #[trigger] f(s, it).contains(r) ==> r.0 == s && !(r.2 is Shift)
}

/// A table filled without a conflict from the transitions and then from the
/// items of each state: its shift cells are the transitions on terminals,
/// and any other cell holds what some item of its state asks for there.
pub proof fn lemma_item_cells<I>(f: spec_fn(usize, I) -> Seq<Request>, items: Seq<Seq<I>>, t: Seq<((usize, Symbol), usize)>)
    requires
        items.len() <= usize::MAX,
        asks_in_own_state(f),
        apply_requests(apply_requests(empty_model(), shift_requests(t)), all_requests(f, items)).1.len() == 0,
    ensures
        shifts_follow_transitions(apply_requests(apply_requests(empty_model(), shift_requests(t)), all_requests(f, items)).0, t),
        forall|i: usize, a: Terminal, x: Action| !(x is Shift) ==> (#[trigger] holds(apply_requests(apply_requests(empty_model(), shift_requests(t)), all_requests(f, items)).0, i, a, x)
            <==> i < items.len() && exists|k: int| 0 <= k < items[i as int].len() && #[trigger] f(i, items[i as int][k]).contains((i, a, x))),
{
    let sh = shift_requests(t);
    let al = all_requests(f, items);
    let cells = apply_requests(apply_requests(empty_model(), sh), al).0;
    lemma_apply_concat(empty_model(), sh, al);
    lemma_conflict_free_cells(sh + al);
    assert forall|i: usize, a: Terminal, x: Action| #[trigger] holds(cells, i, a, x) <==> sh.contains((i, a, x)) || al.contains((i, a, x)) by {
        lemma_concat_contains(sh, al, (i, a, x));
    }
    assert forall|i: usize, a: Terminal, x: Action| #[trigger] al.contains((i, a, x)) <==> i < items.len() && exists|k: int|
        0 <= k < items[i as int].len() && #[trigger] f(i, items[i as int][k]).contains((i, a, x)) by {
        lemma_all_requests_contains(f, items, (i, a, x));
        if al.contains((i, a, x)) {
            let (s, k) = choose|s: int, k: int| 0 <= s < items.len() && 0 <= k < items[s].len() && #[trigger] f(s as usize, items[s][k]).contains((i, a, x));
            assert(i == s as usize);
        }
        if i < items.len() && exists|k: int| 0 <= k < items[i as int].len() && #[trigger] f(i, items[i as int][k]).contains((i, a, x)) {
            let k = choose|k: int| 0 <= k < items[i as int].len() && #[trigger] f(i, items[i as int][k]).contains((i, a, x));
            assert(f((i as int) as usize, items[i as int][k]).contains((i, a, x)));
        }
    }
    assert forall|i: usize, a: Terminal, j: usize| #[trigger] holds(cells, i, a, Action::Shift(j)) <==> exists|k: int|
        0 <= k < t.len() && (#[trigger] t[k]).0 == (i, Symbol::Terminal(a)) && t[k].1 == j by {
        lemma_shift_requests_contains(t, i, a, Action::Shift(j));
        if al.contains((i, a, Action::Shift(j))) {
            let k = choose|k: int| 0 <= k < items[i as int].len() && #[trigger] f(i, items[i as int][k]).contains((i, a, Action::Shift(j)));
        }
    }
    assert forall|i: usize, a: Terminal, x: Action| !(x is Shift) implies (#[trigger] holds(cells, i, a, x)
        <==> i < items.len() && exists|k: int| 0 <= k < items[i as int].len() && #[trigger] f(i, items[i as int][k]).contains((i, a, x))) by {
        lemma_shift_requests_contains(t, i, a, x);
    }
}

/// An LR(1) table filled without a conflict: its shift cells are the
/// transitions on terminals and its reduce and accept cells follow the
/// complete items.
pub proof fn lemma_lr1_cells(g: &Grammar, states: Seq<StateLR1>, t: Seq<((usize, Symbol), usize)>)
    requires
        states.len() <= usize::MAX,
        apply_requests(apply_requests(empty_model(), shift_requests(t)), all_requests(lr1_requests_fn(g), lr1_items(states))).1.len() == 0,
    ensures
        shifts_follow_transitions(apply_requests(apply_requests(empty_model(), shift_requests(t)), all_requests(lr1_requests_fn(g), lr1_items(states))).0, t),
        lr1_cells_follow_items(g, states, apply_requests(apply_requests(empty_model(), shift_requests(t)), all_requests(lr1_requests_fn(g), lr1_items(states))).0),
{
    let f = lr1_requests_fn(g);
    let items = lr1_items(states);
    let cells = apply_requests(apply_requests(empty_model(), shift_requests(t)), all_requests(f, items)).0;
    assert forall|s: usize, it: ItemLR1, r: Request| #[trigger] f(s, it).contains(r) implies r.0 == s && !(r.2 is Shift) by {
        lemma_lr1_item_requests_contains(g, s, it, r.0, r.1, r.2);
    }
    lemma_item_cells(f, items, t);
    assert forall|i: usize, a: Terminal, x: Action| !(x is Shift) && #[trigger] holds(cells, i, a, x) <==> !(x is Shift) && i < states.len() && exists|it: ItemLR1|
        #[trigger] states[i as int].elems().contains(it) && lr1_item_requests(g, i, it).contains((i, a, x)) by {
        if i < states.len() {
            assert(items[i as int] == states[i as int].elems());
            if exists|k: int| 0 <= k < items[i as int].len() && #[trigger] f(i, items[i as int][k]).contains((i, a, x)) {
                let k = choose|k: int| 0 <= k < items[i as int].len() && #[trigger] f(i, items[i as int][k]).contains((i, a, x));
                assert(states[i as int].elems().contains(items[i as int][k]));
            }
            if exists|it: ItemLR1| #[trigger] states[i as int].elems().contains(it) && lr1_item_requests(g, i, it).contains((i, a, x)) {
                let it = choose|it: ItemLR1| #[trigger] states[i as int].elems().contains(it) && lr1_item_requests(g, i, it).contains((i, a, x));
                let k = choose|k: int| 0 <= k < states[i as int].elems().len() && states[i as int].elems()[k] == it;
                assert(f(i, items[i as int][k]).contains((i, a, x)));
            }
        }
    }
    assert forall|i: usize, a: Terminal, p: usize| #[trigger] holds(cells, i, a, Action::Reduce(p)) <==> p != 0 && i < states.len() && exists|it: ItemLR1|
        #[trigger] states[i as int].elems().contains(it) && it.spec_is_complete(g) && it.production_id == p && it.lookahead == a by {
        if holds(cells, i, a, Action::Reduce(p)) {
            let it = choose|it: ItemLR1| #[trigger] states[i as int].elems().contains(it) && lr1_item_requests(g, i, it).contains((i, a, Action::Reduce(p)));
            lemma_lr1_item_requests_contains(g, i, it, i, a, Action::Reduce(p));
        }
        if p != 0 && i < states.len() && exists|it: ItemLR1| #[trigger] states[i as int].elems().contains(it) && it.spec_is_complete(g) && it.production_id == p && it.lookahead == a {
            let it = choose|it: ItemLR1| #[trigger] states[i as int].elems().contains(it) && it.spec_is_complete(g) && it.production_id == p && it.lookahead == a;
            lemma_lr1_item_requests_contains(g, i, it, i, a, Action::Reduce(p));
        }
    }
    assert forall|i: usize, a: Terminal| #[trigger] holds(cells, i, a, Action::Accept) <==> a == Terminal::End && i < states.len() && exists|it: ItemLR1|
        #[trigger] states[i as int].elems().contains(it) && it.spec_is_complete(g) && it.production_id == 0 by {
        if holds(cells, i, a, Action::Accept) {
            let it = choose|it: ItemLR1| #[trigger] states[i as int].elems().contains(it) && lr1_item_requests(g, i, it).contains((i, a, Action::Accept));
            lemma_lr1_item_requests_contains(g, i, it, i, a, Action::Accept);
        }
        if a == Terminal::End && i < states.len() && exists|it: ItemLR1| #[trigger] states[i as int].elems().contains(it) && it.spec_is_complete(g) && it.production_id == 0 {
            let it = choose|it: ItemLR1| #[trigger] states[i as int].elems().contains(it) && it.spec_is_complete(g) && it.production_id == 0;
            lemma_lr1_item_requests_contains(g, i, it, i, a, Action::Accept);
        }
    }
}

/// The reduce and accept cells of an LR(0) table follow the complete items:
/// `(i, a)` reduces by `p` exactly when state `i` holds a complete item of `p`
/// (`p` not the augmented production), whatever `a` is, and accepts exactly
/// when `a` is `#` and state `i` holds a complete augmented item.
pub open spec fn lr0_cells_follow_items(g: &Grammar, states: Seq<State>, cells: Map<(usize, Terminal), Action>) -> bool {
    &&& forall|i: usize, a: Terminal, p: usize|
        #[trigger] holds(cells, i, a, Action::Reduce(p)) <==> p != 0 && i < states.len() && exists|it: Item|
            #[trigger] states[i as int].elems().contains(it) && it.spec_is_complete(g) && it.production_id == p
    &&& forall|i: usize, a: Terminal|
        #[trigger] holds(cells, i, a, Action::Accept) <==> a == Terminal::End && i < states.len() && exists|it: Item|
            #[trigger] states[i as int].elems().contains(it) && it.spec_is_complete(g) && it.production_id == 0
}

/// The reduce and accept cells of an SLR(1) table follow the complete items:
/// `(i, a)` reduces by `p` exactly when state `i` holds a complete item of `p`
/// (`p` not the augmented production) and `a` is in FOLLOW of the left-hand
/// side of `p`; it accepts exactly when `a` is `#` and state `i` holds a
/// complete augmented item.
pub open spec fn slr_cells_follow_items(
    g: &Grammar,
    follow: Map<NonTerminal, Set<Symbol>>,
    states: Seq<State>,
    cells: Map<(usize, Terminal), Action>,
) -> bool {
    &&& forall|i: usize, a: Terminal, p: usize|
        #[trigger] holds(cells, i, a, Action::Reduce(p)) <==> p != 0 && i < states.len() && follow.dom().contains(g.lhs_of(p as int))
            && follow[g.lhs_of(p as int)].contains(Symbol::Terminal(a)) && exists|it: Item|
            #[trigger] states[i as int].elems().contains(it) && it.spec_is_complete(g) && it.production_id == p
    &&& forall|i: usize, a: Terminal|
        #[trigger] holds(cells, i, a, Action::Accept) <==> a == Terminal::End && i < states.len() && exists|it: Item|
            #[trigger] states[i as int].elems().contains(it) && it.spec_is_complete(g) && it.production_id == 0
}

/// What an LR(0) item asks for.
pub proof fn lemma_lr0_item_requests_contains(g: &Grammar, s: usize, it: Item, i: usize, a: Terminal, x: Action)
    ensures
        lr0_item_requests(g, s, it).contains((i, a, x)) <==> i == s && it.spec_is_complete(g) && if it.production_id == 0 {
            a == Terminal::End && x == Action::Accept
        } else {
            x == Action::Reduce(it.production_id)
        },
{
    let r = lr0_item_requests(g, s, it);
    if it.spec_is_complete(g) {
        if it.production_id == 0 {
            if r.contains((i, a, x)) {
                let k = choose|k: int| 0 <= k < r.len() && r[k] == (i, a, x);
                assert(k == 0);
            }
            assert(r[0] == r[0]);
        } else {
            a.lemma_at_index();
            assert(r[a.spec_index() as int] == (s, a, Action::Reduce(it.production_id)));
        }
    }
}

/// The terminals of `set` among the first `n` are those of index below `n`.
pub proof fn lemma_terminals_in_contains(set: Set<Symbol>, n: int, a: Terminal)
    requires
        0 <= n <= 28,
    ensures
        terminals_in(set, n).contains(a) <==> a.spec_index() < n && set.contains(Symbol::Terminal(a)),
    decreases n,
{
    if n > 0 {
        lemma_terminals_in_contains(set, n - 1, a);
        let pre = terminals_in(set, n - 1);
        let b = Terminal::at(n - 1);
        a.lemma_at_index();
        Terminal::lemma_index_at(n - 1);
        if set.contains(Symbol::Terminal(b)) {
            lemma_concat_contains(pre, seq![b], a);
            assert(pre.push(b) =~= pre + seq![b]);
            if seq![b].contains(a) {
                assert(seq![b][0] == b);
            }
            if a == b {
                assert(seq![b][0] == a);
            }
        }
    }
}

/// What an SLR(1) item asks for.
pub proof fn lemma_slr_item_requests_contains(
    g: &Grammar,
    follow: Map<NonTerminal, Set<Symbol>>,
    s: usize,
    it: Item,
    i: usize,
    a: Terminal,
    x: Action,
)
    ensures
        slr_item_requests(g, follow, s, it).contains((i, a, x)) <==> i == s && it.spec_is_complete(g) && if it.production_id == 0 {
            a == Terminal::End && x == Action::Accept
        } else {
            &&& follow.dom().contains(g.lhs_of(it.production_id as int))
            &&& follow[g.lhs_of(it.production_id as int)].contains(Symbol::Terminal(a))
            &&& x == Action::Reduce(it.production_id)
        },
{
    let r = slr_item_requests(g, follow, s, it);
    if it.spec_is_complete(g) {
        if it.production_id == 0 {
            if r.contains((i, a, x)) {
                let k = choose|k: int| 0 <= k < r.len() && r[k] == (i, a, x);
                assert(k == 0);
            }
            assert(r[0] == r[0]);
        } else {
            let lhs = g.lhs_of(it.production_id as int);
            if follow.dom().contains(lhs) {
                let ts = terminals_in(follow[lhs], 28);
                lemma_terminals_in_contains(follow[lhs], 28, a);
                a.lemma_at_index();
                if r.contains((i, a, x)) {
                    let k = choose|k: int| 0 <= k < r.len() && r[k] == (i, a, x);
                    assert(r[k] == (s, ts[k], Action::Reduce(it.production_id)));
                    assert(ts.contains(a));
                }
                if i == s && follow[lhs].contains(Symbol::Terminal(a)) && x == Action::Reduce(it.production_id) {
                    let k = choose|k: int| 0 <= k < ts.len() && ts[k] == a;
                    assert(r[k] == (i, a, x));
                }
            }
        }
    }
}

/// An LR(0) table filled without a conflict: its shift cells are the
/// transitions on terminals and its reduce and accept cells follow the
/// complete items.
pub proof fn lemma_lr0_cells(g: &Grammar, states: Seq<State>, t: Seq<((usize, Symbol), usize)>)
    requires
        states.len() <= usize::MAX,
        apply_requests(apply_requests(empty_model(), shift_requests(t)), all_requests(lr0_requests_fn(g), lr0_items(states))).1.len() == 0,
    ensures
        shifts_follow_transitions(apply_requests(apply_requests(empty_model(), shift_requests(t)), all_requests(lr0_requests_fn(g), lr0_items(states))).0, t),
        lr0_cells_follow_items(g, states, apply_requests(apply_requests(empty_model(), shift_requests(t)), all_requests(lr0_requests_fn(g), lr0_items(states))).0),
{
    let f = lr0_requests_fn(g);
    let items = lr0_items(states);
    let cells = apply_requests(apply_requests(empty_model(), shift_requests(t)), all_requests(f, items)).0;
    assert forall|s: usize, it: Item, r: Request| #[trigger] f(s, it).contains(r) implies r.0 == s && !(r.2 is Shift) by {
        lemma_lr0_item_requests_contains(g, s, it, r.0, r.1, r.2);
    }
    lemma_item_cells(f, items, t);
    assert forall|i: usize, a: Terminal, x: Action| !(x is Shift) && #[trigger] holds(cells, i, a, x) <==> !(x is Shift) && i < states.len() && exists|it: Item|
        #[trigger] states[i as int].elems().contains(it) && lr0_item_requests(g, i, it).contains((i, a, x)) by {
        if i < states.len() {
            assert(items[i as int] == states[i as int].elems());
            if exists|k: int| 0 <= k < items[i as int].len() && #[trigger] f(i, items[i as int][k]).contains((i, a, x)) {
                let k = choose|k: int| 0 <= k < items[i as int].len() && #[trigger] f(i, items[i as int][k]).contains((i, a, x));
                assert(states[i as int].elems().contains(items[i as int][k]));
            }
            if exists|it: Item| #[trigger] states[i as int].elems().contains(it) && lr0_item_requests(g, i, it).contains((i, a, x)) {
                let it = choose|it: Item| #[trigger] states[i as int].elems().contains(it) && lr0_item_requests(g, i, it).contains((i, a, x));
                let k = choose|k: int| 0 <= k < states[i as int].elems().len() && states[i as int].elems()[k] == it;
                assert(f(i, items[i as int][k]).contains((i, a, x)));
            }
        }
    }
    assert forall|i: usize, a: Terminal, p: usize| #[trigger] holds(cells, i, a, Action::Reduce(p)) <==> p != 0 && i < states.len() && exists|it: Item|
        #[trigger] states[i as int].elems().contains(it) && it.spec_is_complete(g) && it.production_id == p by {
        if holds(cells, i, a, Action::Reduce(p)) {
            let it = choose|it: Item| #[trigger] states[i as int].elems().contains(it) && lr0_item_requests(g, i, it).contains((i, a, Action::Reduce(p)));
            lemma_lr0_item_requests_contains(g, i, it, i, a, Action::Reduce(p));
        }
        if p != 0 && i < states.len() && exists|it: Item| #[trigger] states[i as int].elems().contains(it) && it.spec_is_complete(g) && it.production_id == p {
            let it = choose|it: Item| #[trigger] states[i as int].elems().contains(it) && it.spec_is_complete(g) && it.production_id == p;
            lemma_lr0_item_requests_contains(g, i, it, i, a, Action::Reduce(p));
        }
    }
    assert forall|i: usize, a: Terminal| #[trigger] holds(cells, i, a, Action::Accept) <==> a == Terminal::End && i < states.len() && exists|it: Item|
        #[trigger] states[i as int].elems().contains(it) && it.spec_is_complete(g) && it.production_id == 0 by {
        if holds(cells, i, a, Action::Accept) {
            let it = choose|it: Item| #[trigger] states[i as int].elems().contains(it) && lr0_item_requests(g, i, it).contains((i, a, Action::Accept));
            lemma_lr0_item_requests_contains(g, i, it, i, a, Action::Accept);
        }
        if a == Terminal::End && i < states.len() && exists|it: Item| #[trigger] states[i as int].elems().contains(it) && it.spec_is_complete(g) && it.production_id == 0 {
            let it = choose|it: Item| #[trigger] states[i as int].elems().contains(it) && it.spec_is_complete(g) && it.production_id == 0;
            lemma_lr0_item_requests_contains(g, i, it, i, a, Action::Accept);
        }
    }
}

/// An SLR(1) table filled without a conflict: its shift cells are the
/// transitions on terminals and its reduce and accept cells follow the
/// complete items and FOLLOW.
pub proof fn lemma_slr_cells(g: &Grammar, follow: Map<NonTerminal, Set<Symbol>>, states: Seq<State>, t: Seq<((usize, Symbol), usize)>)
    requires
        states.len() <= usize::MAX,
        apply_requests(apply_requests(empty_model(), shift_requests(t)), all_requests(slr_requests_fn(g, follow), lr0_items(states))).1.len() == 0,
    ensures
        shifts_follow_transitions(apply_requests(apply_requests(empty_model(), shift_requests(t)), all_requests(slr_requests_fn(g, follow), lr0_items(states))).0, t),
        slr_cells_follow_items(g, follow, states, apply_requests(apply_requests(empty_model(), shift_requests(t)), all_requests(slr_requests_fn(g, follow), lr0_items(states))).0),
{
    let f = slr_requests_fn(g, follow);
    let items = lr0_items(states);
    let cells = apply_requests(apply_requests(empty_model(), shift_requests(t)), all_requests(f, items)).0;
    assert forall|s: usize, it: Item, r: Request| #[trigger] f(s, it).contains(r) implies r.0 == s && !(r.2 is Shift) by {
        lemma_slr_item_requests_contains(g, follow, s, it, r.0, r.1, r.2);
    }
    lemma_item_cells(f, items, t);
    assert forall|i: usize, a: Terminal, x: Action| !(x is Shift) && #[trigger] holds(cells, i, a, x) <==> !(x is Shift) && i < states.len() && exists|it: Item|
        #[trigger] states[i as int].elems().contains(it) && slr_item_requests(g, follow, i, it).contains((i, a, x)) by {
        if i < states.len() {
            assert(items[i as int] == states[i as int].elems());
            if exists|k: int| 0 <= k < items[i as int].len() && #[trigger] f(i, items[i as int][k]).contains((i, a, x)) {
                let k = choose|k: int| 0 <= k < items[i as int].len() && #[trigger] f(i, items[i as int][k]).contains((i, a, x));
                assert(states[i as int].elems().contains(items[i as int][k]));
            }
            if exists|it: Item| #[trigger] states[i as int].elems().contains(it) && slr_item_requests(g, follow, i, it).contains((i, a, x)) {
                let it = choose|it: Item| #[trigger] states[i as int].elems().contains(it) && slr_item_requests(g, follow, i, it).contains((i, a, x));
                let k = choose|k: int| 0 <= k < states[i as int].elems().len() && states[i as int].elems()[k] == it;
                assert(f(i, items[i as int][k]).contains((i, a, x)));
            }
        }
    }
    assert forall|i: usize, a: Terminal, p: usize| #[trigger] holds(cells, i, a, Action::Reduce(p)) <==> p != 0 && i < states.len() && follow.dom().contains(g.lhs_of(p as int))
        && follow[g.lhs_of(p as int)].contains(Symbol::Terminal(a)) && exists|it: Item|
        #[trigger] states[i as int].elems().contains(it) && it.spec_is_complete(g) && it.production_id == p by {
        if holds(cells, i, a, Action::Reduce(p)) {
            let it = choose|it: Item| #[trigger] states[i as int].elems().contains(it) && slr_item_requests(g, follow, i, it).contains((i, a, Action::Reduce(p)));
            lemma_slr_item_requests_contains(g, follow, i, it, i, a, Action::Reduce(p));
        }
        if p != 0 && i < states.len() && follow.dom().contains(g.lhs_of(p as int)) && follow[g.lhs_of(p as int)].contains(Symbol::Terminal(a)) && exists|it: Item|
            #[trigger] states[i as int].elems().contains(it) && it.spec_is_complete(g) && it.production_id == p {
            let it = choose|it: Item| #[trigger] states[i as int].elems().contains(it) && it.spec_is_complete(g) && it.production_id == p;
            lemma_slr_item_requests_contains(g, follow, i, it, i, a, Action::Reduce(p));
        }
    }
    assert forall|i: usize, a: Terminal| #[trigger] holds(cells, i, a, Action::Accept) <==> a == Terminal::End && i < states.len() && exists|it: Item|
        #[trigger] states[i as int].elems().contains(it) && it.spec_is_complete(g) && it.production_id == 0 by {
        if holds(cells, i, a, Action::Accept) {
            let it = choose|it: Item| #[trigger] states[i as int].elems().contains(it) && slr_item_requests(g, follow, i, it).contains((i, a, Action::Accept));
            lemma_slr_item_requests_contains(g, follow, i, it, i, a, Action::Accept);
        }
        if a == Terminal::End && i < states.len() && exists|it: Item| #[trigger] states[i as int].elems().contains(it) && it.spec_is_complete(g) && it.production_id == 0 {
            let it = choose|it: Item| #[trigger] states[i as int].elems().contains(it) && it.spec_is_complete(g) && it.production_id == 0;
            lemma_slr_item_requests_contains(g, follow, i, it, i, a, Action::Accept);
        }
    }
}

/// GOTO cell `(i, n)` holds `j`.
pub open spec fn goto_holds(gotos: Map<(usize, NonTerminal), usize>, i: usize, n: NonTerminal, j: usize) -> bool {
    gotos.dom().contains((i, n)) && gotos[(i, n)] == j
}

/// The GOTO cells are the transitions on non-terminals: `(i, n)` holds `j`
/// exactly when the automaton goes from `i` on `n` to `j`.
pub open spec fn gotos_follow_transitions(gotos: Map<(usize, NonTerminal), usize>, t: Seq<((usize, Symbol), usize)>) -> bool {
    forall|i: usize, n: NonTerminal, j: usize|
        #[trigger] goto_holds(gotos, i, n, j) <==> exists|k: int|
            0 <= k < t.len() && (#[trigger] t[k]).0 == (i, Symbol::NonTerminal(n)) && t[k].1 == j
}

/// No two transitions leave the same state on the same symbol.
pub open spec fn keys_distinct(t: Seq<((usize, Symbol), usize)>) -> bool {
    forall|a: int, b: int| 0 <= a < b < t.len() ==> (#[trigger] t[a]).0 != (#[trigger] t[b]).0
}

/// Transitions in strictly increasing key order have distinct keys.
pub proof fn lemma_sorted_keys_distinct(t: Seq<((usize, Symbol), usize)>)
    requires
        transitions_sorted(t),
    ensures
        keys_distinct(t),
{
    assert forall|a: int, b: int| 0 <= a < b < t.len() implies (#[trigger] t[a]).0 != (#[trigger] t[b]).0 by {
        assert(t[a].0.0 < t[b].0.0 || (t[a].0.0 == t[b].0.0 && t[a].0.1.spec_slot() < t[b].0.1.spec_slot()));
    }
}

/// With distinct keys, the GOTO cells given by the transitions are exactly
/// the transitions on non-terminals.
pub proof fn lemma_goto_entries(t: Seq<((usize, Symbol), usize)>)
    requires
        keys_distinct(t),
    ensures
        gotos_follow_transitions(goto_entries(t), t),
    decreases t.len(),
{
    if t.len() > 0 {
        let pre = t.drop_last();
        let e = t.last();
        assert(keys_distinct(pre)) by {
            assert forall|a: int, b: int| 0 <= a < b < pre.len() implies (#[trigger] pre[a]).0 != (#[trigger] pre[b]).0 by {
                assert(pre[a] == t[a] && pre[b] == t[b]);
            }
        }
        lemma_goto_entries(pre);
        let gp = goto_entries(pre);
        let gt = goto_entries(t);
        assert(t[t.len() - 1] == e);
        assert forall|i: usize, n: NonTerminal, j: usize| #[trigger] goto_holds(gt, i, n, j) <==> exists|k: int|
            0 <= k < t.len() && (#[trigger] t[k]).0 == (i, Symbol::NonTerminal(n)) && t[k].1 == j by {
            let key_is_last = e.0 == (i, Symbol::NonTerminal(n));
            let in_pre = exists|k: int| 0 <= k < pre.len() && (#[trigger] pre[k]).0 == (i, Symbol::NonTerminal(n)) && pre[k].1 == j;
            let in_t = exists|k: int| 0 <= k < t.len() && (#[trigger] t[k]).0 == (i, Symbol::NonTerminal(n)) && t[k].1 == j;
            if in_pre {
                let k = choose|k: int| 0 <= k < pre.len() && (#[trigger] pre[k]).0 == (i, Symbol::NonTerminal(n)) && pre[k].1 == j;
                assert(t[k] == pre[k]);
                if key_is_last {
                    assert(t[k].0 != t[t.len() - 1].0);
                }
            }
            if in_t {
                let k = choose|k: int| 0 <= k < t.len() && (#[trigger] t[k]).0 == (i, Symbol::NonTerminal(n)) && t[k].1 == j;
                if k < pre.len() {
                    assert(pre[k] == t[k]);
                    if key_is_last {
                        assert(t[k].0 != t[t.len() - 1].0);
                    }
                } else {
                    assert(k == t.len() - 1);
                }
            }
            if key_is_last {
                assert(!in_pre);
                assert(gt == gp.insert((i, n), e.1));
                if j == e.1 {
                    assert(t[t.len() - 1].0 == (i, Symbol::NonTerminal(n)) && t[t.len() - 1].1 == j);
                }
                assert(goto_holds(gt, i, n, j) <==> in_t);
            } else {
                match e.0.1 {
                    Symbol::NonTerminal(m) => {
                        assert(gt == gp.insert((e.0.0, m), e.1));
                        assert((e.0.0, m) != (i, n));
                        assert(goto_holds(gt, i, n, j) == goto_holds(gp, i, n, j));
                    },
                    _ => {
                        assert(gt == gp);
                    },
                }
                assert(goto_holds(gp, i, n, j) <==> in_pre);
                assert(in_pre <==> in_t);
            }
        }
    }
}

} // verus!
