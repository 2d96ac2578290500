use vstd::prelude::*;
use crate::grammar::Grammar;
use crate::symbol::{NonTerminal, Symbol, Terminal};
use crate::util::lemma_index_set_bound;
use crate::text::{join, join_strings, lemma_name_lt_irreflexive, lemma_name_lt_transitive, name_less, name_lt, string_views};
use vstd::string::StringExecFns;

verus! {

/// Position of a symbol in a symbol set: its slot.
pub open spec fn set_slot(s: Symbol) -> int {
    s.spec_slot() as int
}

/// The symbol kept at a position of a symbol set.
pub open spec fn slot_symbol(k: int) -> Symbol {
    Symbol::at_slot(k)
}

pub proof fn lemma_set_slot(s: Symbol)
    ensures
        0 <= set_slot(s) < 52,
        slot_symbol(set_slot(s)) == s,
{
    s.lemma_slot();
}

pub proof fn lemma_slot_symbol(k: int)
    requires
        0 <= k < 52,
    ensures
        set_slot(slot_symbol(k)) == k,
{
    Symbol::lemma_slot_at(k);
}

/// A set of grammar symbols (the shape of FIRST and FOLLOW sets).
#[derive(Debug, Clone, Copy)]
pub struct SymbolSet {
    members: [bool; 52],
}

impl SymbolSet {
    pub closed spec fn bits(&self) -> Seq<bool> {
        self.members@
    }

    /// The symbols of the set.
    pub closed spec fn contents(&self) -> Set<Symbol> {
        Set::new(|s: Symbol| self.members@[set_slot(s)])
    }

    pub proof fn lemma_contents(&self, s: Symbol)
        ensures
            self.contents().contains(s) <==> self.bits()[set_slot(s)],
            self.bits().len() == 52,
    {
    }

    pub fn new() -> (r: Self)
        ensures
            r.contents() == Set::<Symbol>::empty(),
    {
        let r = SymbolSet { members: [false; 52] };
        assert(r.contents() =~= Set::<Symbol>::empty());
        r
    }

    pub fn contains(&self, s: &Symbol) -> (b: bool)
        ensures
            b == self.contents().contains(*s),
    {
        self.members[s.slot()]
    }

    /// Adds a symbol and returns whether it was new.
    pub fn insert(&mut self, s: Symbol) -> (b: bool)
        ensures
            final(self).contents() == old(self).contents().insert(s),
            b == !old(self).contents().contains(s),
    {
        let i = s.slot();
        let was = self.members[i];
        self.members[i] = true;
        proof {
            lemma_set_slot(s);
            assert forall|x: Symbol| self.contents().contains(x) <==> old(self).contents().insert(s).contains(x) by {
                lemma_set_slot(x);
            }
        }
        assert(self.contents() =~= old(self).contents().insert(s));
        !was
    }

    /// Adds every member of `other` (except epsilon when `skip_epsilon`), and
    /// returns whether the set grew.
    pub fn union_with(&mut self, other: &SymbolSet, skip_epsilon: bool) -> (changed: bool)
        ensures
            final(self).contents() == old(self).contents().union(
                if skip_epsilon { other.contents().remove(Symbol::Epsilon) } else { other.contents() },
            ),
            changed == (final(self).contents() != old(self).contents()),
    {
        let ghost added = if skip_epsilon { other.contents().remove(Symbol::Epsilon) } else { other.contents() };
        let mut changed = false;
        let mut i: usize = 0;
        let limit: usize = if skip_epsilon { 51 } else { 52 };
        while i < 52
            invariant
                i <= 52,
                limit == if skip_epsilon { 51usize } else { 52usize },
                forall|k: int| 0 <= k < 52 ==> #[trigger] self.members@[k] == if k < i && k < limit {
                    old(self).members@[k] || other.members@[k]
                } else {
                    old(self).members@[k]
                },
                changed == exists|k: int| 0 <= k < i && k < limit && other.members@[k] && !old(self).members@[k],
            decreases 52 - i,
        {
            if i < limit && other.members[i] && !self.members[i] {
                self.members[i] = true;
                changed = true;
            }
            i = i + 1;
        }
        assert forall|x: Symbol| self.contents().contains(x) <==> old(self).contents().union(added).contains(x) by {
            lemma_set_slot(x);
        }
        assert(self.contents() =~= old(self).contents().union(added));
        proof {
            if changed {
                let k = choose|k: int| 0 <= k < 52 && k < limit && other.members@[k] && !old(self).members@[k];
                lemma_slot_symbol(k);
                assert(self.contents().contains(slot_symbol(k)));
                assert(!old(self).contents().contains(slot_symbol(k)));
            } else {
                assert(self.members@ =~= old(self).members@);
                assert(self.contents() =~= old(self).contents());
            }
        }
        changed
    }

    /// The members in symbol order: terminals, then non-terminals, then
    /// epsilon.
    pub fn symbols(&self) -> (v: Vec<Symbol>)
        ensures
            v@.to_set() == self.contents(),
            forall|a: int, b: int| 0 <= a < b < v@.len() ==> (#[trigger] v@[a]).spec_slot() < (#[trigger] v@[b]).spec_slot(),
    {
        let mut v: Vec<Symbol> = Vec::new();
        let mut i: usize = 0;
        while i < 52
            invariant
                i <= 52,
                forall|x: Symbol| #[trigger] v@.contains(x) <==> (self.contents().contains(x) && set_slot(x) < i),
                forall|a: int| 0 <= a < v@.len() ==> set_slot(#[trigger] v@[a]) >= 0 && set_slot(v@[a]) < i,
                forall|a: int, b: int| 0 <= a < b < v@.len() ==> (#[trigger] v@[a]).spec_slot() < (#[trigger] v@[b]).spec_slot(),
            decreases 52 - i,
        {
            if self.members[i] {
                let s = Symbol::from_slot(i);
                proof {
                    lemma_slot_symbol(i as int);
                }
                let ghost old_v = v@;
                v.push(s);
                assert forall|x: Symbol| #[trigger] v@.contains(x) <==> (self.contents().contains(x) && set_slot(x) < i + 1) by {
                    lemma_set_slot(x);
                    if old_v.contains(x) {
                        let k = choose|k: int| 0 <= k < old_v.len() && old_v[k] == x;
                        assert(v@[k] == x);
                    }
                    if v@.contains(x) && x != s {
                        let k = choose|k: int| 0 <= k < v@.len() && v@[k] == x;
                        assert(old_v[k] == x);
                    }
                    if x == s {
                        assert(v@[v@.len() - 1] == s);
                    }
                }
                assert forall|a: int, b: int| 0 <= a < b < v@.len() implies (#[trigger] v@[a]).spec_slot() < (#[trigger] v@[b]).spec_slot() by {
                    if b == v@.len() - 1 {
                        assert(v@[a] == old_v[a]);
                        lemma_set_slot(v@[a]);
                    }
                }
            } else {
                assert forall|x: Symbol| #[trigger] v@.contains(x) <==> (self.contents().contains(x) && set_slot(x) < i + 1) by {
                    lemma_set_slot(x);
                }
            }
            i = i + 1;
        }
        assert forall|x: Symbol| #[trigger] v@.to_set().contains(x) <==> self.contents().contains(x) by {
            lemma_set_slot(x);
        }
        assert(v@.to_set() =~= self.contents());
        v
    }
}

/// FIRST(s) for a sequence of symbols, given the FIRST sets of the non-terminals:
/// the terminals that can begin `s`, and epsilon when every symbol of `s` can
/// vanish. An explicit epsilon symbol is skipped.
pub open spec fn first_seq(m: Map<NonTerminal, Set<Symbol>>, s: Seq<Symbol>) -> Set<Symbol>
    decreases s.len(),
{
    if s.len() == 0 {
        set![Symbol::Epsilon]
    } else {
        match s[0] {
            Symbol::Terminal(t) => set![Symbol::Terminal(t)],
            Symbol::NonTerminal(a) => m[a].remove(Symbol::Epsilon).union(
                if m[a].contains(Symbol::Epsilon) {
                    first_seq(m, s.drop_first())
                } else {
                    Set::empty()
                },
            ),
            Symbol::Epsilon => first_seq(m, s.drop_first()),
        }
    }
}

/// Every non-terminal that the computation of FIRST(s) looks up has a set.
pub open spec fn first_seq_defined(m: Map<NonTerminal, Set<Symbol>>, s: Seq<Symbol>) -> bool
    decreases s.len(),
{
    if s.len() == 0 {
        true
    } else {
        match s[0] {
            Symbol::Terminal(_) => true,
            Symbol::NonTerminal(a) => m.dom().contains(a) && (m[a].contains(Symbol::Epsilon) ==> first_seq_defined(m, s.drop_first())),
            Symbol::Epsilon => first_seq_defined(m, s.drop_first()),
        }
    }
}

/// `a` derives the empty string by a derivation at most `n` levels deep.
pub open spec fn nullable_within(g: &Grammar, a: NonTerminal, n: nat) -> bool
    decreases n,
{
    n > 0 && exists|p: int|
        0 <= p < g.num_prods() && #[trigger] g.lhs_of(p) == a && forall|k: int|
            0 <= k < g.rhs_of(p).len() ==> match #[trigger] g.rhs_of(p)[k] {
                Symbol::Epsilon => true,
                Symbol::NonTerminal(b) => nullable_within(g, b, (n - 1) as nat),
                Symbol::Terminal(_) => false,
            }
}

/// `a` derives the empty string.
pub open spec fn nullable(g: &Grammar, a: NonTerminal) -> bool {
    exists|n: nat| #[trigger] nullable_within(g, a, n)
}

/// The left-hand sides of the grammar, each with epsilon exactly when it can
/// vanish: what decides how far FIRST of a sequence is looked up.
pub open spec fn nullable_map(g: &Grammar) -> Map<NonTerminal, Set<Symbol>> {
    Map::new(|a: NonTerminal| g.defines(a), |a: NonTerminal| if nullable(g, a) { set![Symbol::Epsilon] } else { Set::empty() })
}

/// Computing the FIRST sets looks up only non-terminals that have productions:
/// in each right-hand side, every non-terminal reached past symbols that can
/// vanish is the left-hand side of some production.
pub open spec fn first_lookups_defined(g: &Grammar) -> bool {
    forall|p: int| 0 <= p < g.num_prods() ==> first_seq_defined(nullable_map(g), #[trigger] g.rhs_of(p))
}

/// Computing the FOLLOW sets looks up only non-terminals that have
/// productions: after each occurrence of a non-terminal, every non-terminal
/// reached past symbols that can vanish is the left-hand side of some production.
pub open spec fn follow_lookups_defined(g: &Grammar) -> bool {
    forall|p: int, k: int|
        0 <= p < g.num_prods() && 0 <= k < g.rhs_of(p).len() && (#[trigger] g.rhs_of(p)[k]) is NonTerminal
            ==> first_seq_defined(nullable_map(g), g.rhs_of(p).subrange(k + 1, g.rhs_of(p).len() as int))
}

pub proof fn lemma_nullable_within_mono(g: &Grammar, a: NonTerminal, n: nat, m: nat)
    requires
        nullable_within(g, a, n),
        n <= m,
    ensures
        nullable_within(g, a, m),
    decreases n,
{
    let p = choose|p: int| 0 <= p < g.num_prods() && #[trigger] g.lhs_of(p) == a && forall|k: int|
        0 <= k < g.rhs_of(p).len() ==> match #[trigger] g.rhs_of(p)[k] {
            Symbol::Epsilon => true,
            Symbol::NonTerminal(b) => nullable_within(g, b, (n - 1) as nat),
            Symbol::Terminal(_) => false,
        };
    assert forall|k: int| 0 <= k < g.rhs_of(p).len() implies match #[trigger] g.rhs_of(p)[k] {
        Symbol::Epsilon => true,
        Symbol::NonTerminal(b) => nullable_within(g, b, (m - 1) as nat),
        Symbol::Terminal(_) => false,
    } by {
        if let Symbol::NonTerminal(b) = g.rhs_of(p)[k] {
            lemma_nullable_within_mono(g, b, (n - 1) as nat, (m - 1) as nat);
        }
    }
}

/// A well-formed grammar looks up only defined non-terminals.
pub proof fn lemma_wf_lookups_defined(g: &Grammar)
    requires
        g.wf(),
    ensures
        first_lookups_defined(g),
{
    assert forall|p: int| 0 <= p < g.num_prods() implies first_seq_defined(nullable_map(g), #[trigger] g.rhs_of(p)) by {
        assert forall|k: int| 0 <= k < g.rhs_of(p).len() && (#[trigger] g.rhs_of(p)[k]) is NonTerminal implies nullable_map(g).dom().contains(g.rhs_of(p)[k]->NonTerminal_0) by {
            assert(g.defines(g.rhs_of(p)[k]->NonTerminal_0));
        }
        lemma_all_defined(nullable_map(g), g.rhs_of(p));
    }
}

/// A well-formed grammar looks up only defined non-terminals after each
/// occurrence too.
pub proof fn lemma_wf_follow_lookups_defined(g: &Grammar)
    requires
        g.wf(),
    ensures
        follow_lookups_defined(g),
{
    assert forall|p: int, k: int|
        0 <= p < g.num_prods() && 0 <= k < g.rhs_of(p).len() && (#[trigger] g.rhs_of(p)[k]) is NonTerminal
            implies first_seq_defined(nullable_map(g), g.rhs_of(p).subrange(k + 1, g.rhs_of(p).len() as int)) by {
        let w = g.rhs_of(p).subrange(k + 1, g.rhs_of(p).len() as int);
        assert forall|j: int| 0 <= j < w.len() && (#[trigger] w[j]) is NonTerminal implies nullable_map(g).dom().contains(w[j]->NonTerminal_0) by {
            assert(w[j] == g.rhs_of(p)[k + 1 + j]);
            assert(g.defines(g.rhs_of(p)[k + 1 + j]->NonTerminal_0));
        }
        lemma_all_defined(nullable_map(g), w);
    }
}

/// Sets that hold epsilon only for non-terminals that can vanish look up
/// FIRST no further than the grammar does.
pub proof fn lemma_lookups_defined(g: &Grammar, m: Map<NonTerminal, Set<Symbol>>, s: Seq<Symbol>)
    requires
        m.dom() == lhs_domain(g),
        forall|a: NonTerminal| #[trigger] m.dom().contains(a) && m[a].contains(Symbol::Epsilon) ==> nullable(g, a),
        first_seq_defined(nullable_map(g), s),
    ensures
        first_seq_defined(m, s),
    decreases s.len(),
{
    if s.len() > 0 {
        match s[0] {
            Symbol::NonTerminal(a) => {
                assert(nullable_map(g).dom().contains(a));
                assert(m.dom().contains(a));
                if m[a].contains(Symbol::Epsilon) {
                    assert(nullable(g, a));
                    assert(nullable_map(g)[a].contains(Symbol::Epsilon));
                    lemma_lookups_defined(g, m, s.drop_first());
                }
            },
            Symbol::Epsilon => lemma_lookups_defined(g, m, s.drop_first()),
            _ => {},
        }
    }
}

/// When FIRST of `s` holds epsilon, every symbol of `s` can vanish, within a
/// common depth.
pub proof fn lemma_epsilon_first_vanishes(g: &Grammar, m: Map<NonTerminal, Set<Symbol>>, s: Seq<Symbol>) -> (n: nat)
    requires
        forall|a: NonTerminal| #[trigger] m.dom().contains(a) && m[a].contains(Symbol::Epsilon) ==> nullable(g, a),
        first_seq_defined(m, s),
        first_seq(m, s).contains(Symbol::Epsilon),
    ensures
        forall|k: int| 0 <= k < s.len() ==> match #[trigger] s[k] {
            Symbol::Epsilon => true,
            Symbol::NonTerminal(b) => nullable_within(g, b, n),
            Symbol::Terminal(_) => false,
        },
    decreases s.len(),
{
    if s.len() == 0 {
        0
    } else {
        match s[0] {
            Symbol::Terminal(t) => {
                assert(first_seq(m, s) == set![Symbol::Terminal(t)]);
                assert(false);
                0
            },
            Symbol::NonTerminal(a) => {
                assert(m[a].contains(Symbol::Epsilon));
                let n1 = lemma_epsilon_first_vanishes(g, m, s.drop_first());
                assert(nullable(g, a));
                let n0 = choose|n0: nat| #[trigger] nullable_within(g, a, n0);
                let n = if n0 > n1 { n0 } else { n1 };
                lemma_nullable_within_mono(g, a, n0, n);
                assert forall|k: int| 0 <= k < s.len() implies match #[trigger] s[k] {
                    Symbol::Epsilon => true,
                    Symbol::NonTerminal(b) => nullable_within(g, b, n),
                    Symbol::Terminal(_) => false,
                } by {
                    if k > 0 {
                        assert(s[k] == s.drop_first()[k - 1]);
                        if let Symbol::NonTerminal(b) = s[k] {
                            lemma_nullable_within_mono(g, b, n1, n);
                        }
                    }
                }
                n
            },
            Symbol::Epsilon => {
                let n1 = lemma_epsilon_first_vanishes(g, m, s.drop_first());
                assert forall|k: int| 0 <= k < s.len() implies match #[trigger] s[k] {
                    Symbol::Epsilon => true,
                    Symbol::NonTerminal(b) => nullable_within(g, b, n1),
                    Symbol::Terminal(_) => false,
                } by {
                    if k > 0 {
                        assert(s[k] == s.drop_first()[k - 1]);
                    }
                }
                n1
            },
        }
    }
}

/// Every non-terminal of `s` has a set.
pub open spec fn all_defined(m: Map<NonTerminal, Set<Symbol>>, s: Seq<Symbol>) -> bool {
    forall|k: int| 0 <= k < s.len() && (#[trigger] s[k]) is NonTerminal ==> m.dom().contains(s[k]->NonTerminal_0)
}

pub proof fn lemma_all_defined(m: Map<NonTerminal, Set<Symbol>>, s: Seq<Symbol>)
    requires
        all_defined(m, s),
    ensures
        first_seq_defined(m, s),
    decreases s.len(),
{
    if s.len() > 0 {
        assert(all_defined(m, s.drop_first())) by {
            assert forall|k: int| 0 <= k < s.drop_first().len() && (#[trigger] s.drop_first()[k]) is NonTerminal implies m.dom().contains(s.drop_first()[k]->NonTerminal_0) by {
                assert(s.drop_first()[k] == s[k + 1]);
            }
        }
        lemma_all_defined(m, s.drop_first());
    }
}

/// FIRST(s) grows with the FIRST sets it is computed from.
pub proof fn lemma_first_seq_monotone(m1: Map<NonTerminal, Set<Symbol>>, m2: Map<NonTerminal, Set<Symbol>>, s: Seq<Symbol>)
    requires
        first_seq_defined(m1, s),
        forall|a: NonTerminal| #[trigger] m1.dom().contains(a) ==> m2.dom().contains(a) && m1[a].subset_of(m2[a]),
    ensures
        first_seq(m1, s).subset_of(first_seq(m2, s)),
    decreases s.len(),
{
    if s.len() > 0 {
        match s[0] {
            Symbol::NonTerminal(a) => {
                if m1[a].contains(Symbol::Epsilon) {
                    lemma_first_seq_monotone(m1, m2, s.drop_first());
                }
            },
            Symbol::Epsilon => lemma_first_seq_monotone(m1, m2, s.drop_first()),
            _ => {},
        }
    }
}

/// One symbol set per non-terminal that has one: FIRST or FOLLOW sets.
#[derive(Debug, Clone, Copy)]
pub struct SymbolSetMap {
    sets: [SymbolSet; 23],
    defined: [bool; 23],
}

impl SymbolSetMap {
    /// The sets by non-terminal; the domain is the non-terminals that have one.
    pub closed spec fn view(&self) -> Map<NonTerminal, Set<Symbol>> {
        Map::new(|a: NonTerminal| self.defined@[a.spec_index() as int], |a: NonTerminal| self.sets@[a.spec_index() as int].contents())
    }

    /// Codes `52 * i + k` of the members, `i` the non-terminal, `k` the slot.
    pub closed spec fn codes(&self) -> Set<int> {
        Set::new(|c: int| 0 <= c < 1196 && self.defined@[c / 52] && self.sets@[c / 52].bits()[c % 52])
    }

    pub proof fn lemma_codes_bound(&self)
        ensures
            self.codes().finite(),
            self.codes().len() <= 1196,
    {
        lemma_index_set_bound(self.codes(), 1196);
    }

    pub fn new() -> (m: Self)
        ensures
            m.view() == Map::<NonTerminal, Set<Symbol>>::empty(),
    {
        let e = SymbolSet::new();
        let m = SymbolSetMap { sets: [e; 23], defined: [false; 23] };
        assert(m.view() =~= Map::<NonTerminal, Set<Symbol>>::empty());
        m
    }

    pub fn get(&self, a: &NonTerminal) -> (r: Option<&SymbolSet>)
        ensures
            match r {
                Some(s) => self.view().dom().contains(*a) && s.contents() == self.view()[*a],
                None => !self.view().dom().contains(*a),
            },
    {
        let i = a.index();
        if self.defined[i] {
            Some(&self.sets[i])
        } else {
            None
        }
    }

    /// Gives `a` an empty set if it has none.
    pub fn define(&mut self, a: NonTerminal)
        ensures
            old(self).view().dom().contains(a) ==> final(self).view() == old(self).view(),
            !old(self).view().dom().contains(a) ==> final(self).view() == old(self).view().insert(a, Set::empty()),
            old(self).codes().subset_of(final(self).codes()),
    {
        let i = a.index();
        if !self.defined[i] {
            self.defined[i] = true;
            self.sets[i] = SymbolSet::new();
            proof {
                assert forall|b: NonTerminal| #![auto] self.view().dom().contains(b) <==> old(self).view().insert(a, Set::empty()).dom().contains(b) by {
                    b.lemma_at_index();
                    a.lemma_at_index();
                }
                assert forall|b: NonTerminal| #![auto] self.view().dom().contains(b) implies self.view()[b] == old(self).view().insert(a, Set::empty())[b] by {
                    b.lemma_at_index();
                    a.lemma_at_index();
                }
                assert(self.view() =~= old(self).view().insert(a, Set::empty()));
                assert forall|c: int| old(self).codes().contains(c) implies self.codes().contains(c) by {
                    assert(c / 52 != i);
                }
            }
        } else {
            proof {
                assert(self.view() =~= old(self).view());
            }
        }
    }

    /// Adds the members of `other` (without epsilon when `skip_epsilon`) to the
    /// set of `a`; returns whether it grew.
    pub fn union_into(&mut self, a: NonTerminal, other: &SymbolSet, skip_epsilon: bool) -> (changed: bool)
        requires
            old(self).view().dom().contains(a),
        ensures
            final(self).view() == old(self).view().insert(
                a,
                old(self).view()[a].union(if skip_epsilon { other.contents().remove(Symbol::Epsilon) } else { other.contents() }),
            ),
            changed == (final(self).view()[a] != old(self).view()[a]),
            old(self).codes().subset_of(final(self).codes()),
            changed ==> !final(self).codes().subset_of(old(self).codes()),
    {
        let i = a.index();
        let mut s = self.sets[i];
        let changed = s.union_with(other, skip_epsilon);
        self.sets[i] = s;
        proof {
            let added = if skip_epsilon { other.contents().remove(Symbol::Epsilon) } else { other.contents() };
            let target = old(self).view().insert(a, old(self).view()[a].union(added));
            assert forall|b: NonTerminal| #![auto] self.view().dom().contains(b) <==> target.dom().contains(b) by {
                b.lemma_at_index();
                a.lemma_at_index();
            }
            assert forall|b: NonTerminal| #![auto] self.view().dom().contains(b) implies self.view()[b] == target[b] by {
                b.lemma_at_index();
                a.lemma_at_index();
                if b.spec_index() != i {
                    assert(b != a);
                }
            }
            assert(self.view() =~= target);
            let old_s = old(self).sets@[i as int];
            assert forall|c: int| old(self).codes().contains(c) implies self.codes().contains(c) by {
                if c / 52 == i {
                    let x = slot_symbol(c % 52);
                    lemma_slot_symbol(c % 52);
                    old_s.lemma_contents(x);
                    s.lemma_contents(x);
                }
            }
            if changed {
                assert(!(s.contents() =~= old_s.contents()));
                let x = choose|x: Symbol| s.contents().contains(x) != old_s.contents().contains(x);
                assert(s.contents().contains(x) && !old_s.contents().contains(x));
                lemma_set_slot(x);
                s.lemma_contents(x);
                old_s.lemma_contents(x);
                let c = 52 * (i as int) + set_slot(x);
                assert(c / 52 == i && c % 52 == set_slot(x));
                assert(self.codes().contains(c));
                assert(!old(self).codes().contains(c));
            }
        }
        changed
    }
}

/// FIRST of the symbols from position `start` on.
fn first_of_suffix(symbols: &[Symbol], start: usize, first_set_map: &SymbolSetMap) -> (r: SymbolSet)
    requires
        start <= symbols@.len(),
        first_seq_defined(first_set_map.view(), symbols@.subrange(start as int, symbols@.len() as int)),
    ensures
        r.contents() == first_seq(first_set_map.view(), symbols@.subrange(start as int, symbols@.len() as int)),
{
    let ghost m = first_set_map.view();
    let ghost whole = first_seq(m, symbols@.subrange(start as int, symbols@.len() as int));
    let mut result = SymbolSet::new();
    let mut i: usize = start;
    while i < symbols.len()
        invariant
            start <= i <= symbols@.len(),
            m == first_set_map.view(),
            whole == first_seq(m, symbols@.subrange(start as int, symbols@.len() as int)),
            first_seq_defined(m, symbols@.subrange(i as int, symbols@.len() as int)),
            whole == result.contents().union(first_seq(m, symbols@.subrange(i as int, symbols@.len() as int))),
        decreases symbols@.len() - i,
    {
        let ghost rest = symbols@.subrange(i as int, symbols@.len() as int);
        assert(rest[0] == symbols@[i as int]);
        assert(rest.drop_first() =~= symbols@.subrange(i + 1, symbols@.len() as int));
        match &symbols[i] {
            Symbol::Terminal(t) => {
                result.insert(Symbol::Terminal(*t));
                assert(result.contents() =~= whole);
                return result;
            },
            Symbol::NonTerminal(nt) => {
                let set = first_set_map.get(nt).unwrap();
                result.union_with(set, true);
                if !set.contains(&Symbol::Epsilon) {
                    assert(result.contents() =~= whole);
                    return result;
                }
                assert(whole =~= result.contents().union(first_seq(m, symbols@.subrange(i + 1, symbols@.len() as int))));
            },
            Symbol::Epsilon => {},
        }
        i = i + 1;
    }
    assert(symbols@.subrange(i as int, symbols@.len() as int).len() == 0);
    result.insert(Symbol::Epsilon);
    assert(result.contents() =~= whole);
    result
}

/// FIRST of a sequence of symbols: the terminals that can begin it, and epsilon
/// when every symbol can vanish (also for the empty sequence).
pub fn first_of_sequence(symbols: &[Symbol], first_set_map: &SymbolSetMap) -> (r: SymbolSet)
    requires
        first_seq_defined(first_set_map.view(), symbols@),
    ensures
        r.contents() == first_seq(first_set_map.view(), symbols@),
{
    assert(symbols@.subrange(0, symbols@.len() as int) =~= symbols@);
    first_of_suffix(symbols, 0, first_set_map)
}

/// The non-terminals that are the left-hand side of some production.
pub open spec fn lhs_domain(g: &Grammar) -> Set<NonTerminal> {
    Set::new(|a: NonTerminal| g.defines(a))
}

/// Every production `A -> alpha` has FIRST(alpha) inside the set of `A`.
pub open spec fn first_closed(g: &Grammar, m: Map<NonTerminal, Set<Symbol>>) -> bool {
    forall|p: int| 0 <= p < g.num_prods() ==> first_seq(m, #[trigger] g.rhs_of(p)).subset_of(m[g.lhs_of(p)])
}

/// `m1` is contained in `m2`, non-terminal by non-terminal.
pub open spec fn map_le(m1: Map<NonTerminal, Set<Symbol>>, m2: Map<NonTerminal, Set<Symbol>>) -> bool {
    forall|a: NonTerminal| #[trigger] m1.dom().contains(a) ==> m2.dom().contains(a) && m1[a].subset_of(m2[a])
}

/// `m` holds the FIRST sets of the grammar: the least sets, one per left-hand
/// side, that are closed under every production.
pub open spec fn is_first_sets(g: &Grammar, m: Map<NonTerminal, Set<Symbol>>) -> bool {
    &&& m.dom() == lhs_domain(g)
    &&& first_closed(g, m)
    &&& forall|m2: Map<NonTerminal, Set<Symbol>>| m2.dom() == lhs_domain(g) && #[trigger] first_closed(g, m2) ==> map_le(m, m2)
}

/// Computes the FIRST sets of every left-hand side by iterating over the
/// productions until no set grows.
pub fn get_first_set(grammar: &Grammar) -> (m: SymbolSetMap)
    requires
        first_lookups_defined(grammar),
    ensures
        is_first_sets(grammar, m.view()),
        no_nonterminals(m.view()),
        forall|a: NonTerminal| #[trigger] m.view().dom().contains(a) && m.view()[a].contains(Symbol::Epsilon) ==> nullable(grammar, a),
{
    let mut m = SymbolSetMap::new();
    let mut p: usize = 0;
    while p < grammar.productions.len()
        invariant
            p <= grammar.num_prods(),
            forall|a: NonTerminal| #[trigger] m.view().dom().contains(a) <==> exists|q: int| 0 <= q < p && grammar.lhs_of(q) == a,
            forall|a: NonTerminal| #[trigger] m.view().dom().contains(a) ==> m.view()[a] == Set::<Symbol>::empty(),
        decreases grammar.num_prods() - p,
    {
        m.define(grammar.productions[p].lhs);
        assert forall|a: NonTerminal| #[trigger] m.view().dom().contains(a) <==> exists|q: int| 0 <= q < p + 1 && grammar.lhs_of(q) == a by {
            if a == grammar.lhs_of(p as int) {
                assert(grammar.lhs_of(p as int) == a);
            }
        }
        p = p + 1;
    }
    assert(m.view().dom() =~= lhs_domain(grammar));
    assert forall|m2: Map<NonTerminal, Set<Symbol>>| m2.dom() == lhs_domain(grammar) && #[trigger] first_closed(grammar, m2) implies map_le(m.view(), m2) by {}
    let mut changed = true;
    while changed
        invariant
            first_lookups_defined(grammar),
            m.view().dom() == lhs_domain(grammar),
            forall|a: NonTerminal| #[trigger] m.view().dom().contains(a) && m.view()[a].contains(Symbol::Epsilon) ==> nullable(grammar, a),
            forall|m2: Map<NonTerminal, Set<Symbol>>| m2.dom() == lhs_domain(grammar) && #[trigger] first_closed(grammar, m2) ==> map_le(m.view(), m2),
            !changed ==> first_closed(grammar, m.view()),
        decreases 1196 - m.codes().len(), if changed { 1int } else { 0int },
    {
        let ghost start = m;
        proof {
            start.lemma_codes_bound();
        }
        changed = false;
        let mut p: usize = 0;
        while p < grammar.productions.len()
            invariant
                first_lookups_defined(grammar),
                p <= grammar.num_prods(),
                m.view().dom() == lhs_domain(grammar),
                forall|a: NonTerminal| #[trigger] m.view().dom().contains(a) && m.view()[a].contains(Symbol::Epsilon) ==> nullable(grammar, a),
                forall|m2: Map<NonTerminal, Set<Symbol>>| m2.dom() == lhs_domain(grammar) && #[trigger] first_closed(grammar, m2) ==> map_le(m.view(), m2),
                start.codes().subset_of(m.codes()),
                changed ==> !m.codes().subset_of(start.codes()),
                !changed ==> m.view() == start.view(),
                !changed ==> forall|q: int| 0 <= q < p ==> first_seq(m.view(), #[trigger] grammar.rhs_of(q)).subset_of(m.view()[grammar.lhs_of(q)]),
            decreases grammar.num_prods() - p,
        {
            let prod = &grammar.productions[p];
            proof {
                assert(prod.rhs@ == grammar.rhs_of(p as int));
                lemma_lookups_defined(grammar, m.view(), grammar.rhs_of(p as int));
            }
            let derived = first_of_sequence(prod.rhs.as_slice(), &m);
            proof {
                assert(grammar.lhs_of(p as int) == prod.lhs);
                assert(m.view().dom().contains(prod.lhs));
            }
            let ghost before = m.view();
            let grew = m.union_into(prod.lhs, &derived, false);
            proof {
                assert forall|m2: Map<NonTerminal, Set<Symbol>>| m2.dom() == lhs_domain(grammar) && #[trigger] first_closed(grammar, m2) implies map_le(m.view(), m2) by {
                    assert(map_le(before, m2));
                    lemma_first_seq_monotone(before, m2, grammar.rhs_of(p as int));
                    assert(first_seq(m2, grammar.rhs_of(p as int)).subset_of(m2[grammar.lhs_of(p as int)]));
                }
                if !grew {
                    assert(m.view() =~= before);
                }
                assert forall|a: NonTerminal| #[trigger] m.view().dom().contains(a) && m.view()[a].contains(Symbol::Epsilon) implies nullable(grammar, a) by {
                    if a == prod.lhs && !before[a].contains(Symbol::Epsilon) {
                        assert(derived.contents().contains(Symbol::Epsilon));
                        let n = lemma_epsilon_first_vanishes(grammar, before, grammar.rhs_of(p as int));
                        assert(grammar.lhs_of(p as int) == a);
                        assert(nullable_within(grammar, a, n + 1));
                    }
                }
            }
            changed = changed || grew;
            p = p + 1;
        }
        proof {
            m.lemma_codes_bound();
            if changed {
                let c = choose|c: int| m.codes().contains(c) && !start.codes().contains(c);
                assert(start.codes().subset_of(m.codes().remove(c)));
                vstd::set_lib::lemma_len_subset(start.codes(), m.codes().remove(c));
            } else {
                vstd::set_lib::lemma_len_subset(start.codes(), m.codes());
            }
        }
    }
    proof {
        assert forall|p: int| 0 <= p < grammar.num_prods() implies first_seq_defined(m.view(), #[trigger] grammar.rhs_of(p)) by {
            lemma_lookups_defined(grammar, m.view(), grammar.rhs_of(p));
        }
        lemma_first_sets_no_nonterminals(grammar, m.view());
    }
    m
}

/// The non-terminals that occur in the grammar, on either side of a production.
pub open spec fn occurs_domain(g: &Grammar) -> Set<NonTerminal> {
    Set::new(|a: NonTerminal| g.occurs(a))
}

/// FIRST of what follows position `k` in production `p`.
pub open spec fn first_after(first: Map<NonTerminal, Set<Symbol>>, g: &Grammar, p: int, k: int) -> Set<Symbol> {
    first_seq(first, g.rhs_of(p).subrange(k + 1, g.rhs_of(p).len() as int))
}

/// The FOLLOW constraints: `#` follows the start symbol, and for every
/// occurrence `A -> alpha X beta`, FIRST(beta) without epsilon follows `X`, and
/// when beta can vanish, everything that follows `A` follows `X`.
pub open spec fn follow_closed(g: &Grammar, first: Map<NonTerminal, Set<Symbol>>, m: Map<NonTerminal, Set<Symbol>>) -> bool {
    &&& m[g.start].contains(Symbol::Terminal(Terminal::End))
    &&& forall|p: int, k: int|
        0 <= p < g.num_prods() && 0 <= k < g.rhs_of(p).len() && (#[trigger] g.rhs_of(p)[k]) is NonTerminal ==> {
            let x = g.rhs_of(p)[k]->NonTerminal_0;
            let f = first_after(first, g, p, k);
            &&& f.remove(Symbol::Epsilon).subset_of(m[x])
            &&& f.contains(Symbol::Epsilon) ==> m[g.lhs_of(p)].subset_of(m[x])
        }
}

/// What computing FOLLOW needs: the start symbol occurs in the grammar, and
/// FIRST is known for every non-terminal looked up after an occurrence.
pub open spec fn follow_inputs_ok(g: &Grammar, first: Map<NonTerminal, Set<Symbol>>) -> bool {
    &&& g.occurs(g.start)
    &&& forall|p: int, k: int|
        0 <= p < g.num_prods() && 0 <= k < g.rhs_of(p).len() && (#[trigger] g.rhs_of(p)[k]) is NonTerminal
            ==> first_seq_defined(first, g.rhs_of(p).subrange(k + 1, g.rhs_of(p).len() as int))
}

/// `m` holds the FOLLOW sets: the least sets, one per non-terminal of the
/// grammar, that meet the FOLLOW constraints.
pub open spec fn is_follow_sets(g: &Grammar, first: Map<NonTerminal, Set<Symbol>>, m: Map<NonTerminal, Set<Symbol>>) -> bool {
    &&& m.dom() == occurs_domain(g)
    &&& follow_closed(g, first, m)
    &&& forall|m2: Map<NonTerminal, Set<Symbol>>| m2.dom() == occurs_domain(g) && #[trigger] follow_closed(g, first, m2) ==> map_le(m, m2)
}

/// Computes the FOLLOW sets of every non-terminal of the grammar by iterating
/// over the productions until no set grows.
pub fn get_follow_set(grammar: &Grammar, first_set: &SymbolSetMap) -> (m: SymbolSetMap)
    requires
        follow_inputs_ok(grammar, first_set.view()),
    ensures
        is_follow_sets(grammar, first_set.view(), m.view()),
{
    let ghost first = first_set.view();
    let mut follow = SymbolSetMap::new();
    let mut p: usize = 0;
    while p < grammar.productions.len()
        invariant
            p <= grammar.num_prods(),
            forall|a: NonTerminal| #[trigger] follow.view().dom().contains(a) <==> (exists|q: int| 0 <= q < p && grammar.lhs_of(q) == a) || exists|q: int, k: int|
                0 <= q < p && 0 <= k < grammar.rhs_of(q).len() && #[trigger] grammar.rhs_of(q)[k] == Symbol::NonTerminal(a),
            forall|a: NonTerminal| #[trigger] follow.view().dom().contains(a) ==> follow.view()[a] == Set::<Symbol>::empty(),
        decreases grammar.num_prods() - p,
    {
        let prod = &grammar.productions[p];
        let ghost before = follow.view();
        follow.define(prod.lhs);
        assert forall|a: NonTerminal| #[trigger] follow.view().dom().contains(a) <==> (exists|q: int| 0 <= q <= p && grammar.lhs_of(q) == a) || exists|q: int, j: int|
            0 <= q <= p && 0 <= j < grammar.rhs_of(q).len() && (q < p || j < 0) && #[trigger] grammar.rhs_of(q)[j] == Symbol::NonTerminal(a) by {
            if a == prod.lhs {
                assert(grammar.lhs_of(p as int) == a);
            }
            if before.dom().contains(a) {
            }
        }
        let mut k: usize = 0;
        while k < prod.rhs.len()
            invariant
                p < grammar.num_prods(),
                prod == &grammar.productions@[p as int],
                k <= prod.rhs@.len(),
                forall|a: NonTerminal| #[trigger] follow.view().dom().contains(a) <==> (exists|q: int| 0 <= q <= p && grammar.lhs_of(q) == a) || exists|q: int, j: int|
                    0 <= q <= p && 0 <= j < grammar.rhs_of(q).len() && (q < p || j < k) && #[trigger] grammar.rhs_of(q)[j] == Symbol::NonTerminal(a),
                forall|a: NonTerminal| #[trigger] follow.view().dom().contains(a) ==> follow.view()[a] == Set::<Symbol>::empty(),
            decreases prod.rhs@.len() - k,
        {
            if let Symbol::NonTerminal(x) = prod.rhs[k] {
                follow.define(x);
                assert(grammar.rhs_of(p as int)[k as int] == Symbol::NonTerminal(x));
            }
            k = k + 1;
        }
        p = p + 1;
    }
    assert(follow.view().dom() =~= occurs_domain(grammar));
    let mut end = SymbolSet::new();
    end.insert(Symbol::Terminal(Terminal::End));
    assert(follow.view().dom().contains(grammar.start));
    assert(follow.view()[grammar.start] == Set::<Symbol>::empty());
    follow.union_into(grammar.start, &end, false);
    assert forall|m2: Map<NonTerminal, Set<Symbol>>| m2.dom() == occurs_domain(grammar) && #[trigger] follow_closed(grammar, first, m2) implies map_le(follow.view(), m2) by {
        assert forall|a: NonTerminal| #[trigger] follow.view().dom().contains(a) implies m2.dom().contains(a) && follow.view()[a].subset_of(m2[a]) by {
            if a == grammar.start {
                assert(follow.view()[a] =~= set![Symbol::Terminal(Terminal::End)]);
            }
        }
    }
    let mut changed = true;
    while changed
        invariant
            first == first_set.view(),
            follow_inputs_ok(grammar, first),
            follow.view().dom() == occurs_domain(grammar),
            follow.view()[grammar.start].contains(Symbol::Terminal(Terminal::End)),
            forall|m2: Map<NonTerminal, Set<Symbol>>| m2.dom() == occurs_domain(grammar) && #[trigger] follow_closed(grammar, first, m2) ==> map_le(follow.view(), m2),
            !changed ==> follow_closed(grammar, first, follow.view()),
        decreases 1196 - follow.codes().len(), if changed { 1int } else { 0int },
    {
        let ghost start = follow;
        proof {
            start.lemma_codes_bound();
        }
        changed = false;
        let mut p: usize = 0;
        while p < grammar.productions.len()
            invariant
                first == first_set.view(),
                follow_inputs_ok(grammar, first),
                p <= grammar.num_prods(),
                follow.view().dom() == occurs_domain(grammar),
                follow.view()[grammar.start].contains(Symbol::Terminal(Terminal::End)),
                forall|m2: Map<NonTerminal, Set<Symbol>>| m2.dom() == occurs_domain(grammar) && #[trigger] follow_closed(grammar, first, m2) ==> map_le(follow.view(), m2),
                start.codes().subset_of(follow.codes()),
                changed ==> !follow.codes().subset_of(start.codes()),
                !changed ==> follow.view() == start.view(),
                !changed ==> forall|q: int, k: int|
                    0 <= q < p && 0 <= k < grammar.rhs_of(q).len() && (#[trigger] grammar.rhs_of(q)[k]) is NonTerminal ==> {
                        let x = grammar.rhs_of(q)[k]->NonTerminal_0;
                        let f = first_after(first, grammar, q, k);
                        &&& f.remove(Symbol::Epsilon).subset_of(follow.view()[x])
                        &&& f.contains(Symbol::Epsilon) ==> follow.view()[grammar.lhs_of(q)].subset_of(follow.view()[x])
                    },
            decreases grammar.num_prods() - p,
        {
            let prod = &grammar.productions[p];
            proof {
                assert(grammar.occurs(prod.lhs)) by {
                    assert(grammar.lhs_of(p as int) == prod.lhs);
                }
            }
            let lhs_follow: SymbolSet = *follow.get(&prod.lhs).unwrap();
            let ghost snap = follow.view();
            let mut k: usize = 0;
            while k < prod.rhs.len()
                invariant
                    first == first_set.view(),
                    follow_inputs_ok(grammar, first),
                    p < grammar.num_prods(),
                    prod == &grammar.productions@[p as int],
                    k <= prod.rhs@.len(),
                    follow.view().dom() == occurs_domain(grammar),
                    follow.view()[grammar.start].contains(Symbol::Terminal(Terminal::End)),
                    lhs_follow.contents() == snap[prod.lhs],
                    snap.dom().contains(prod.lhs),
                    map_le(snap, follow.view()),
                    forall|m2: Map<NonTerminal, Set<Symbol>>| m2.dom() == occurs_domain(grammar) && #[trigger] follow_closed(grammar, first, m2) ==> map_le(snap, m2),
                    forall|m2: Map<NonTerminal, Set<Symbol>>| m2.dom() == occurs_domain(grammar) && #[trigger] follow_closed(grammar, first, m2) ==> map_le(follow.view(), m2),
                    start.codes().subset_of(follow.codes()),
                    changed ==> !follow.codes().subset_of(start.codes()),
                    !changed ==> follow.view() == start.view(),
                    !changed ==> snap == start.view(),
                    !changed ==> forall|q: int, j: int|
                        0 <= q <= p && 0 <= j < grammar.rhs_of(q).len() && (q < p || j < k) && (#[trigger] grammar.rhs_of(q)[j]) is NonTerminal ==> {
                            let x = grammar.rhs_of(q)[j]->NonTerminal_0;
                            let f = first_after(first, grammar, q, j);
                            &&& f.remove(Symbol::Epsilon).subset_of(follow.view()[x])
                            &&& f.contains(Symbol::Epsilon) ==> follow.view()[grammar.lhs_of(q)].subset_of(follow.view()[x])
                        },
                decreases prod.rhs@.len() - k,
            {
                if let Symbol::NonTerminal(x) = prod.rhs[k] {
                    proof {
                        assert(grammar.rhs_of(p as int)[k as int] == Symbol::NonTerminal(x));
                        assert(grammar.occurs(x));
                    }
                    let suffix = first_of_suffix(prod.rhs.as_slice(), k + 1, first_set);
                    let ghost before = follow.view();
                    let grew1 = follow.union_into(x, &suffix, true);
                    let ghost mid = follow.view();
                    let mut grew2 = false;
                    if suffix.contains(&Symbol::Epsilon) {
                        grew2 = follow.union_into(x, &lhs_follow, false);
                    }
                    proof {
                        let f = first_after(first, grammar, p as int, k as int);
                        assert(suffix.contents() == f);
                        assert forall|m2: Map<NonTerminal, Set<Symbol>>| m2.dom() == occurs_domain(grammar) && #[trigger] follow_closed(grammar, first, m2) implies map_le(follow.view(), m2) by {
                            assert(map_le(before, m2));
                            assert(map_le(snap, m2));
                            assert(grammar.rhs_of(p as int)[k as int] is NonTerminal);
                            assert(f.remove(Symbol::Epsilon).subset_of(m2[x]));
                            assert(m2.dom().contains(x));
                            assert(map_le(mid, m2)) by {
                                assert forall|a: NonTerminal| #[trigger] mid.dom().contains(a) implies m2.dom().contains(a) && mid[a].subset_of(m2[a]) by {
                                    if a != x {
                                        assert(before.dom().contains(a));
                                    }
                                }
                            }
                            if f.contains(Symbol::Epsilon) {
                                assert(m2[grammar.lhs_of(p as int)].subset_of(m2[x]));
                                assert(grammar.lhs_of(p as int) == prod.lhs);
                                assert(snap[prod.lhs].subset_of(m2[prod.lhs]));
                                assert forall|a: NonTerminal| #[trigger] follow.view().dom().contains(a) implies m2.dom().contains(a) && follow.view()[a].subset_of(m2[a]) by {
                                    if a != x {
                                        assert(mid.dom().contains(a));
                                    }
                                }
                            }
                        }
                        if !grew1 {
                            assert(mid =~= before);
                        }
                        if !grew2 {
                            assert(follow.view() =~= mid);
                        }
                        assert(map_le(snap, follow.view()));
                    }
                    changed = changed || grew1 || grew2;
                }
                k = k + 1;
            }
            p = p + 1;
        }
        proof {
            follow.lemma_codes_bound();
            if changed {
                let c = choose|c: int| follow.codes().contains(c) && !start.codes().contains(c);
                assert(start.codes().subset_of(follow.codes().remove(c)));
                vstd::set_lib::lemma_len_subset(start.codes(), follow.codes().remove(c));
            } else {
                vstd::set_lib::lemma_len_subset(start.codes(), follow.codes());
            }
        }
    }
    follow
}

/// No set of the map holds a non-terminal.
pub open spec fn no_nonterminals(m: Map<NonTerminal, Set<Symbol>>) -> bool {
    forall|a: NonTerminal, x: Symbol| m.dom().contains(a) && #[trigger] m[a].contains(x) ==> !(x is NonTerminal)
}

/// FIRST of a sequence, computed from sets without non-terminals, holds no
/// non-terminal.
pub proof fn lemma_first_seq_no_nonterminals(m: Map<NonTerminal, Set<Symbol>>, s: Seq<Symbol>)
    requires
        no_nonterminals(m),
        first_seq_defined(m, s),
    ensures
        forall|x: Symbol| #[trigger] first_seq(m, s).contains(x) ==> !(x is NonTerminal),
    decreases s.len(),
{
    if s.len() > 0 {
        match s[0] {
            Symbol::NonTerminal(a) => {
                if m[a].contains(Symbol::Epsilon) {
                    lemma_first_seq_no_nonterminals(m, s.drop_first());
                }
                assert(m.dom().contains(a));
                assert forall|x: Symbol| #[trigger] first_seq(m, s).contains(x) implies !(x is NonTerminal) by {
                    if m[a].remove(Symbol::Epsilon).contains(x) {
                        assert(m[a].contains(x));
                    } else {
                        assert(m[a].contains(Symbol::Epsilon));
                        assert(first_seq(m, s.drop_first()).contains(x));
                    }
                }
            },
            Symbol::Epsilon => {
                lemma_first_seq_no_nonterminals(m, s.drop_first());
                assert(first_seq(m, s) == first_seq(m, s.drop_first()));
            },
            Symbol::Terminal(_) => {},
        }
    }
}

/// Two maps on the same domain whose sets agree on epsilon look up the same
/// non-terminals when computing FIRST.
pub proof fn lemma_defined_same_epsilon(m1: Map<NonTerminal, Set<Symbol>>, m2: Map<NonTerminal, Set<Symbol>>, s: Seq<Symbol>)
    requires
        m1.dom() == m2.dom(),
        forall|a: NonTerminal| #[trigger] m1.dom().contains(a) ==> (m1[a].contains(Symbol::Epsilon) <==> m2[a].contains(Symbol::Epsilon)),
        first_seq_defined(m1, s),
    ensures
        first_seq_defined(m2, s),
    decreases s.len(),
{
    if s.len() > 0 {
        match s[0] {
            Symbol::NonTerminal(a) => {
                if m2[a].contains(Symbol::Epsilon) {
                    lemma_defined_same_epsilon(m1, m2, s.drop_first());
                }
            },
            Symbol::Epsilon => lemma_defined_same_epsilon(m1, m2, s.drop_first()),
            _ => {},
        }
    }
}

/// FIRST sets computed with every lookup defined hold no non-terminal.
pub proof fn lemma_first_sets_no_nonterminals(g: &Grammar, m: Map<NonTerminal, Set<Symbol>>)
    requires
        is_first_sets(g, m),
        forall|p: int| 0 <= p < g.num_prods() ==> first_seq_defined(m, #[trigger] g.rhs_of(p)),
    ensures
        no_nonterminals(m),
{
    let m2 = Map::new(|a: NonTerminal| m.dom().contains(a), |a: NonTerminal| m[a].filter(|x: Symbol| !(x is NonTerminal)));
    assert(m2.dom() =~= lhs_domain(g));
    assert forall|a: NonTerminal, x: Symbol| m2.dom().contains(a) && #[trigger] m2[a].contains(x) implies !(x is NonTerminal) by {}
    assert forall|p: int| 0 <= p < g.num_prods() implies first_seq(m2, #[trigger] g.rhs_of(p)).subset_of(m2[g.lhs_of(p)]) by {
        lemma_defined_same_epsilon(m, m2, g.rhs_of(p));
        lemma_first_seq_monotone(m2, m, g.rhs_of(p));
        lemma_first_seq_no_nonterminals(m2, g.rhs_of(p));
        assert(first_seq(m, g.rhs_of(p)).subset_of(m[g.lhs_of(p)]));
        assert(g.defines(g.lhs_of(p)));
    }
    assert(first_closed(g, m2));
    assert(map_le(m, m2));
}

/// FIRST of a sequence that ends with a terminal holds neither epsilon nor,
/// when the sets hold none, a non-terminal.
pub proof fn lemma_first_seq_terminal_end(m: Map<NonTerminal, Set<Symbol>>, s: Seq<Symbol>, t: Terminal)
    requires
        no_nonterminals(m),
        first_seq_defined(m, s.push(Symbol::Terminal(t))),
    ensures
        forall|x: Symbol| #[trigger] first_seq(m, s.push(Symbol::Terminal(t))).contains(x) ==> x is Terminal,
    decreases s.len(),
{
    let w = s.push(Symbol::Terminal(t));
    if s.len() == 0 {
        assert(w[0] == Symbol::Terminal(t));
        assert(first_seq(m, w) == set![Symbol::Terminal(t)]);
    } else {
        assert(w.drop_first() =~= s.drop_first().push(Symbol::Terminal(t)));
        assert(w[0] == s[0]);
        match s[0] {
            Symbol::NonTerminal(a) => {
                if m[a].contains(Symbol::Epsilon) {
                    lemma_first_seq_terminal_end(m, s.drop_first(), t);
                }
                assert(m.dom().contains(a));
                assert forall|x: Symbol| #[trigger] first_seq(m, w).contains(x) implies x is Terminal by {
                    if m[a].remove(Symbol::Epsilon).contains(x) {
                        assert(m[a].contains(x));
                        assert(!(x is NonTerminal));
                    } else {
                        assert(m[a].contains(Symbol::Epsilon));
                        assert(first_seq(m, w.drop_first()).contains(x));
                        assert(first_seq(m, s.drop_first().push(Symbol::Terminal(t))).contains(x));
                    }
                }
            },
            Symbol::Epsilon => {
                lemma_first_seq_terminal_end(m, s.drop_first(), t);
                assert(first_seq(m, w) == first_seq(m, s.drop_first().push(Symbol::Terminal(t))));
            },
            Symbol::Terminal(u) => {
                assert(first_seq(m, w) == set![Symbol::Terminal(u)]);
            },
        }
    }
}

/// FIRST of a concatenation: FIRST(alpha) without epsilon, plus FIRST(beta)
/// when alpha can vanish.
pub proof fn lemma_first_seq_concat(m: Map<NonTerminal, Set<Symbol>>, a: Seq<Symbol>, b: Seq<Symbol>)
    ensures
        first_seq(m, a + b) == first_seq(m, a).remove(Symbol::Epsilon).union(
            if first_seq(m, a).contains(Symbol::Epsilon) {
                first_seq(m, b)
            } else {
                Set::empty()
            },
        ),
    decreases a.len(),
{
    if a.len() == 0 {
        assert(a + b =~= b);
        assert(first_seq(m, b) =~= set![Symbol::Epsilon].remove(Symbol::Epsilon).union(first_seq(m, b)));
    } else {
        assert((a + b).drop_first() =~= a.drop_first() + b);
        assert((a + b)[0] == a[0]);
        lemma_first_seq_concat(m, a.drop_first(), b);
        let rest = first_seq(m, a.drop_first());
        let tail = if rest.contains(Symbol::Epsilon) { first_seq(m, b) } else { Set::empty() };
        match a[0] {
            Symbol::Terminal(t) => {
                assert(first_seq(m, a + b) =~= first_seq(m, a).remove(Symbol::Epsilon));
            },
            Symbol::NonTerminal(x) => {
                if m[x].contains(Symbol::Epsilon) {
                    assert(first_seq(m, a + b) =~= first_seq(m, a).remove(Symbol::Epsilon).union(
                        if first_seq(m, a).contains(Symbol::Epsilon) { first_seq(m, b) } else { Set::empty() },
                    ));
                } else {
                    assert(first_seq(m, a + b) =~= first_seq(m, a).remove(Symbol::Epsilon));
                }
            },
            Symbol::Epsilon => {},
        }
    }
}

/// The symbol can vanish: an explicit epsilon, or a non-terminal whose set
/// holds epsilon.
pub open spec fn vanishes(m: Map<NonTerminal, Set<Symbol>>, x: Symbol) -> bool {
    match x {
        Symbol::Terminal(_) => false,
        Symbol::NonTerminal(a) => m[a].contains(Symbol::Epsilon),
        Symbol::Epsilon => true,
    }
}

/// Epsilon is in FIRST(s) exactly when every symbol of `s` can vanish.
pub proof fn lemma_first_seq_nullable(m: Map<NonTerminal, Set<Symbol>>, s: Seq<Symbol>)
    ensures
        first_seq(m, s).contains(Symbol::Epsilon) <==> forall|k: int| 0 <= k < s.len() ==> vanishes(m, #[trigger] s[k]),
    decreases s.len(),
{
    if s.len() > 0 {
        let rest = s.drop_first();
        lemma_first_seq_nullable(m, rest);
        assert(first_seq(m, s).contains(Symbol::Epsilon) <==> vanishes(m, s[0]) && first_seq(m, rest).contains(Symbol::Epsilon));
        if forall|k: int| 0 <= k < s.len() ==> vanishes(m, #[trigger] s[k]) {
            assert forall|k: int| 0 <= k < rest.len() implies vanishes(m, #[trigger] rest[k]) by {
                assert(rest[k] == s[k + 1]);
            }
        }
        if vanishes(m, s[0]) && first_seq(m, rest).contains(Symbol::Epsilon) {
            assert forall|k: int| 0 <= k < s.len() implies vanishes(m, #[trigger] s[k]) by {
                if k > 0 {
                    assert(s[k] == rest[k - 1]);
                }
            }
        }
    }
}

/// The position of the first symbol of `s` that cannot vanish, or the length
/// of `s` when every symbol can.
pub open spec fn first_block(m: Map<NonTerminal, Set<Symbol>>, s: Seq<Symbol>) -> int
    decreases s.len(),
{
    if s.len() == 0 {
        0
    } else if vanishes(m, s[0]) {
        1 + first_block(m, s.drop_first())
    } else {
        0
    }
}

/// What a symbol of a sequence gives to its FIRST set, besides epsilon.
pub open spec fn gives(m: Map<NonTerminal, Set<Symbol>>, y: Symbol, x: Symbol) -> bool {
    match y {
        Symbol::Terminal(t) => x == Symbol::Terminal(t),
        Symbol::NonTerminal(a) => x != Symbol::Epsilon && m[a].contains(x),
        Symbol::Epsilon => false,
    }
}

/// FIRST(s) in closed form: with `k` the first symbol that cannot vanish, the
/// symbols that the symbols up to `k` give, and epsilon exactly when there is
/// no such `k`.
pub proof fn lemma_first_seq_closed_form(m: Map<NonTerminal, Set<Symbol>>, s: Seq<Symbol>, x: Symbol)
    ensures
        0 <= first_block(m, s) <= s.len(),
        first_seq(m, s).contains(x) <==> if x == Symbol::Epsilon {
            first_block(m, s) == s.len()
        } else {
            exists|j: int| 0 <= j <= first_block(m, s) && j < s.len() && #[trigger] gives(m, s[j], x)
        },
    decreases s.len(),
{
    if s.len() > 0 {
        let rest = s.drop_first();
        lemma_first_seq_closed_form(m, rest, x);
        if x != Symbol::Epsilon {
            if first_seq(m, s).contains(x) {
                if gives(m, s[0], x) {
                    assert(gives(m, s[0], x));
                } else {
                    assert(vanishes(m, s[0]));
                    assert(first_seq(m, rest).contains(x));
                    let j = choose|j: int| 0 <= j <= first_block(m, rest) && j < rest.len() && #[trigger] gives(m, rest[j], x);
                    assert(s[j + 1] == rest[j]);
                    assert(gives(m, s[j + 1], x));
                }
            }
            if exists|j: int| 0 <= j <= first_block(m, s) && j < s.len() && #[trigger] gives(m, s[j], x) {
                let j = choose|j: int| 0 <= j <= first_block(m, s) && j < s.len() && #[trigger] gives(m, s[j], x);
                if j > 0 {
                    assert(rest[j - 1] == s[j]);
                    assert(gives(m, rest[j - 1], x));
                }
            }
        }
    }
}

/// The FIRST sets of a grammar are unique.
pub proof fn lemma_first_sets_unique(g: &Grammar, m1: Map<NonTerminal, Set<Symbol>>, m2: Map<NonTerminal, Set<Symbol>>)
    requires
        is_first_sets(g, m1),
        is_first_sets(g, m2),
    ensures
        m1 == m2,
{
    assert(map_le(m1, m2));
    assert(map_le(m2, m1));
    assert forall|a: NonTerminal| #[trigger] m1.dom().contains(a) implies m1[a] == m2[a] by {
        assert(m1[a] =~= m2[a]);
    }
    assert(m1 =~= m2);
}

/// The FOLLOW sets of a grammar, for given FIRST sets, are unique.
pub proof fn lemma_follow_sets_unique(
    g: &Grammar,
    first: Map<NonTerminal, Set<Symbol>>,
    m1: Map<NonTerminal, Set<Symbol>>,
    m2: Map<NonTerminal, Set<Symbol>>,
)
    requires
        is_follow_sets(g, first, m1),
        is_follow_sets(g, first, m2),
    ensures
        m1 == m2,
{
    assert(map_le(m1, m2));
    assert(map_le(m2, m1));
    assert forall|a: NonTerminal| #[trigger] m1.dom().contains(a) implies m1[a] == m2[a] by {
        assert(m1[a] =~= m2[a]);
    }
    assert(m1 =~= m2);
}

/// The names of the symbols are in nondecreasing character order.
pub open spec fn name_sorted(out: Seq<Symbol>) -> bool {
    forall|i: int, j: int| 0 <= i < j < out.len() ==> !name_lt((#[trigger] out[j]).spec_name(), (#[trigger] out[i]).spec_name())
}

/// `out` lists the symbols of `set`, each once, ordered by name.
pub open spec fn arranges(out: Seq<Symbol>, set: Set<Symbol>) -> bool {
    &&& out.to_set() == set
    &&& out.no_duplicates()
    &&& name_sorted(out)
}

/// A set as text: `{ a, b, c }`.
pub open spec fn symbol_set_text(out: Seq<Symbol>) -> Seq<char> {
    "{ "@ + join(out.map_values(|x: Symbol| x.spec_name()), ", "@) + " }"@
}

/// The symbols of the set ordered by name.
fn sorted_by_name(set: &SymbolSet) -> (out: Vec<Symbol>)
    ensures
        arranges(out@, set.contents()),
{
    let v = set.symbols();
    let mut out: Vec<Symbol> = Vec::new();
    let mut i: usize = 0;
    while i < v.len()
        invariant
            i <= v@.len(),
            forall|a: int, b: int| 0 <= a < b < v@.len() ==> (#[trigger] v@[a]).spec_slot() < (#[trigger] v@[b]).spec_slot(),
            forall|y: Symbol| #[trigger] out@.contains(y) <==> v@.take(i as int).contains(y),
            out@.no_duplicates(),
            name_sorted(out@),
        decreases v@.len() - i,
    {
        let x = v[i];
        let mut pos: usize = 0;
        while pos < out.len() && !name_less(x.name(), out[pos].name())
            invariant
                pos <= out@.len(),
                forall|k: int| 0 <= k < pos ==> !name_lt(x.spec_name(), (#[trigger] out@[k]).spec_name()),
            decreases out@.len() - pos,
        {
            pos = pos + 1;
        }
        let ghost old_out = out@;
        assert(!old_out.contains(x)) by {
            if old_out.contains(x) {
                let k = choose|k: int| 0 <= k < i && v@.take(i as int)[k] == x;
                assert(v@[k] == v@[i as int]);
            }
        }
        out.insert(pos, x);
        assert(out@ =~= old_out.insert(pos as int, x));
        assert(v@.take(i + 1) =~= v@.take(i as int).push(x));
        assert forall|y: Symbol| #[trigger] out@.contains(y) implies v@.take(i + 1).contains(y) by {
            let k = choose|k: int| 0 <= k < out@.len() && out@[k] == y;
            if k == pos {
                assert(v@.take(i + 1)[i as int] == y);
            } else {
                let k2 = if k < pos { k } else { k - 1 };
                assert(old_out[k2] == y);
                assert(old_out.contains(y));
                let j = choose|j: int| 0 <= j < v@.take(i as int).len() && #[trigger] v@.take(i as int)[j] == y;
                assert(v@.take(i + 1)[j] == y);
            }
        }
        assert forall|y: Symbol| #[trigger] v@.take(i + 1).contains(y) implies out@.contains(y) by {
            let j = choose|j: int| 0 <= j < v@.take(i + 1).len() && #[trigger] v@.take(i + 1)[j] == y;
            if j == i {
                assert(out@[pos as int] == y);
            } else {
                assert(v@.take(i as int)[j] == y);
                assert(v@.take(i as int).contains(y));
                assert(old_out.contains(y));
                let k = choose|k: int| 0 <= k < old_out.len() && old_out[k] == y;
                if k < pos {
                    assert(out@[k] == y);
                } else {
                    assert(out@[k + 1] == y);
                }
            }
        }
        assert forall|a: int, b: int| 0 <= a < b < out@.len() implies out@[a] != out@[b] by {
            if a != pos && b != pos {
                let a2 = if a < pos { a } else { a - 1 };
                let b2 = if b < pos { b } else { b - 1 };
                assert(out@[a] == old_out[a2]);
                assert(out@[b] == old_out[b2]);
            } else if a == pos {
                let b2 = b - 1;
                assert(out@[b] == old_out[b2]);
            } else {
                assert(out@[a] == old_out[a]);
            }
        }
        assert forall|a: int, b: int| 0 <= a < b < out@.len() implies !name_lt((#[trigger] out@[b]).spec_name(), (#[trigger] out@[a]).spec_name()) by {
            if b < pos {
                assert(out@[a] == old_out[a] && out@[b] == old_out[b]);
            } else if b == pos {
                assert(out@[a] == old_out[a]);
            } else if a < pos {
                assert(out@[a] == old_out[a] && out@[b] == old_out[b - 1]);
            } else if a == pos {
                assert(out@[b] == old_out[b - 1]);
                assert(name_lt(x.spec_name(), old_out[pos as int].spec_name()));
                if name_lt(old_out[b - 1].spec_name(), x.spec_name()) {
                    lemma_name_lt_transitive(old_out[b - 1].spec_name(), x.spec_name(), old_out[pos as int].spec_name());
                    if b - 1 == pos {
                        lemma_name_lt_irreflexive(old_out[pos as int].spec_name());
                    }
                }
            } else {
                assert(out@[a] == old_out[a - 1] && out@[b] == old_out[b - 1]);
            }
        }
        i = i + 1;
    }
    assert(v@.take(v@.len() as int) =~= v@);
    assert(out@.to_set() =~= set.contents());
    out
}

impl SymbolSet {
    /// The set as text, its members ordered by name: `{ a, b, c }`.
    pub fn text(&self) -> (s: String)
        ensures
            exists|out: Seq<Symbol>| arranges(out, self.contents()) && s@ == symbol_set_text(out),
    {
        let out = sorted_by_name(self);
        let ghost names = out@.map_values(|x: Symbol| x.spec_name());
        let mut s = String::from_str("{ ");
        let ghost head = s@;
        let mut i: usize = 0;
        while i < out.len()
            invariant
                names == out@.map_values(|x: Symbol| x.spec_name()),
                i <= out@.len(),
                s@ == head + join(names.take(i as int), ", "@),
            decreases out@.len() - i,
        {
            assert(names.take(i + 1).drop_last() =~= names.take(i as int));
            if i > 0 {
                s.append(", ");
            } else {
                assert(names.take(1) =~= seq![names[0]]);
            }
            s.append(out[i].name());
            i = i + 1;
            assert(s@ =~= head + join(names.take(i as int), ", "@));
        }
        assert(names.take(out@.len() as int) =~= names);
        s.append(" }");
        assert(s@ =~= symbol_set_text(out@));
        assert(arranges(out@, self.contents()) && s@ == symbol_set_text(out@));
        s
    }
}

/// The non-terminals among the first `k` that have a set in `m`, in
/// declaration order.
pub open spec fn defined_prefix(m: Map<NonTerminal, Set<Symbol>>, k: int) -> Seq<NonTerminal>
    decreases k,
{
    if k <= 0 {
        Seq::empty()
    } else {
        defined_prefix(m, k - 1) + if m.dom().contains(NonTerminal::at(k - 1)) {
            seq![NonTerminal::at(k - 1)]
        } else {
            Seq::empty()
        }
    }
}

/// The lines `LABEL(A) = { ... }` for the non-terminals `nts`, with the
/// members of each set in the order `outs` gives.
pub open spec fn set_lines(label: Seq<char>, nts: Seq<NonTerminal>, outs: Seq<Seq<Symbol>>) -> Seq<Seq<char>> {
    Seq::new(nts.len(), |k: int| label + "("@ + nts[k].spec_name() + ") = "@ + symbol_set_text(outs[k]))
}

/// The sets of `m` as text: one line per non-terminal that has a set, in
/// declaration order, each set's members ordered by name.
pub open spec fn sets_text(label: Seq<char>, m: Map<NonTerminal, Set<Symbol>>, s: Seq<char>) -> bool {
    let nts = defined_prefix(m, 23);
    exists|outs: Seq<Seq<Symbol>>|
        outs.len() == nts.len() && (forall|k: int| 0 <= k < nts.len() ==> arranges(#[trigger] outs[k], m[nts[k]])) && s
            == join(set_lines(label, nts, outs), "\n"@)
}

fn format_sets(label: &str, m: &SymbolSetMap) -> (s: String)
    ensures
        sets_text(label@, m.view(), s@),
{
    let all = NonTerminal::all();
    let mut lines: Vec<String> = Vec::new();
    let ghost mut outs: Seq<Seq<Symbol>> = Seq::empty();
    let mut i: usize = 0;
    while i < 23
        invariant
            i <= 23,
            all@.len() == 23,
            forall|k: int| 0 <= k < 23 ==> #[trigger] all@[k] == NonTerminal::at(k),
            outs.len() == defined_prefix(m.view(), i as int).len(),
            forall|k: int| 0 <= k < outs.len() ==> arranges(#[trigger] outs[k], m.view()[defined_prefix(m.view(), i as int)[k]]),
            string_views(lines@) == set_lines(label@, defined_prefix(m.view(), i as int), outs),
        decreases 23 - i,
    {
        let a = all[i];
        let ghost pre = defined_prefix(m.view(), i as int);
        match m.get(&a) {
            Some(set) => {
                let mut line = String::from_str(label);
                line.append("(");
                line.append(a.name());
                line.append(") = ");
                let t = set.text();
                let ghost out = choose|out: Seq<Symbol>| arranges(out, set.contents()) && t@ == symbol_set_text(out);
                line.append(t.as_str());
                let ghost before = string_views(lines@);
                let ghost old_outs = outs;
                let ghost lv = line@;
                lines.push(line);
                proof {
                    outs = outs.push(out);
                }
                assert(a == NonTerminal::at(i as int));
                assert(defined_prefix(m.view(), i + 1) =~= pre.push(a));
                assert(string_views(lines@) =~= before.push(lv));
                assert forall|k: int| 0 <= k < outs.len() implies arranges(#[trigger] outs[k], m.view()[defined_prefix(m.view(), i + 1)[k]]) by {
                    if k < old_outs.len() {
                        assert(outs[k] == old_outs[k]);
                        assert(defined_prefix(m.view(), i + 1)[k] == pre[k]);
                    }
                }
                assert(string_views(lines@) =~= set_lines(label@, defined_prefix(m.view(), i + 1), outs));
            },
            None => {
                assert(a == NonTerminal::at(i as int));
                assert(defined_prefix(m.view(), i + 1) =~= pre);
            },
        }
        i = i + 1;
    }
    join_strings(&lines, "\n")
}

/// The FIRST sets of the grammar as text: `FIRST(A) = { ... }` per
/// non-terminal with a production, in declaration order.
pub fn format_first_sets(grammar: &Grammar) -> (s: String)
    requires
        first_lookups_defined(grammar),
    ensures
        exists|first: Map<NonTerminal, Set<Symbol>>| is_first_sets(grammar, first) && sets_text("FIRST"@, first, s@),
{
    let first = get_first_set(grammar);
    format_sets("FIRST", &first)
}

/// The FOLLOW sets of the grammar as text: `FOLLOW(A) = { ... }` per
/// non-terminal of the grammar, in declaration order.
pub fn format_follow_sets(grammar: &Grammar) -> (s: String)
    requires
        first_lookups_defined(grammar),
        follow_lookups_defined(grammar),
        grammar.occurs(grammar.start),
    ensures
        exists|first: Map<NonTerminal, Set<Symbol>>, follow: Map<NonTerminal, Set<Symbol>>|
            is_first_sets(grammar, first) && is_follow_sets(grammar, first, follow) && sets_text("FOLLOW"@, follow, s@),
{
    let first = get_first_set(grammar);
    proof {
        assert forall|p: int, k: int|
            0 <= p < grammar.num_prods() && 0 <= k < grammar.rhs_of(p).len() && (#[trigger] grammar.rhs_of(p)[k]) is NonTerminal
                implies first_seq_defined(first.view(), grammar.rhs_of(p).subrange(k + 1, grammar.rhs_of(p).len() as int)) by {
            lemma_lookups_defined(grammar, first.view(), grammar.rhs_of(p).subrange(k + 1, grammar.rhs_of(p).len() as int));
        }
    }
    let follow = get_follow_set(grammar, &first);
    format_sets("FOLLOW", &follow)
}

} // verus!
