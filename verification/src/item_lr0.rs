use vstd::prelude::*;
use vstd::std_specs::iter::IteratorSpec;
use vstd::string::StringExecFns;
use crate::grammar::{Grammar, dotted_rule};
use crate::text::{decimal, join, join_strings, push_decimal, string_views};
use crate::item_set::{ItemSet, SetElement, key_lt};
use crate::symbol::Symbol;

verus! {

/// An LR(0) item: a production with a dot position in its right-hand side.
#[derive(Debug, Clone, Copy, PartialEq, Eq, Structural, Hash, PartialOrd, Ord)]
pub struct Item {
    pub production_id: usize,
    pub dot: usize,
}

pub type ItemLR0 = Item;

impl Item {
    /// The symbol right after the dot, if the production exists and the dot is
    /// not at its end.
    pub open spec fn after_dot(self, g: &Grammar) -> Option<Symbol> {
        g.symbol_at(self.production_id as int, self.dot as int)
    }

    /// The production exists and the dot is at (or past) its end.
    pub open spec fn spec_is_complete(self, g: &Grammar) -> bool {
        g.valid_prod(self.production_id as int) && self.dot >= g.rhs_of(self.production_id as int).len()
    }

    pub fn new(production_id: usize, dot: usize) -> (r: Self)
        ensures
            r == (Item { production_id, dot }),
    {
        Item { production_id, dot }
    }

    pub fn symbol_after_dot<'a>(&self, grammar: &'a Grammar) -> (r: Option<&'a Symbol>)
        ensures
            match r {
                Some(s) => self.after_dot(grammar) == Some(*s),
                None => self.after_dot(grammar) is None,
            },
            r is Some ==> self.dot < usize::MAX,
    {
        match grammar.production(self.production_id) {
            Some(p) => {
                if self.dot < p.rhs.len() {
                    Some(&p.rhs[self.dot])
                } else {
                    None
                }
            },
            None => None,
        }
    }

    pub fn is_complete(&self, grammar: &Grammar) -> (b: bool)
        ensures
            b == self.spec_is_complete(grammar),
    {
        match grammar.production(self.production_id) {
            Some(p) => self.dot >= p.rhs.len(),
            None => false,
        }
    }

    /// The item with the dot moved one symbol to the right; `None` for a
    /// complete item.
    pub fn advance_dot(&self, grammar: &Grammar) -> (r: Option<Self>)
        requires
            self.spec_is_complete(grammar) || self.dot < usize::MAX,
        ensures
            self.spec_is_complete(grammar) ==> r is None,
            !self.spec_is_complete(grammar) ==> r == Some(
                Item { production_id: self.production_id, dot: (self.dot + 1) as usize },
            ),
    {
        if self.is_complete(grammar) {
            return None;
        }
        Some(Item { production_id: self.production_id, dot: self.dot + 1 })
    }
}

impl SetElement for Item {
    open spec fn spec_key(self) -> (int, int, int) {
        (self.production_id as int, self.dot as int, 0)
    }

    fn lt(&self, other: &Self) -> (b: bool) {
        self.production_id < other.production_id || (self.production_id == other.production_id
            && self.dot < other.dot)
    }

    fn same(&self, other: &Self) -> (b: bool) {
        self.production_id == other.production_id && self.dot == other.dot
    }

    proof fn lemma_key_injective(a: Self, b: Self) {
    }
}

/// A set of LR(0) items, kept in item order.
#[derive(Debug)]
pub struct State {
    items: ItemSet<Item>,
}

pub type StateLR0 = State;

impl State {
    pub closed spec fn elems(&self) -> Seq<Item> {
        self.items.elems()
    }

    pub closed spec fn wf(&self) -> bool {
        self.items.wf()
    }

    /// The items as a mathematical set.
    pub open spec fn contents(&self) -> Set<Item> {
        self.elems().to_set()
    }

    pub proof fn lemma_wf(&self)
        requires
            self.wf(),
        ensures
            crate::item_set::strictly_sorted(self.elems()),
            self.elems().no_duplicates(),
            self.contents().finite(),
            self.contents().len() == self.elems().len(),
    {
        self.items.lemma_wf();
    }

    pub fn new() -> (r: Self)
        ensures
            r.wf(),
            r.contents() == Set::<Item>::empty(),
            r.elems().len() == 0,
    {
        State { items: ItemSet::new() }
    }

    pub fn insert(&mut self, item: Item) -> (b: bool)
        requires
            old(self).wf(),
        ensures
            final(self).wf(),
            b == !old(self).contents().contains(item),
            final(self).contents() == old(self).contents().insert(item),
    {
        self.items.insert(item)
    }

    pub fn contains(&self, item: &Item) -> (b: bool)
        requires
            self.wf(),
        ensures
            b == self.contents().contains(*item),
    {
        self.items.contains(item)
    }

    pub fn is_empty(&self) -> (b: bool)
        requires
            self.wf(),
        ensures
            b == (self.contents() == Set::<Item>::empty()),
            b == (self.elems().len() == 0),
    {
        self.items.is_empty()
    }

    pub fn len(&self) -> (n: usize)
        ensures
            n == self.elems().len(),
    {
        self.items.len()
    }

    pub fn get(&self, i: usize) -> (x: Item)
        requires
            i < self.elems().len(),
        ensures
            x == self.elems()[i as int],
    {
        self.items.get(i)
    }

    /// Iterates over the items in item order.
    pub fn iter(&self) -> (it: std::slice::Iter<'_, Item>)
        ensures
            it.remaining().map_values(|r: &Item| *r) == self.elems(),
    {
        self.items.iter()
    }

    pub fn duplicate(&self) -> (r: Self)
        ensures
            r.elems() == self.elems(),
            r.wf() == self.wf(),
    {
        State { items: self.items.duplicate() }
    }

    pub fn same_items(&self, other: &Self) -> (b: bool)
        requires
            self.wf(),
            other.wf(),
        ensures
            b == (self.contents() == other.contents()),
    {
        self.items.same_items(&other.items)
    }
}

impl Clone for State {
    fn clone(&self) -> (r: Self)
        ensures
            r.elems() == self.elems(),
    {
        self.duplicate()
    }
}

/// The text of an item: its dotted production, or `#id @ dot` when the
/// production does not exist.
pub open spec fn item_text(g: &Grammar, it: Item) -> Seq<char> {
    if it.production_id < g.num_prods() {
        dotted_rule(it.production_id as nat, g.lhs_of(it.production_id as int), g.rhs_of(it.production_id as int), it.dot as int)
    } else {
        "#"@ + decimal(it.production_id as nat) + " @ "@ + decimal(it.dot as nat)
    }
}

/// The text of a state: its items, one per line and indented, between braces.
pub open spec fn state_text(g: &Grammar, items: Seq<Item>) -> Seq<char> {
    join(seq!["{"@] + items.map_values(|it: Item| "  "@ + item_text(g, it)) + seq!["}"@], "\n"@)
}

impl Item {
    /// The item as text, with its production spelled out.
    pub fn format_with_grammar(&self, grammar: &Grammar) -> (s: String)
        ensures
            s@ == item_text(grammar, *self),
    {
        match grammar.production(self.production_id) {
            Some(production) => production.dotted_text(self.production_id, self.dot),
            None => {
                let mut s = String::from_str("#");
                push_decimal(&mut s, self.production_id);
                s.append(" @ ");
                push_decimal(&mut s, self.dot);
                s
            },
        }
    }
}

impl State {
    /// The state as text: its items in order, one per line, between braces.
    pub fn format_with_grammar(&self, grammar: &Grammar) -> (s: String)
        ensures
            s@ == state_text(grammar, self.elems()),
    {
        let ghost texts = self.elems().map_values(|it: Item| "  "@ + item_text(grammar, it));
        let mut lines: Vec<String> = Vec::new();
        lines.push(String::from_str("{"));
        let mut i: usize = 0;
        while i < self.len()
            invariant
                texts == self.elems().map_values(|it: Item| "  "@ + item_text(grammar, it)),
                i <= self.elems().len(),
                string_views(lines@) == seq!["{"@] + texts.take(i as int),
            decreases self.elems().len() - i,
        {
            let mut line = String::from_str("  ");
            let t = self.get(i).format_with_grammar(grammar);
            line.append(t.as_str());
            let ghost before = string_views(lines@);
            lines.push(line);
            assert(string_views(lines@) =~= before.push(texts[i as int]));
            assert(texts.take(i + 1) =~= texts.take(i as int).push(texts[i as int]));
            i = i + 1;
        }
        assert(texts.take(self.elems().len() as int) =~= texts);
        let ghost before = string_views(lines@);
        lines.push(String::from_str("}"));
        assert(string_views(lines@) =~= before.push("}"@));
        assert(string_views(lines@) =~= seq!["{"@] + texts + seq!["}"@]);
        join_strings(&lines, "\n")
    }
}

/// The short text of an item: `#id @ dot`.
pub open spec fn item_short_text(it: Item) -> Seq<char> {
    "#"@ + decimal(it.production_id as nat) + " @ "@ + decimal(it.dot as nat)
}

/// The short text of a state: its items in short form, one per line and
/// indented, between braces.
pub open spec fn state_short_text(items: Seq<Item>) -> Seq<char> {
    join(seq!["{"@] + items.map_values(|it: Item| "  "@ + item_short_text(it)) + seq!["}"@], "\n"@)
}

impl Item {
    /// The item as `#id @ dot`.
    pub fn text(&self) -> (s: String)
        ensures
            s@ == item_short_text(*self),
    {
        let mut s = String::from_str("#");
        push_decimal(&mut s, self.production_id);
        s.append(" @ ");
        push_decimal(&mut s, self.dot);
        s
    }
}

impl State {
    /// The state as text, its items in short form.
    pub fn text(&self) -> (s: String)
        ensures
            s@ == state_short_text(self.elems()),
    {
        let ghost texts = self.elems().map_values(|it: Item| "  "@ + item_short_text(it));
        let mut lines: Vec<String> = Vec::new();
        lines.push(String::from_str("{"));
        let mut i: usize = 0;
        while i < self.len()
            invariant
                texts == self.elems().map_values(|it: Item| "  "@ + item_short_text(it)),
                i <= self.elems().len(),
                string_views(lines@) == seq!["{"@] + texts.take(i as int),
            decreases self.elems().len() - i,
        {
            let mut line = String::from_str("  ");
            let t = self.get(i).text();
            line.append(t.as_str());
            let ghost before = string_views(lines@);
            lines.push(line);
            assert(string_views(lines@) =~= before.push(texts[i as int]));
            assert(texts.take(i + 1) =~= texts.take(i as int).push(texts[i as int]));
            i = i + 1;
        }
        assert(texts.take(self.elems().len() as int) =~= texts);
        let ghost before = string_views(lines@);
        lines.push(String::from_str("}"));
        assert(string_views(lines@) =~= seq!["{"@] + texts + seq!["}"@]);
        join_strings(&lines, "\n")
    }
}

} // verus!
