use vstd::prelude::*;
use vstd::string::StringExecFns;
use crate::grammar::{Grammar, dotted_rule};
use crate::text::{decimal, join, join_strings, push_decimal, string_views};
use crate::item_set::{ItemSet, SetElement};
use crate::symbol::{Symbol, Terminal};

verus! {

/// An LR(1) item: a production, a dot position and a lookahead terminal.
#[derive(Debug, Clone, Copy, PartialEq, Eq, Structural, Hash, PartialOrd, Ord)]
pub struct ItemLR1 {
    pub production_id: usize,
    pub dot: usize,
    pub lookahead: Terminal,
}

impl ItemLR1 {
    pub open spec fn after_dot(self, g: &Grammar) -> Option<Symbol> {
        g.symbol_at(self.production_id as int, self.dot as int)
    }

    /// The production exists and the dot is exactly at its end.
    pub open spec fn spec_is_complete(self, g: &Grammar) -> bool {
        g.valid_prod(self.production_id as int) && self.dot == g.rhs_of(self.production_id as int).len()
    }

    pub fn new(production_id: usize, dot: usize, lookahead: Terminal) -> (r: Self)
        ensures
            r == (ItemLR1 { production_id, dot, lookahead }),
    {
        ItemLR1 { production_id, dot, lookahead }
    }

    pub fn symbol_after_dot<'a>(&self, grammar: &'a Grammar) -> (r: Option<&'a Symbol>)
        ensures
            match r {
                Some(s) => self.after_dot(grammar) == Some(*s),
                None => self.after_dot(grammar) is None,
            },
            r is Some ==> self.dot < usize::MAX,
    {
        match grammar.production(self.production_id) {
            Some(p) => {
                if self.dot < p.rhs.len() {
                    Some(&p.rhs[self.dot])
                } else {
                    None
                }
            },
            None => None,
        }
    }

    pub fn is_complete(&self, grammar: &Grammar) -> (b: bool)
        ensures
            b == self.spec_is_complete(grammar),
    {
        match grammar.production(self.production_id) {
            Some(p) => self.dot == p.rhs.len(),
            None => false,
        }
    }

    /// The item with the dot moved one symbol to the right; `None` for a
    /// complete item. The lookahead is kept.
    pub fn advance_dot(&self, grammar: &Grammar) -> (r: Option<Self>)
        requires
            self.spec_is_complete(grammar) || self.dot < usize::MAX,
        ensures
            self.spec_is_complete(grammar) ==> r is None,
            !self.spec_is_complete(grammar) ==> r == Some(
                ItemLR1 {
                    production_id: self.production_id,
                    dot: (self.dot + 1) as usize,
                    lookahead: self.lookahead,
                },
            ),
    {
        if self.is_complete(grammar) {
            return None;
        }
        Some(ItemLR1 { production_id: self.production_id, dot: self.dot + 1, lookahead: self.lookahead })
    }
}

impl SetElement for ItemLR1 {
    open spec fn spec_key(self) -> (int, int, int) {
        (self.production_id as int, self.dot as int, self.lookahead.spec_index() as int)
    }

    fn lt(&self, other: &Self) -> (b: bool) {
        self.production_id < other.production_id || (self.production_id == other.production_id
            && (self.dot < other.dot || (self.dot == other.dot && self.lookahead.index()
            < other.lookahead.index())))
    }

    fn same(&self, other: &Self) -> (b: bool) {
        self.production_id == other.production_id && self.dot == other.dot && self.lookahead.index()
            == other.lookahead.index()
    }

    proof fn lemma_key_injective(a: Self, b: Self) {
        a.lookahead.lemma_at_index();
        b.lookahead.lemma_at_index();
    }
}

/// A set of LR(1) items, kept in item order.
pub type StateLR1 = ItemSet<ItemLR1>;

/// The text of an LR(1) item: its dotted production and lookahead, or
/// `#id @ dot, lookahead` when the production does not exist.
pub open spec fn item_lr1_text(g: &Grammar, it: ItemLR1) -> Seq<char> {
    (if it.production_id < g.num_prods() {
        dotted_rule(it.production_id as nat, g.lhs_of(it.production_id as int), g.rhs_of(it.production_id as int), it.dot as int)
    } else {
        "#"@ + decimal(it.production_id as nat) + " @ "@ + decimal(it.dot as nat)
    }) + ", "@ + it.lookahead.spec_name()
}

/// The text of an LR(1) state: its items, one per line and indented, between
/// braces.
pub open spec fn state_lr1_text(g: &Grammar, items: Seq<ItemLR1>) -> Seq<char> {
    join(seq!["{"@] + items.map_values(|it: ItemLR1| "  "@ + item_lr1_text(g, it)) + seq!["}"@], "\n"@)
}

impl ItemLR1 {
    /// The item as text, with its production spelled out.
    pub fn format_with_grammar(&self, grammar: &Grammar) -> (s: String)
        ensures
            s@ == item_lr1_text(grammar, *self),
    {
        let mut s = match grammar.production(self.production_id) {
            Some(production) => production.dotted_text(self.production_id, self.dot),
            None => {
                let mut s = String::from_str("#");
                push_decimal(&mut s, self.production_id);
                s.append(" @ ");
                push_decimal(&mut s, self.dot);
                s
            },
        };
        s.append(", ");
        s.append(self.lookahead.name());
        s
    }
}

impl ItemSet<ItemLR1> {
    /// The state as text: its items in order, one per line, between braces.
    pub fn format_with_grammar(&self, grammar: &Grammar) -> (s: String)
        ensures
            s@ == state_lr1_text(grammar, self.elems()),
    {
        let ghost texts = self.elems().map_values(|it: ItemLR1| "  "@ + item_lr1_text(grammar, it));
        let mut lines: Vec<String> = Vec::new();
        lines.push(String::from_str("{"));
        let mut i: usize = 0;
        while i < self.len()
            invariant
                texts == self.elems().map_values(|it: ItemLR1| "  "@ + item_lr1_text(grammar, it)),
                i <= self.elems().len(),
                string_views(lines@) == seq!["{"@] + texts.take(i as int),
            decreases self.elems().len() - i,
        {
            let mut line = String::from_str("  ");
            let t = self.get(i).format_with_grammar(grammar);
            line.append(t.as_str());
            let ghost before = string_views(lines@);
            lines.push(line);
            assert(string_views(lines@) =~= before.push(texts[i as int]));
            assert(texts.take(i + 1) =~= texts.take(i as int).push(texts[i as int]));
            i = i + 1;
        }
        assert(texts.take(self.elems().len() as int) =~= texts);
        let ghost before = string_views(lines@);
        lines.push(String::from_str("}"));
        assert(string_views(lines@) =~= before.push("}"@));
        assert(string_views(lines@) =~= seq!["{"@] + texts + seq!["}"@]);
        join_strings(&lines, "\n")
    }
}

} // verus!
