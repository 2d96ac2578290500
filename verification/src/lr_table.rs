use vstd::prelude::*;
use vstd::string::StringExecFns;
use crate::dfa::Dfa;
use crate::text::{concat_lines, decimal, join, join_strings, lines_text, push_decimal, string_views};
use crate::grammar::{Grammar, production_text};
use crate::item_lr0::{Item, State};
use crate::item_lr1::{ItemLR1, StateLR1};
use crate::symbol::{NUM_NONTERMINALS, NUM_TERMINALS, NonTerminal, Symbol, Terminal};
use crate::dfa::transitions_sorted;
use crate::table_contents::{shifts_follow_transitions, lr0_cells_follow_items, slr_cells_follow_items, lr1_cells_follow_items, gotos_follow_transitions, lemma_lr0_cells, lemma_slr_cells, lemma_lr1_cells, lemma_sorted_keys_distinct, lemma_goto_entries};
use crate::first_follow::{SymbolSetMap, get_first_set, get_follow_set, is_first_sets, is_follow_sets, lhs_domain, follow_inputs_ok, first_seq_defined, all_defined, lemma_all_defined};

verus! {

/// An ACTION table entry.
#[derive(PartialEq, Eq, Clone, Copy, Debug, Structural)]
pub enum Action {
    Shift(usize),
    Reduce(usize),
    Accept,
}

/// The text of an action: `s3`, `r4` or `acc`.
pub open spec fn action_text(a: Action) -> Seq<char> {
    match a {
        Action::Shift(s) => "s"@ + decimal(s as nat),
        Action::Reduce(p) => "r"@ + decimal(p as nat),
        Action::Accept => "acc"@,
    }
}

impl Action {
    /// The action as text: `s3`, `r4` or `acc`.
    pub fn text(&self) -> (s: String)
        ensures
            s@ == action_text(*self),
    {
        match *self {
            Action::Shift(target) => {
                let mut s = String::from_str("s");
                push_decimal(&mut s, target);
                s
            },
            Action::Reduce(p) => {
                let mut s = String::from_str("r");
                push_decimal(&mut s, p);
                s
            },
            Action::Accept => String::from_str("acc"),
        }
    }
}

/// Two different actions requested for the same ACTION cell: the one kept and
/// the one refused.
#[derive(Clone, Copy, Debug)]
pub struct Conflict {
    pub state_id: usize,
    pub terminal: Terminal,
    pub existing: Action,
    pub incoming: Action,
}

/// `v` lists the cells of `m`, each once, in (state, terminal) order.
pub open spec fn lists_action_cells(v: Seq<((usize, Terminal), Action)>, m: Map<(usize, Terminal), Action>) -> bool {
    &&& forall|k: int| 0 <= k < v.len() ==> m.dom().contains((#[trigger] v[k]).0) && m[v[k].0] == v[k].1
    &&& forall|key: (usize, Terminal)| #[trigger] m.dom().contains(key) ==> exists|k: int| 0 <= k < v.len() && v[k].0 == key
    &&& forall|a: int, b: int|
        0 <= a < b < v.len() ==> (#[trigger] v[a]).0.0 < (#[trigger] v[b]).0.0 || (v[a].0.0 == v[b].0.0
            && v[a].0.1.spec_index() < v[b].0.1.spec_index())
}

/// `v` lists the cells of `m`, each once, in (state, non-terminal) order.
pub open spec fn lists_goto_cells(v: Seq<((usize, NonTerminal), usize)>, m: Map<(usize, NonTerminal), usize>) -> bool {
    &&& forall|k: int| 0 <= k < v.len() ==> m.dom().contains((#[trigger] v[k]).0) && m[v[k].0] == v[k].1
    &&& forall|key: (usize, NonTerminal)| #[trigger] m.dom().contains(key) ==> exists|k: int| 0 <= k < v.len() && v[k].0 == key
    &&& forall|a: int, b: int|
        0 <= a < b < v.len() ==> (#[trigger] v[a]).0.0 < (#[trigger] v[b]).0.0 || (v[a].0.0 == v[b].0.0
            && v[a].0.1.spec_index() < v[b].0.1.spec_index())
}

/// `a` comes before `b` in (state, terminal) order.
pub open spec fn action_key_lt(a: (usize, Terminal), b: (usize, Terminal)) -> bool {
    a.0 < b.0 || (a.0 == b.0 && a.1.spec_index() < b.1.spec_index())
}

/// The keys of the cells strictly increase.
pub open spec fn action_cells_sorted(cells: Seq<((usize, Terminal), Action)>) -> bool {
    forall|i: int, j: int| 0 <= i < j < cells.len() ==> action_key_lt(#[trigger] cells[i].0, #[trigger] cells[j].0)
}

/// The map that a list of cells describes.
pub open spec fn action_cells_map(cells: Seq<((usize, Terminal), Action)>) -> Map<(usize, Terminal), Action> {
    Map::new(
        |k: (usize, Terminal)| exists|i: int| 0 <= i < cells.len() && #[trigger] cells[i].0 == k,
        |k: (usize, Terminal)| cells[choose|i: int| 0 <= i < cells.len() && #[trigger] cells[i].0 == k].1,
    )
}

proof fn lemma_action_key_lt_ne(a: (usize, Terminal), b: (usize, Terminal))
    requires
        action_key_lt(a, b),
    ensures
        a != b,
        !action_key_lt(b, a),
{
}

proof fn lemma_action_key_lt_trans(a: (usize, Terminal), b: (usize, Terminal), c: (usize, Terminal))
    requires
        action_key_lt(a, b),
        action_key_lt(b, c),
    ensures
        action_key_lt(a, c),
{
}

proof fn lemma_action_key_total(a: (usize, Terminal), b: (usize, Terminal))
    ensures
        a == b || action_key_lt(a, b) || action_key_lt(b, a),
{
    a.1.lemma_at_index();
    b.1.lemma_at_index();
}

/// In a sorted list each cell is found under its own key.
proof fn lemma_action_cell_at(cells: Seq<((usize, Terminal), Action)>, i: int)
    requires
        action_cells_sorted(cells),
        0 <= i < cells.len(),
    ensures
        action_cells_map(cells).dom().contains(cells[i].0),
        action_cells_map(cells)[cells[i].0] == cells[i].1,
{
    let k = cells[i].0;
    assert(action_cells_map(cells).dom().contains(k));
    let j = choose|j: int| 0 <= j < cells.len() && #[trigger] cells[j].0 == k;
    if j < i {
        lemma_action_key_lt_ne(cells[j].0, cells[i].0);
    } else if i < j {
        lemma_action_key_lt_ne(cells[i].0, cells[j].0);
    }
}

fn action_key_less(a: &(usize, Terminal), b: &(usize, Terminal)) -> (r: bool)
    ensures
        r == action_key_lt(*a, *b),
{
    a.0 < b.0 || (a.0 == b.0 && a.1.index() < b.1.index())
}

/// The ACTION table: at most one action per (state, terminal), kept as a
/// list of cells in (state, terminal) order.
#[derive(Debug)]
pub struct ActionTable {
    cells: Vec<((usize, Terminal), Action)>,
}

impl View for ActionTable {
    type V = Map<(usize, Terminal), Action>;

    closed spec fn view(&self) -> Map<(usize, Terminal), Action> {
        action_cells_map(self.cells@)
    }
}

impl ActionTable {
    #[verifier::type_invariant]
    spec fn cells_in_order(self) -> bool {
        action_cells_sorted(self.cells@)
    }

    pub fn new() -> (r: Self)
        ensures
            r@ == Map::<(usize, Terminal), Action>::empty(),
    {
        let r = ActionTable { cells: Vec::new() };
        assert(r@ =~= Map::<(usize, Terminal), Action>::empty());
        r
    }

    pub fn get(&self, key: &(usize, Terminal)) -> (r: Option<Action>)
        ensures
            r == (if self@.dom().contains(*key) { Some(self@[*key]) } else { None }),
    {
        proof {
            use_type_invariant(self);
        }
        let mut i: usize = 0;
        while i < self.cells.len()
            invariant
                action_cells_sorted(self.cells@),
                i <= self.cells@.len(),
                forall|j: int| 0 <= j < i ==> (#[trigger] self.cells@[j]).0 != *key,
            decreases self.cells@.len() - i,
        {
            let cell = self.cells[i];
            if cell.0.0 == key.0 && cell.0.1 == key.1 {
                proof {
                    lemma_action_cell_at(self.cells@, i as int);
                }
                return Some(cell.1);
            }
            i = i + 1;
        }
        None
    }

    pub fn contains_key(&self, key: &(usize, Terminal)) -> (b: bool)
        ensures
            b == self@.dom().contains(*key),
    {
        self.get(key).is_some()
    }

    /// Sets the action of a cell.
    pub fn insert(&mut self, key: (usize, Terminal), action: Action)
        ensures
            final(self)@ == old(self)@.insert(key, action),
    {
        proof {
            use_type_invariant(&*self);
        }
        let mut pos: usize = 0;
        while pos < self.cells.len() && action_key_less(&self.cells[pos].0, &key)
            invariant
                pos <= self.cells@.len(),
                forall|j: int| 0 <= j < pos ==> action_key_lt((#[trigger] self.cells@[j]).0, key),
            decreases self.cells@.len() - pos,
        {
            pos = pos + 1;
        }
        let mut cells: Vec<((usize, Terminal), Action)> = Vec::new();
        std::mem::swap(&mut cells, &mut self.cells);
        let ghost old_cells = cells@;
        assert(old_cells == old(self).cells@);
        let replace = pos < cells.len() && cells[pos].0.0 == key.0 && cells[pos].0.1 == key.1;
        if replace {
            cells.set(pos, (key, action));
        } else {
            cells.insert(pos, (key, action));
        }
        proof {
            let new_cells = cells@;
            assert(pos < old_cells.len() && !replace ==> action_key_lt(key, old_cells[pos as int].0)) by {
                if pos < old_cells.len() && !replace {
                    lemma_action_key_total(key, old_cells[pos as int].0);
                }
            }
            assert forall|i: int, j: int| 0 <= i < j < new_cells.len() implies action_key_lt(
                #[trigger] new_cells[i].0,
                #[trigger] new_cells[j].0,
            ) by {
                if replace {
                    if i == pos {
                        assert(action_key_lt(old_cells[pos as int].0, old_cells[j].0));
                    } else if j == pos {
                        assert(action_key_lt(old_cells[i].0, old_cells[pos as int].0));
                    }
                } else {
                    if i < pos && j == pos {
                    } else if i < pos && j > pos {
                        assert(new_cells[j] == old_cells[j - 1]);
                        if j - 1 > i {
                            assert(action_key_lt(old_cells[i].0, old_cells[j - 1].0));
                        }
                    } else if i == pos {
                        assert(new_cells[j] == old_cells[j - 1]);
                        if j - 1 > pos {
                            lemma_action_key_lt_trans(key, old_cells[pos as int].0, old_cells[j - 1].0);
                        }
                    } else if i > pos {
                        assert(new_cells[i] == old_cells[i - 1] && new_cells[j] == old_cells[j - 1]);
                    }
                }
            }
            let target = action_cells_map(old_cells).insert(key, action);
            assert forall|k: (usize, Terminal)| #[trigger] action_cells_map(new_cells).dom().contains(k) <==> target.dom().contains(k) by {
                if action_cells_map(new_cells).dom().contains(k) {
                    let i = choose|i: int| 0 <= i < new_cells.len() && #[trigger] new_cells[i].0 == k;
                    if k != key {
                        let i2 = if replace || i < pos { i } else { i - 1 };
                        assert(old_cells[i2].0 == k);
                    }
                }
                if target.dom().contains(k) {
                    if k == key {
                        assert(new_cells[pos as int].0 == key);
                    } else {
                        let i = choose|i: int| 0 <= i < old_cells.len() && #[trigger] old_cells[i].0 == k;
                        let i2 = if replace || i < pos { i } else { i + 1 };
                        assert(new_cells[i2].0 == k);
                    }
                }
            }
            assert forall|k: (usize, Terminal)| #[trigger] action_cells_map(new_cells).dom().contains(k) implies action_cells_map(
                new_cells,
            )[k] == target[k] by {
                let i = choose|i: int| 0 <= i < new_cells.len() && #[trigger] new_cells[i].0 == k;
                lemma_action_cell_at(new_cells, i);
                if k != key {
                    let i2 = if replace || i < pos { i } else { i - 1 };
                    assert(old_cells[i2] == new_cells[i]);
                    lemma_action_cell_at(old_cells, i2);
                }
            }
            assert(action_cells_map(new_cells) =~= target);
        }
        self.cells = cells;
    }

    /// The cells, in (state, terminal) order.
    pub fn entries(&self) -> (v: Vec<((usize, Terminal), Action)>)
        ensures
            lists_action_cells(v@, self@),
    {
        proof {
            use_type_invariant(self);
        }
        let mut v: Vec<((usize, Terminal), Action)> = Vec::new();
        let mut i: usize = 0;
        while i < self.cells.len()
            invariant
                i <= self.cells@.len(),
                v@ == self.cells@.take(i as int),
            decreases self.cells@.len() - i,
        {
            v.push(self.cells[i]);
            i = i + 1;
            assert(v@ =~= self.cells@.take(i as int));
        }
        assert(v@ =~= self.cells@);
        proof {
            assert forall|k: int| 0 <= k < v@.len() implies self@.dom().contains((#[trigger] v@[k]).0) && self@[v@[k].0] == v@[k].1 by {
                lemma_action_cell_at(self.cells@, k);
            }
        }
        v
    }

    /// Whether the table has no cell.
    pub fn is_empty(&self) -> (b: bool)
        ensures
            b == (self@.dom() == Set::<(usize, Terminal)>::empty()),
    {
        if self.cells.len() == 0 {
            assert(self@.dom() =~= Set::<(usize, Terminal)>::empty());
            true
        } else {
            assert(self@.dom().contains(self.cells@[0].0));
            false
        }
    }
}

/// `a` comes before `b` in (state, non-terminal) order.
pub open spec fn goto_key_lt(a: (usize, NonTerminal), b: (usize, NonTerminal)) -> bool {
    a.0 < b.0 || (a.0 == b.0 && a.1.spec_index() < b.1.spec_index())
}

/// The keys of the cells strictly increase.
pub open spec fn goto_cells_sorted(cells: Seq<((usize, NonTerminal), usize)>) -> bool {
    forall|i: int, j: int| 0 <= i < j < cells.len() ==> goto_key_lt(#[trigger] cells[i].0, #[trigger] cells[j].0)
}

/// The map that a list of cells describes.
pub open spec fn goto_cells_map(cells: Seq<((usize, NonTerminal), usize)>) -> Map<(usize, NonTerminal), usize> {
    Map::new(
        |k: (usize, NonTerminal)| exists|i: int| 0 <= i < cells.len() && #[trigger] cells[i].0 == k,
        |k: (usize, NonTerminal)| cells[choose|i: int| 0 <= i < cells.len() && #[trigger] cells[i].0 == k].1,
    )
}

proof fn lemma_goto_key_lt_ne(a: (usize, NonTerminal), b: (usize, NonTerminal))
    requires
        goto_key_lt(a, b),
    ensures
        a != b,
        !goto_key_lt(b, a),
{
}

proof fn lemma_goto_key_lt_trans(a: (usize, NonTerminal), b: (usize, NonTerminal), c: (usize, NonTerminal))
    requires
        goto_key_lt(a, b),
        goto_key_lt(b, c),
    ensures
        goto_key_lt(a, c),
{
}

proof fn lemma_goto_key_total(a: (usize, NonTerminal), b: (usize, NonTerminal))
    ensures
        a == b || goto_key_lt(a, b) || goto_key_lt(b, a),
{
    a.1.lemma_at_index();
    b.1.lemma_at_index();
}

/// In a sorted list each cell is found under its own key.
proof fn lemma_goto_cell_at(cells: Seq<((usize, NonTerminal), usize)>, i: int)
    requires
        goto_cells_sorted(cells),
        0 <= i < cells.len(),
    ensures
        goto_cells_map(cells).dom().contains(cells[i].0),
        goto_cells_map(cells)[cells[i].0] == cells[i].1,
{
    let k = cells[i].0;
    assert(goto_cells_map(cells).dom().contains(k));
    let j = choose|j: int| 0 <= j < cells.len() && #[trigger] cells[j].0 == k;
    if j < i {
        lemma_goto_key_lt_ne(cells[j].0, cells[i].0);
    } else if i < j {
        lemma_goto_key_lt_ne(cells[i].0, cells[j].0);
    }
}

fn goto_key_less(a: &(usize, NonTerminal), b: &(usize, NonTerminal)) -> (r: bool)
    ensures
        r == goto_key_lt(*a, *b),
{
    a.0 < b.0 || (a.0 == b.0 && a.1.index() < b.1.index())
}

/// The GOTO table: at most one target state per (state, non-terminal), kept
/// as a list of cells in (state, non-terminal) order.
#[derive(Debug)]
pub struct GotoTable {
    cells: Vec<((usize, NonTerminal), usize)>,
}

impl View for GotoTable {
    type V = Map<(usize, NonTerminal), usize>;

    closed spec fn view(&self) -> Map<(usize, NonTerminal), usize> {
        goto_cells_map(self.cells@)
    }
}

impl GotoTable {
    #[verifier::type_invariant]
    spec fn cells_in_order(self) -> bool {
        goto_cells_sorted(self.cells@)
    }

    pub fn new() -> (r: Self)
        ensures
            r@ == Map::<(usize, NonTerminal), usize>::empty(),
    {
        let r = GotoTable { cells: Vec::new() };
        assert(r@ =~= Map::<(usize, NonTerminal), usize>::empty());
        r
    }

    pub fn get(&self, key: &(usize, NonTerminal)) -> (r: Option<usize>)
        ensures
            r == (if self@.dom().contains(*key) { Some(self@[*key]) } else { None }),
    {
        proof {
            use_type_invariant(self);
        }
        let mut i: usize = 0;
        while i < self.cells.len()
            invariant
                goto_cells_sorted(self.cells@),
                i <= self.cells@.len(),
                forall|j: int| 0 <= j < i ==> (#[trigger] self.cells@[j]).0 != *key,
            decreases self.cells@.len() - i,
        {
            let cell = self.cells[i];
            if cell.0.0 == key.0 && cell.0.1 == key.1 {
                proof {
                    lemma_goto_cell_at(self.cells@, i as int);
                }
                return Some(cell.1);
            }
            i = i + 1;
        }
        None
    }

    pub fn contains_key(&self, key: &(usize, NonTerminal)) -> (b: bool)
        ensures
            b == self@.dom().contains(*key),
    {
        self.get(key).is_some()
    }

    /// Sets the target of a cell.
    pub fn insert(&mut self, key: (usize, NonTerminal), target: usize)
        ensures
            final(self)@ == old(self)@.insert(key, target),
    {
        proof {
            use_type_invariant(&*self);
        }
        let mut pos: usize = 0;
        while pos < self.cells.len() && goto_key_less(&self.cells[pos].0, &key)
            invariant
                pos <= self.cells@.len(),
                forall|j: int| 0 <= j < pos ==> goto_key_lt((#[trigger] self.cells@[j]).0, key),
            decreases self.cells@.len() - pos,
        {
            pos = pos + 1;
        }
        let mut cells: Vec<((usize, NonTerminal), usize)> = Vec::new();
        std::mem::swap(&mut cells, &mut self.cells);
        let ghost old_cells = cells@;
        assert(old_cells == old(self).cells@);
        let replace = pos < cells.len() && cells[pos].0.0 == key.0 && cells[pos].0.1 == key.1;
        if replace {
            cells.set(pos, (key, target));
        } else {
            cells.insert(pos, (key, target));
        }
        proof {
            let new_cells = cells@;
            assert(pos < old_cells.len() && !replace ==> goto_key_lt(key, old_cells[pos as int].0)) by {
                if pos < old_cells.len() && !replace {
                    lemma_goto_key_total(key, old_cells[pos as int].0);
                }
            }
            assert forall|i: int, j: int| 0 <= i < j < new_cells.len() implies goto_key_lt(
                #[trigger] new_cells[i].0,
                #[trigger] new_cells[j].0,
            ) by {
                if replace {
                    if i == pos {
                        assert(goto_key_lt(old_cells[pos as int].0, old_cells[j].0));
                    } else if j == pos {
                        assert(goto_key_lt(old_cells[i].0, old_cells[pos as int].0));
                    }
                } else {
                    if i < pos && j == pos {
                    } else if i < pos && j > pos {
                        assert(new_cells[j] == old_cells[j - 1]);
                        if j - 1 > i {
                            assert(goto_key_lt(old_cells[i].0, old_cells[j - 1].0));
                        }
                    } else if i == pos {
                        assert(new_cells[j] == old_cells[j - 1]);
                        if j - 1 > pos {
                            lemma_goto_key_lt_trans(key, old_cells[pos as int].0, old_cells[j - 1].0);
                        }
                    } else if i > pos {
                        assert(new_cells[i] == old_cells[i - 1] && new_cells[j] == old_cells[j - 1]);
                    }
                }
            }
            let target = goto_cells_map(old_cells).insert(key, target);
            assert forall|k: (usize, NonTerminal)| #[trigger] goto_cells_map(new_cells).dom().contains(k) <==> target.dom().contains(k) by {
                if goto_cells_map(new_cells).dom().contains(k) {
                    let i = choose|i: int| 0 <= i < new_cells.len() && #[trigger] new_cells[i].0 == k;
                    if k != key {
                        let i2 = if replace || i < pos { i } else { i - 1 };
                        assert(old_cells[i2].0 == k);
                    }
                }
                if target.dom().contains(k) {
                    if k == key {
                        assert(new_cells[pos as int].0 == key);
                    } else {
                        let i = choose|i: int| 0 <= i < old_cells.len() && #[trigger] old_cells[i].0 == k;
                        let i2 = if replace || i < pos { i } else { i + 1 };
                        assert(new_cells[i2].0 == k);
                    }
                }
            }
            assert forall|k: (usize, NonTerminal)| #[trigger] goto_cells_map(new_cells).dom().contains(k) implies goto_cells_map(
                new_cells,
            )[k] == target[k] by {
                let i = choose|i: int| 0 <= i < new_cells.len() && #[trigger] new_cells[i].0 == k;
                lemma_goto_cell_at(new_cells, i);
                if k != key {
                    let i2 = if replace || i < pos { i } else { i - 1 };
                    assert(old_cells[i2] == new_cells[i]);
                    lemma_goto_cell_at(old_cells, i2);
                }
            }
            assert(goto_cells_map(new_cells) =~= target);
        }
        self.cells = cells;
    }

    /// Empties a cell and returns what it held.
    pub fn remove(&mut self, key: &(usize, NonTerminal)) -> (r: Option<usize>)
        ensures
            final(self)@ == old(self)@.remove(*key),
            r == (if old(self)@.dom().contains(*key) { Some(old(self)@[*key]) } else { None }),
    {
        proof {
            use_type_invariant(&*self);
        }
        let mut i: usize = 0;
        while i < self.cells.len()
            invariant
                self.cells@ == old(self).cells@,
                goto_cells_sorted(self.cells@),
                i <= self.cells@.len(),
                forall|j: int| 0 <= j < i ==> (#[trigger] self.cells@[j]).0 != *key,
            decreases self.cells@.len() - i,
        {
            if self.cells[i].0.0 == key.0 && self.cells[i].0.1 == key.1 {
                let mut cells: Vec<((usize, NonTerminal), usize)> = Vec::new();
                std::mem::swap(&mut cells, &mut self.cells);
                let ghost old_cells = cells@;
                let removed = cells.remove(i);
                proof {
                    lemma_goto_cell_at(old_cells, i as int);
                    let new_cells = cells@;
                    assert forall|a: int, b: int| 0 <= a < b < new_cells.len() implies goto_key_lt(
                        #[trigger] new_cells[a].0,
                        #[trigger] new_cells[b].0,
                    ) by {
                        let a2 = if a < i { a } else { a + 1 };
                        let b2 = if b < i { b } else { b + 1 };
                        assert(new_cells[a] == old_cells[a2] && new_cells[b] == old_cells[b2]);
                    }
                    let target = goto_cells_map(old_cells).remove(*key);
                    assert forall|k: (usize, NonTerminal)| #[trigger] goto_cells_map(new_cells).dom().contains(k) <==> target.dom().contains(k) by {
                        if goto_cells_map(new_cells).dom().contains(k) {
                            let j = choose|j: int| 0 <= j < new_cells.len() && #[trigger] new_cells[j].0 == k;
                            let j2 = if j < i { j } else { j + 1 };
                            assert(old_cells[j2].0 == k);
                            if k == *key {
                                if j2 < i {
                                    lemma_goto_key_lt_ne(old_cells[j2].0, old_cells[i as int].0);
                                } else {
                                    lemma_goto_key_lt_ne(old_cells[i as int].0, old_cells[j2].0);
                                }
                            }
                        }
                        if target.dom().contains(k) {
                            let j = choose|j: int| 0 <= j < old_cells.len() && #[trigger] old_cells[j].0 == k;
                            assert(j != i);
                            let j2 = if j < i { j } else { j - 1 };
                            assert(new_cells[j2].0 == k);
                        }
                    }
                    assert forall|k: (usize, NonTerminal)| #[trigger] goto_cells_map(new_cells).dom().contains(k) implies goto_cells_map(
                        new_cells,
                    )[k] == target[k] by {
                        let j = choose|j: int| 0 <= j < new_cells.len() && #[trigger] new_cells[j].0 == k;
                        lemma_goto_cell_at(new_cells, j);
                        let j2 = if j < i { j } else { j + 1 };
                        assert(old_cells[j2] == new_cells[j]);
                        lemma_goto_cell_at(old_cells, j2);
                    }
                    assert(goto_cells_map(new_cells) =~= target);
                }
                self.cells = cells;
                return Some(removed.1);
            }
            i = i + 1;
        }
        proof {
            assert(!old(self)@.dom().contains(*key));
            assert(old(self)@ =~= old(self)@.remove(*key));
        }
        None
    }

    /// The cells, in (state, non-terminal) order.
    pub fn entries(&self) -> (v: Vec<((usize, NonTerminal), usize)>)
        ensures
            lists_goto_cells(v@, self@),
    {
        proof {
            use_type_invariant(self);
        }
        let mut v: Vec<((usize, NonTerminal), usize)> = Vec::new();
        let mut i: usize = 0;
        while i < self.cells.len()
            invariant
                i <= self.cells@.len(),
                v@ == self.cells@.take(i as int),
            decreases self.cells@.len() - i,
        {
            v.push(self.cells[i]);
            i = i + 1;
            assert(v@ =~= self.cells@.take(i as int));
        }
        assert(v@ =~= self.cells@);
        proof {
            assert forall|k: int| 0 <= k < v@.len() implies self@.dom().contains((#[trigger] v@[k]).0) && self@[v@[k].0] == v@[k].1 by {
                lemma_goto_cell_at(self.cells@, k);
            }
        }
        v
    }

    /// Whether the table has no cell.
    pub fn is_empty(&self) -> (b: bool)
        ensures
            b == (self@.dom() == Set::<(usize, NonTerminal)>::empty()),
    {
        if self.cells.len() == 0 {
            assert(self@.dom() =~= Set::<(usize, NonTerminal)>::empty());
            true
        } else {
            assert(self@.dom().contains(self.cells@[0].0));
            false
        }
    }
}

/// A request to put an action in an ACTION cell.
pub type Request = (usize, Terminal, Action);

/// The ACTION cells and the conflicts recorded so far.
pub type TableModel = (Map<(usize, Terminal), Action>, Seq<Conflict>);

/// One request: an empty cell takes the action; a cell that holds the same
/// action is left alone; a cell that holds another action keeps it and the
/// refused action is recorded as a conflict.
pub open spec fn apply_request(m: TableModel, r: Request) -> TableModel {
    let key = (r.0, r.1);
    if !m.0.dom().contains(key) {
        (m.0.insert(key, r.2), m.1)
    } else if m.0[key] == r.2 {
        m
    } else {
        (m.0, m.1.push(Conflict { state_id: r.0, terminal: r.1, existing: m.0[key], incoming: r.2 }))
    }
}

/// The requests applied one after the other.
pub open spec fn apply_requests(m: TableModel, reqs: Seq<Request>) -> TableModel
    decreases reqs.len(),
{
    if reqs.len() == 0 {
        m
    } else {
        apply_request(apply_requests(m, reqs.drop_last()), reqs.last())
    }
}

pub open spec fn empty_model() -> TableModel {
    (Map::empty(), Seq::empty())
}

/// A shift request for every transition on a terminal, in transition order.
pub open spec fn shift_requests(t: Seq<((usize, Symbol), usize)>) -> Seq<Request>
    decreases t.len(),
{
    if t.len() == 0 {
        Seq::empty()
    } else {
        let r = shift_requests(t.drop_last());
        match t.last().0.1 {
            Symbol::Terminal(term) => r.push((t.last().0.0, term, Action::Shift(t.last().1))),
            _ => r,
        }
    }
}

/// The GOTO cells given by the transitions on non-terminals (a later
/// transition with the same key wins).
pub open spec fn goto_entries(t: Seq<((usize, Symbol), usize)>) -> Map<(usize, NonTerminal), usize>
    decreases t.len(),
{
    if t.len() == 0 {
        Map::empty()
    } else {
        let m = goto_entries(t.drop_last());
        match t.last().0.1 {
            Symbol::NonTerminal(a) => m.insert((t.last().0.0, a), t.last().1),
            _ => m,
        }
    }
}

/// Some transition is on epsilon.
pub open spec fn has_epsilon_transition(t: Seq<((usize, Symbol), usize)>) -> bool {
    exists|k: int| 0 <= k < t.len() && (#[trigger] t[k]).0.1 == Symbol::Epsilon
}

/// The requests of the items of one state, in item order.
pub open spec fn state_requests<I>(f: spec_fn(usize, I) -> Seq<Request>, s: usize, items: Seq<I>) -> Seq<Request>
    decreases items.len(),
{
    if items.len() == 0 {
        Seq::empty()
    } else {
        state_requests(f, s, items.drop_last()) + f(s, items.last())
    }
}

/// The requests of every state, state by state.
pub open spec fn all_requests<I>(f: spec_fn(usize, I) -> Seq<Request>, states: Seq<Seq<I>>) -> Seq<Request>
    decreases states.len(),
{
    if states.len() == 0 {
        Seq::empty()
    } else {
        all_requests(f, states.drop_last()) + state_requests(f, (states.len() - 1) as usize, states.last())
    }
}

/// LR(0): a complete item of the augmented production accepts on `#`; any
/// other complete item reduces on every terminal.
pub open spec fn lr0_item_requests(g: &Grammar, s: usize, it: Item) -> Seq<Request> {
    if !it.spec_is_complete(g) {
        Seq::empty()
    } else if it.production_id == 0 {
        seq![(s, Terminal::End, Action::Accept)]
    } else {
        Seq::new(28, |i: int| (s, Terminal::at(i), Action::Reduce(it.production_id)))
    }
}

/// The terminals of `set` among the first `n` terminals, in terminal order.
pub open spec fn terminals_in(set: Set<Symbol>, n: int) -> Seq<Terminal>
    decreases n,
{
    if n <= 0 {
        Seq::empty()
    } else if set.contains(Symbol::Terminal(Terminal::at(n - 1))) {
        terminals_in(set, n - 1).push(Terminal::at(n - 1))
    } else {
        terminals_in(set, n - 1)
    }
}

/// SLR(1): like LR(0), but a complete item reduces only on the terminals of
/// FOLLOW of its left-hand side.
pub open spec fn slr_item_requests(g: &Grammar, follow: Map<NonTerminal, Set<Symbol>>, s: usize, it: Item) -> Seq<Request> {
    if !it.spec_is_complete(g) {
        Seq::empty()
    } else if it.production_id == 0 {
        seq![(s, Terminal::End, Action::Accept)]
    } else {
        let lhs = g.lhs_of(it.production_id as int);
        if follow.dom().contains(lhs) {
            terminals_in(follow[lhs], 28).map_values(|t: Terminal| (s, t, Action::Reduce(it.production_id)))
        } else {
            Seq::empty()
        }
    }
}

/// LR(1): a complete item of the augmented production accepts on `#`; any
/// other complete item reduces on its lookahead.
pub open spec fn lr1_item_requests(g: &Grammar, s: usize, it: ItemLR1) -> Seq<Request> {
    if !it.spec_is_complete(g) {
        Seq::empty()
    } else if it.production_id == 0 {
        seq![(s, Terminal::End, Action::Accept)]
    } else {
        seq![(s, it.lookahead, Action::Reduce(it.production_id))]
    }
}

pub open spec fn lr0_items(states: Seq<State>) -> Seq<Seq<Item>> {
    states.map_values(|st: State| st.elems())
}

pub open spec fn lr1_items(states: Seq<StateLR1>) -> Seq<Seq<ItemLR1>> {
    states.map_values(|st: StateLR1| st.elems())
}

/// The message of a table built from an automaton with an epsilon transition.
pub open spec fn epsilon_transition_message() -> Seq<char> {
    "internal lr table error: epsilon transition should not appear in DFA"@
}

/// An LR analysis table: ACTION, GOTO, and the conflicts met while filling ACTION.
pub struct LRTable {
    pub action: ActionTable,
    pub goto: GotoTable,
    pub conflicts: Vec<Conflict>,
}

impl LRTable {
    pub open spec fn model(&self) -> TableModel {
        (self.action@, self.conflicts@)
    }

    pub fn new() -> (t: Self)
        ensures
            t.model() == empty_model(),
            t.goto@ == Map::<(usize, NonTerminal), usize>::empty(),
    {
        LRTable { action: ActionTable::new(), goto: GotoTable::new(), conflicts: Vec::new() }
    }

    /// Writes an ACTION cell: an empty cell takes the action; the same action
    /// again is accepted; a different action is refused and recorded as a
    /// conflict. Returns whether the cell now holds `action`.
    pub fn insert_action(&mut self, old_state: usize, term: Terminal, action: Action) -> (b: bool)
        ensures
            final(self).model() == apply_request(old(self).model(), (old_state, term, action)),
            final(self).goto@ == old(self).goto@,
            b == (!old(self).action@.dom().contains((old_state, term)) || old(self).action@[(old_state, term)] == action),
    {
        match self.action.get(&(old_state, term)) {
            None => {
                self.action.insert((old_state, term), action);
                true
            },
            Some(existing) => {
                if existing == action {
                    true
                } else {
                    self.conflicts.push(Conflict { state_id: old_state, terminal: term, existing, incoming: action });
                    false
                }
            },
        }
    }

    fn insert_accept(&mut self, state_id: usize)
        ensures
            final(self).model() == apply_request(old(self).model(), (state_id, Terminal::End, Action::Accept)),
            final(self).goto@ == old(self).goto@,
    {
        self.insert_action(state_id, Terminal::End, Action::Accept);
    }

    /// Fills the shift entries and GOTO from the transitions, in transition order.
    fn fill_shift_and_goto(&mut self, transitions: &Vec<((usize, Symbol), usize)>) -> (r: Result<(), String>)
        ensures
            r is Ok <==> !has_epsilon_transition(transitions@),
            r is Ok ==> final(self).model() == apply_requests(old(self).model(), shift_requests(transitions@)),
            r is Ok ==> final(self).goto@ == old(self).goto@.union_prefer_right(goto_entries(transitions@)),
            r matches Err(e) ==> e@ == epsilon_transition_message(),
    {
        let ghost t = transitions@;
        let mut k: usize = 0;
        while k < transitions.len()
            invariant
                t == transitions@,
                k <= t.len(),
                !has_epsilon_transition(t.take(k as int)),
                self.model() == apply_requests(old(self).model(), shift_requests(t.take(k as int))),
                self.goto@ == old(self).goto@.union_prefer_right(goto_entries(t.take(k as int))),
            decreases t.len() - k,
        {
            let ((old_state, symbol), new_state) = transitions[k];
            assert(t.take(k + 1).drop_last() =~= t.take(k as int));
            assert(t.take(k + 1).last() == t[k as int]);
            match symbol {
                Symbol::NonTerminal(nt) => {
                    self.goto.insert((old_state, nt), new_state);
                    assert(self.goto@ =~= old(self).goto@.union_prefer_right(goto_entries(t.take(k + 1))));
                },
                Symbol::Terminal(term) => {
                    self.insert_action(old_state, term, Action::Shift(new_state));
                    assert(shift_requests(t.take(k + 1)).drop_last() =~= shift_requests(t.take(k as int)));
                },
                Symbol::Epsilon => {
                    assert(has_epsilon_transition(t));
                    return Err(String::from_str("internal lr table error: epsilon transition should not appear in DFA"));
                },
            }
            assert(!has_epsilon_transition(t.take(k + 1))) by {
                if has_epsilon_transition(t.take(k + 1)) {
                    let j = choose|j: int| 0 <= j < k + 1 && (#[trigger] t.take(k + 1)[j]).0.1 == Symbol::Epsilon;
                    if j < k {
                        assert(t.take(k as int)[j] == t.take(k + 1)[j]);
                    }
                }
            }
            k = k + 1;
        }
        assert(t.take(t.len() as int) =~= t);
        Ok(())
    }
}


pub proof fn lemma_apply_push(m: TableModel, a: Seq<Request>, r: Request)
    ensures
        apply_requests(m, a.push(r)) == apply_request(apply_requests(m, a), r),
{
    assert(a.push(r).drop_last() =~= a);
}

pub proof fn lemma_state_requests_step<I>(f: spec_fn(usize, I) -> Seq<Request>, s: usize, items: Seq<I>, i: int)
    requires
        0 <= i < items.len(),
    ensures
        state_requests(f, s, items.take(i + 1)) == state_requests(f, s, items.take(i)) + f(s, items[i]),
{
    assert(items.take(i + 1).drop_last() =~= items.take(i));
}

pub proof fn lemma_all_requests_step<I>(f: spec_fn(usize, I) -> Seq<Request>, states: Seq<Seq<I>>, s: int)
    requires
        0 <= s < states.len(),
    ensures
        all_requests(f, states.take(s + 1)) == all_requests(f, states.take(s)) + state_requests(f, s as usize, states[s]),
{
    assert(states.take(s + 1).drop_last() =~= states.take(s));
}

pub open spec fn lr0_requests_fn(g: &Grammar) -> spec_fn(usize, Item) -> Seq<Request> {
    |s: usize, it: Item| lr0_item_requests(g, s, it)
}

pub open spec fn slr_requests_fn(g: &Grammar, follow: Map<NonTerminal, Set<Symbol>>) -> spec_fn(usize, Item) -> Seq<Request> {
    |s: usize, it: Item| slr_item_requests(g, follow, s, it)
}

pub open spec fn lr1_requests_fn(g: &Grammar) -> spec_fn(usize, ItemLR1) -> Seq<Request> {
    |s: usize, it: ItemLR1| lr1_item_requests(g, s, it)
}

impl LRTable {
    /// The LR(0) table: shifts and GOTO from the transitions, then, state by
    /// state and item by item, accept for the complete augmented item and a
    /// reduce on every terminal for every other complete item. Fails when the
    /// automaton has a transition on epsilon.
    pub fn build_lr0(grammar: &Grammar, dfa: &Dfa<State>) -> (r: Result<Self, String>)
        ensures
            r is Err <==> has_epsilon_transition(dfa.transitions@),
            r matches Err(e) ==> e@ == epsilon_transition_message(),
            r matches Ok(t) ==> t.model() == apply_requests(
                apply_requests(empty_model(), shift_requests(dfa.transitions@)),
                all_requests(lr0_requests_fn(grammar), lr0_items(dfa.states@)),
            ),
            r matches Ok(t) ==> t.goto@ == goto_entries(dfa.transitions@),
            r matches Ok(t) ==> (t.conflicts@.len() == 0 ==> shifts_follow_transitions(t.action@, dfa.transitions@)
                && lr0_cells_follow_items(grammar, dfa.states@, t.action@)),
            r matches Ok(t) ==> (transitions_sorted(dfa.transitions@) ==> gotos_follow_transitions(t.goto@, dfa.transitions@)),
    {
        let mut table = Self::new();
        match table.fill_shift_and_goto(&dfa.transitions) {
            Ok(()) => {},
            Err(e) => {
                return Err(e);
            },
        }
        assert(table.goto@ =~= goto_entries(dfa.transitions@));
        let ghost f = lr0_requests_fn(grammar);
        let ghost base = table.model();
        let ghost items = lr0_items(dfa.states@);
        let ghost mut done: Seq<Request> = Seq::empty();
        let mut s: usize = 0;
        while s < dfa.states.len()
            invariant
                s <= dfa.states@.len(),
                f == lr0_requests_fn(grammar),
                items == lr0_items(dfa.states@),
                table.goto@ == goto_entries(dfa.transitions@),
                table.model() == apply_requests(base, done),
                done == all_requests(f, items.take(s as int)),
            decreases dfa.states@.len() - s,
        {
            let state = &dfa.states[s];
            let ghost elems = state.elems();
            assert(items[s as int] == elems);
            let mut i: usize = 0;
            while i < state.len()
                invariant
                    s < dfa.states@.len(),
                    state == &dfa.states@[s as int],
                    elems == state.elems(),
                    i <= elems.len(),
                    f == lr0_requests_fn(grammar),
                    items == lr0_items(dfa.states@),
                    table.goto@ == goto_entries(dfa.transitions@),
                    table.model() == apply_requests(base, done),
                    done == all_requests(f, items.take(s as int)) + state_requests(f, s, elems.take(i as int)),
                decreases elems.len() - i,
            {
                let item = state.get(i);
                let ghost before = done;
                proof {
                    lemma_state_requests_step(f, s, elems, i as int);
                }
                if item.is_complete(grammar) {
                    if item.production_id == 0 {
                        table.insert_accept(s);
                        proof {
                            lemma_apply_push(base, done, (s, Terminal::End, Action::Accept));
                            done = done.push((s, Terminal::End, Action::Accept));
                            assert(done =~= all_requests(f, items.take(s as int)) + state_requests(f, s, elems.take(i + 1)));
                        }
                    } else {
                        let mut j: usize = 0;
                        while j < NUM_TERMINALS
                            invariant
                                j <= NUM_TERMINALS,
                                item.spec_is_complete(grammar),
                                item.production_id != 0,
                                table.goto@ == goto_entries(dfa.transitions@),
                                table.model() == apply_requests(base, done),
                                done == before + Seq::new(j as nat, |k: int| (s, Terminal::at(k), Action::Reduce(item.production_id))),
                            decreases NUM_TERMINALS - j,
                        {
                            let term = Terminal::from_index(j);
                            table.insert_action(s, term, Action::Reduce(item.production_id));
                            proof {
                                lemma_apply_push(base, done, (s, term, Action::Reduce(item.production_id)));
                                done = done.push((s, term, Action::Reduce(item.production_id)));
                                assert(done =~= before + Seq::new((j + 1) as nat, |k: int| (s, Terminal::at(k), Action::Reduce(item.production_id))));
                            }
                            j = j + 1;
                        }
                        assert(done =~= all_requests(f, items.take(s as int)) + state_requests(f, s, elems.take(i + 1)));
                    }
                } else {
                    assert(done =~= all_requests(f, items.take(s as int)) + state_requests(f, s, elems.take(i + 1)));
                }
                i = i + 1;
            }
            proof {
                assert(elems.take(elems.len() as int) =~= elems);
                lemma_all_requests_step(f, items, s as int);
            }
            s = s + 1;
        }
        assert(items.take(items.len() as int) =~= items);
        proof {
            if table.conflicts@.len() == 0 {
                lemma_lr0_cells(grammar, dfa.states@, dfa.transitions@);
            }
            if transitions_sorted(dfa.transitions@) {
                lemma_sorted_keys_distinct(dfa.transitions@);
                lemma_goto_entries(dfa.transitions@);
            }
        }
        Ok(table)
    }

    /// The SLR(1) table: like the LR(0) table, but a complete item reduces only
    /// on the terminals of FOLLOW of its left-hand side. FIRST and FOLLOW are
    /// computed from the grammar. Fails when the automaton has a transition on
    /// epsilon.
    pub fn build_slr1(grammar: &Grammar, dfa: &Dfa<State>) -> (r: Result<Self, String>)
        requires
            crate::first_follow::first_lookups_defined(grammar),
            crate::first_follow::follow_lookups_defined(grammar),
            grammar.occurs(grammar.start),
        ensures
            r is Err <==> has_epsilon_transition(dfa.transitions@),
            r matches Err(e) ==> e@ == epsilon_transition_message(),
            r matches Ok(t) ==> exists|first: Map<NonTerminal, Set<Symbol>>, follow: Map<NonTerminal, Set<Symbol>>| {
                &&& is_first_sets(grammar, first)
                &&& is_follow_sets(grammar, first, follow)
                &&& t.model() == apply_requests(
                    apply_requests(empty_model(), shift_requests(dfa.transitions@)),
                    all_requests(slr_requests_fn(grammar, follow), lr0_items(dfa.states@)),
                )
            },
            r matches Ok(t) ==> t.goto@ == goto_entries(dfa.transitions@),
            r matches Ok(t) ==> (t.conflicts@.len() == 0 ==> shifts_follow_transitions(t.action@, dfa.transitions@)
                && exists|first: Map<NonTerminal, Set<Symbol>>, follow: Map<NonTerminal, Set<Symbol>>| {
                &&& is_first_sets(grammar, first)
                &&& is_follow_sets(grammar, first, follow)
                &&& slr_cells_follow_items(grammar, follow, dfa.states@, t.action@)
            }),
            r matches Ok(t) ==> (transitions_sorted(dfa.transitions@) ==> gotos_follow_transitions(t.goto@, dfa.transitions@)),
    {
        let first_set = get_first_set(grammar);
        proof {
            assert forall|p: int, k: int|
                0 <= p < grammar.num_prods() && 0 <= k < grammar.rhs_of(p).len() && (#[trigger] grammar.rhs_of(p)[k]) is NonTerminal
                    implies first_seq_defined(first_set.view(), grammar.rhs_of(p).subrange(k + 1, grammar.rhs_of(p).len() as int)) by {
                crate::first_follow::lemma_lookups_defined(grammar, first_set.view(), grammar.rhs_of(p).subrange(k + 1, grammar.rhs_of(p).len() as int));
            }
        }
        let follow_set = get_follow_set(grammar, &first_set);
        let ghost follow = follow_set.view();
        let mut table = Self::new();
        match table.fill_shift_and_goto(&dfa.transitions) {
            Ok(()) => {},
            Err(e) => {
                return Err(e);
            },
        }
        assert(table.goto@ =~= goto_entries(dfa.transitions@));
        let ghost f = slr_requests_fn(grammar, follow);
        let ghost base = table.model();
        let ghost items = lr0_items(dfa.states@);
        let ghost mut done: Seq<Request> = Seq::empty();
        let mut s: usize = 0;
        while s < dfa.states.len()
            invariant
                s <= dfa.states@.len(),
                f == slr_requests_fn(grammar, follow),
                follow == follow_set.view(),
                items == lr0_items(dfa.states@),
                table.goto@ == goto_entries(dfa.transitions@),
                table.model() == apply_requests(base, done),
                done == all_requests(f, items.take(s as int)),
            decreases dfa.states@.len() - s,
        {
            let state = &dfa.states[s];
            let ghost elems = state.elems();
            assert(items[s as int] == elems);
            let mut i: usize = 0;
            while i < state.len()
                invariant
                    s < dfa.states@.len(),
                    state == &dfa.states@[s as int],
                    elems == state.elems(),
                    i <= elems.len(),
                    f == slr_requests_fn(grammar, follow),
                    follow == follow_set.view(),
                follow == follow_set.view(),
                    items == lr0_items(dfa.states@),
                    table.goto@ == goto_entries(dfa.transitions@),
                    table.model() == apply_requests(base, done),
                    done == all_requests(f, items.take(s as int)) + state_requests(f, s, elems.take(i as int)),
                decreases elems.len() - i,
            {
                let item = state.get(i);
                let ghost before = done;
                proof {
                    lemma_state_requests_step(f, s, elems, i as int);
                }
                if item.is_complete(grammar) {
                    if item.production_id == 0 {
                        table.insert_accept(s);
                        proof {
                            lemma_apply_push(base, done, (s, Terminal::End, Action::Accept));
                            done = done.push((s, Terminal::End, Action::Accept));
                            assert(done =~= all_requests(f, items.take(s as int)) + state_requests(f, s, elems.take(i + 1)));
                        }
                    } else {
                        let lhs = grammar.production(item.production_id).unwrap().lhs;
                        match follow_set.get(&lhs) {
                            Some(set) => {
                                let mut j: usize = 0;
                                while j < NUM_TERMINALS
                                    invariant
                                        j <= NUM_TERMINALS,
                                        item.spec_is_complete(grammar),
                                        item.production_id != 0,
                                        set.contents() == follow[lhs],
                                        table.goto@ == goto_entries(dfa.transitions@),
                                        table.model() == apply_requests(base, done),
                                        done == before + terminals_in(set.contents(), j as int).map_values(|t: Terminal| (s, t, Action::Reduce(item.production_id))),
                                    decreases NUM_TERMINALS - j,
                                {
                                    let term = Terminal::from_index(j);
                                    if set.contains(&Symbol::Terminal(term)) {
                                        table.insert_action(s, term, Action::Reduce(item.production_id));
                                        proof {
                                            lemma_apply_push(base, done, (s, term, Action::Reduce(item.production_id)));
                                            done = done.push((s, term, Action::Reduce(item.production_id)));
                                        }
                                    }
                                    assert(done =~= before + terminals_in(set.contents(), j + 1).map_values(|t: Terminal| (s, t, Action::Reduce(item.production_id))));
                                    j = j + 1;
                                }
                                assert(done =~= all_requests(f, items.take(s as int)) + state_requests(f, s, elems.take(i + 1)));
                            },
                            None => {
                                assert(done =~= all_requests(f, items.take(s as int)) + state_requests(f, s, elems.take(i + 1)));
                            },
                        }
                    }
                } else {
                    assert(done =~= all_requests(f, items.take(s as int)) + state_requests(f, s, elems.take(i + 1)));
                }
                i = i + 1;
            }
            proof {
                assert(elems.take(elems.len() as int) =~= elems);
                lemma_all_requests_step(f, items, s as int);
            }
            s = s + 1;
        }
        assert(items.take(items.len() as int) =~= items);
        assert(is_first_sets(grammar, first_set.view()));
        assert(is_follow_sets(grammar, first_set.view(), follow));
        proof {
            if table.conflicts@.len() == 0 {
                lemma_slr_cells(grammar, follow, dfa.states@, dfa.transitions@);
            }
            if transitions_sorted(dfa.transitions@) {
                lemma_sorted_keys_distinct(dfa.transitions@);
                lemma_goto_entries(dfa.transitions@);
            }
        }
        Ok(table)
    }

    /// The LR(1) table: shifts and GOTO from the transitions, then accept for
    /// the complete augmented items and a reduce on its lookahead for every other
    /// complete item. Fails when the automaton has a transition on epsilon.
    pub fn build_lr1(grammar: &Grammar, dfa: &Dfa<StateLR1>) -> (r: Result<Self, String>)
        ensures
            r is Err <==> has_epsilon_transition(dfa.transitions@),
            r matches Err(e) ==> e@ == epsilon_transition_message(),
            r matches Ok(t) ==> t.model() == apply_requests(
                apply_requests(empty_model(), shift_requests(dfa.transitions@)),
                all_requests(lr1_requests_fn(grammar), lr1_items(dfa.states@)),
            ),
            r matches Ok(t) ==> t.goto@ == goto_entries(dfa.transitions@),
            r matches Ok(t) ==> (t.conflicts@.len() == 0 ==> shifts_follow_transitions(t.action@, dfa.transitions@)
                && lr1_cells_follow_items(grammar, dfa.states@, t.action@)),
            r matches Ok(t) ==> (transitions_sorted(dfa.transitions@) ==> gotos_follow_transitions(t.goto@, dfa.transitions@)),
    {
        let mut table = Self::new();
        match table.fill_shift_and_goto(&dfa.transitions) {
            Ok(()) => {},
            Err(e) => {
                return Err(e);
            },
        }
        assert(table.goto@ =~= goto_entries(dfa.transitions@));
        let ghost f = lr1_requests_fn(grammar);
        let ghost base = table.model();
        let ghost items = lr1_items(dfa.states@);
        let ghost mut done: Seq<Request> = Seq::empty();
        let mut s: usize = 0;
        while s < dfa.states.len()
            invariant
                s <= dfa.states@.len(),
                f == lr1_requests_fn(grammar),
                items == lr1_items(dfa.states@),
                table.goto@ == goto_entries(dfa.transitions@),
                table.model() == apply_requests(base, done),
                done == all_requests(f, items.take(s as int)),
            decreases dfa.states@.len() - s,
        {
            let state = &dfa.states[s];
            let ghost elems = state.elems();
            assert(items[s as int] == elems);
            let mut i: usize = 0;
            while i < state.len()
                invariant
                    s < dfa.states@.len(),
                    state == &dfa.states@[s as int],
                    elems == state.elems(),
                    i <= elems.len(),
                    f == lr1_requests_fn(grammar),
                    items == lr1_items(dfa.states@),
                    table.goto@ == goto_entries(dfa.transitions@),
                    table.model() == apply_requests(base, done),
                    done == all_requests(f, items.take(s as int)) + state_requests(f, s, elems.take(i as int)),
                decreases elems.len() - i,
            {
                let item = state.get(i);
                let ghost before = done;
                proof {
                    lemma_state_requests_step(f, s, elems, i as int);
                }
                if item.is_complete(grammar) {
                    if item.production_id == 0 {
                        table.insert_accept(s);
                        proof {
                            lemma_apply_push(base, done, (s, Terminal::End, Action::Accept));
                            done = done.push((s, Terminal::End, Action::Accept));
                            assert(done =~= all_requests(f, items.take(s as int)) + state_requests(f, s, elems.take(i + 1)));
                        }
                    } else {
                        table.insert_action(s, item.lookahead, Action::Reduce(item.production_id));
                        proof {
                            lemma_apply_push(base, done, (s, item.lookahead, Action::Reduce(item.production_id)));
                            done = done.push((s, item.lookahead, Action::Reduce(item.production_id)));
                            assert(done =~= all_requests(f, items.take(s as int)) + state_requests(f, s, elems.take(i + 1)));
                        }
                    }
                } else {
                    assert(done =~= all_requests(f, items.take(s as int)) + state_requests(f, s, elems.take(i + 1)));
                }
                i = i + 1;
            }
            proof {
                assert(elems.take(elems.len() as int) =~= elems);
                lemma_all_requests_step(f, items, s as int);
            }
            s = s + 1;
        }
        assert(items.take(items.len() as int) =~= items);
        proof {
            if table.conflicts@.len() == 0 {
                lemma_lr1_cells(grammar, dfa.states@, dfa.transitions@);
            }
            if transitions_sorted(dfa.transitions@) {
                lemma_sorted_keys_distinct(dfa.transitions@);
                lemma_goto_entries(dfa.transitions@);
            }
        }
        Ok(table)
    }
}

/// The text of an ACTION cell: a reduction shows its production.
pub open spec fn cell_text(g: &Grammar, a: Action) -> Seq<char> {
    match a {
        Action::Reduce(p) => if p < g.num_prods() {
            "reduce "@ + production_text(g.lhs_of(p as int), g.rhs_of(p as int))
        } else {
            action_text(a)
        },
        _ => action_text(a),
    }
}

pub open spec fn action_line(g: &Grammar, e: ((usize, Terminal), Action)) -> Seq<char> {
    "  ACTION["@ + decimal(e.0.0 as nat) + ", "@ + e.0.1.spec_name() + "] = "@ + cell_text(g, e.1)
}

pub open spec fn goto_line(e: ((usize, NonTerminal), usize)) -> Seq<char> {
    "  GOTO["@ + decimal(e.0.0 as nat) + ", "@ + e.0.1.spec_name() + "] = "@ + decimal(e.1 as nat)
}

/// The text of a conflict: `state 3 / id: s4 vs r2`.
pub open spec fn conflict_text(c: Conflict) -> Seq<char> {
    "state "@ + decimal(c.state_id as nat) + " / "@ + c.terminal.spec_name() + ": "@ + action_text(c.existing) + " vs "@
        + action_text(c.incoming)
}

/// The lines of a table listing: the ACTION cells, the GOTO cells, and the
/// conflicts with their count.
pub open spec fn table_lines(
    g: &Grammar,
    actions: Seq<((usize, Terminal), Action)>,
    gotos: Seq<((usize, NonTerminal), usize)>,
    conflicts: Seq<Conflict>,
) -> Seq<Seq<char>> {
    seq!["ACTION:"@] + actions.map_values(|e: ((usize, Terminal), Action)| action_line(g, e)) + seq![Seq::<char>::empty(), "GOTO:"@]
        + gotos.map_values(|e: ((usize, NonTerminal), usize)| goto_line(e)) + seq![
        Seq::<char>::empty(),
        "conflicts: "@ + decimal(conflicts.len()),
    ] + conflicts.map_values(|c: Conflict| "  "@ + conflict_text(c))
}

/// Every GOTO cell is printed with its target: for each cell `(i, A)` of the
/// map, the listing has the line `  GOTO[i, A] = j` where `j` is the state the
/// cell holds; and the GOTO lines come in key order, one per listed cell.
pub open spec fn goto_lines_show_cells(lines: Seq<Seq<char>>, first: int, gotos: Seq<((usize, NonTerminal), usize)>, m: Map<(usize, NonTerminal), usize>) -> bool {
    &&& 0 <= first && first + gotos.len() <= lines.len()
    &&& forall|k: int| 0 <= k < gotos.len() ==> #[trigger] lines[first + k]
        == "  GOTO["@ + decimal(gotos[k].0.0 as nat) + ", "@ + gotos[k].0.1.spec_name() + "] = "@ + decimal(m[gotos[k].0] as nat)
    &&& forall|i: usize, a: NonTerminal| #[trigger] m.dom().contains((i, a)) ==> lines.contains(
        "  GOTO["@ + decimal(i as nat) + ", "@ + a.spec_name() + "] = "@ + decimal(m[(i, a)] as nat),
    )
}

/// The GOTO part of a table listing reads the cells of the GOTO map.
pub proof fn lemma_goto_lines_show_cells(
    lines: Seq<Seq<char>>,
    first: int,
    gotos: Seq<((usize, NonTerminal), usize)>,
    m: Map<(usize, NonTerminal), usize>,
)
    requires
        lists_goto_cells(gotos, m),
        0 <= first && first + gotos.len() <= lines.len(),
        forall|k: int| 0 <= k < gotos.len() ==> #[trigger] lines[first + k] == goto_line(gotos[k]),
    ensures
        goto_lines_show_cells(lines, first, gotos, m),
{
    assert forall|k: int| 0 <= k < gotos.len() implies #[trigger] lines[first + k]
        == "  GOTO["@ + decimal(gotos[k].0.0 as nat) + ", "@ + gotos[k].0.1.spec_name() + "] = "@ + decimal(m[gotos[k].0] as nat) by {
        assert(m[gotos[k].0] == gotos[k].1);
    }
    assert forall|i: usize, a: NonTerminal| #[trigger] m.dom().contains((i, a)) implies lines.contains(
        "  GOTO["@ + decimal(i as nat) + ", "@ + a.spec_name() + "] = "@ + decimal(m[(i, a)] as nat),
    ) by {
        let k = choose|k: int| 0 <= k < gotos.len() && gotos[k].0 == (i, a);
        assert(lines[first + k] == goto_line(gotos[k]));
        assert(m[gotos[k].0] == gotos[k].1);
    }
}

fn action_line_string(g: &Grammar, e: ((usize, Terminal), Action)) -> (s: String)
    ensures
        s@ == action_line(g, e),
{
    let ((state_id, terminal), action) = e;
    let mut s = String::from_str("  ACTION[");
    push_decimal(&mut s, state_id);
    s.append(", ");
    s.append(terminal.name());
    s.append("] = ");
    match action {
        Action::Reduce(p) => match g.production(p) {
            Some(prod) => {
                s.append("reduce ");
                let t = prod.text();
                s.append(t.as_str());
            },
            None => {
                let t = action.text();
                s.append(t.as_str());
            },
        },
        _ => {
            let t = action.text();
            s.append(t.as_str());
        },
    }
    s
}

fn goto_line_string(e: ((usize, NonTerminal), usize)) -> (s: String)
    ensures
        s@ == goto_line(e),
{
    let ((state_id, a), target) = e;
    let mut s = String::from_str("  GOTO[");
    push_decimal(&mut s, state_id);
    s.append(", ");
    s.append(a.name());
    s.append("] = ");
    push_decimal(&mut s, target);
    s
}

impl Conflict {
    /// The conflict as text: `state 3 / id: s4 vs r2`.
    pub fn text(&self) -> (s: String)
        ensures
            s@ == conflict_text(*self),
    {
        let mut s = String::from_str("state ");
        push_decimal(&mut s, self.state_id);
        s.append(" / ");
        s.append(self.terminal.name());
        s.append(": ");
        let e = self.existing.text();
        s.append(e.as_str());
        s.append(" vs ");
        let i = self.incoming.text();
        s.append(i.as_str());
        s
    }
}

/// The table as text: ACTION cells in (state, terminal) order with
/// reductions spelled out, GOTO cells in (state, non-terminal) order, and the
/// conflicts.
pub fn format_lr0_table(table: &LRTable, grammar: &Grammar) -> (s: String)
    ensures
        exists|actions: Seq<((usize, Terminal), Action)>, gotos: Seq<((usize, NonTerminal), usize)>|
            lists_action_cells(actions, table.action@) && lists_goto_cells(gotos, table.goto@) && s@ == join(
                table_lines(grammar, actions, gotos, table.conflicts@),
                "\n"@,
            ),
        exists|lines: Seq<Seq<char>>, first: int, gotos: Seq<((usize, NonTerminal), usize)>|
            s@ == join(lines, "\n"@) && lists_goto_cells(gotos, table.goto@) && goto_lines_show_cells(lines, first, gotos, table.goto@),
{
    let actions = table.action.entries();
    let gotos = table.goto.entries();
    let ghost a_lines = actions@.map_values(|e: ((usize, Terminal), Action)| action_line(grammar, e));
    let ghost g_lines = gotos@.map_values(|e: ((usize, NonTerminal), usize)| goto_line(e));
    let ghost c_lines = table.conflicts@.map_values(|c: Conflict| "  "@ + conflict_text(c));
    let mut lines: Vec<String> = Vec::new();
    lines.push(String::from_str("ACTION:"));
    let ghost head = string_views(lines@);
    assert(head =~= seq!["ACTION:"@]);
    let mut i: usize = 0;
    while i < actions.len()
        invariant
            a_lines == actions@.map_values(|e: ((usize, Terminal), Action)| action_line(grammar, e)),
            i <= actions@.len(),
            string_views(lines@) == head + a_lines.take(i as int),
        decreases actions@.len() - i,
    {
        let line = action_line_string(grammar, actions[i]);
        let ghost before = string_views(lines@);
        lines.push(line);
        assert(string_views(lines@) =~= before.push(a_lines[i as int]));
        assert(a_lines.take(i + 1) =~= a_lines.take(i as int).push(a_lines[i as int]));
        i = i + 1;
    }
    assert(a_lines.take(actions@.len() as int) =~= a_lines);
    let ghost mid = string_views(lines@);
    lines.push(String::new());
    lines.push(String::from_str("GOTO:"));
    let ghost head2 = string_views(lines@);
    assert(head2 =~= mid + seq![Seq::<char>::empty(), "GOTO:"@]);
    let mut j: usize = 0;
    while j < gotos.len()
        invariant
            g_lines == gotos@.map_values(|e: ((usize, NonTerminal), usize)| goto_line(e)),
            j <= gotos@.len(),
            string_views(lines@) == head2 + g_lines.take(j as int),
        decreases gotos@.len() - j,
    {
        let line = goto_line_string(gotos[j]);
        let ghost before = string_views(lines@);
        lines.push(line);
        assert(string_views(lines@) =~= before.push(g_lines[j as int]));
        assert(g_lines.take(j + 1) =~= g_lines.take(j as int).push(g_lines[j as int]));
        j = j + 1;
    }
    assert(g_lines.take(gotos@.len() as int) =~= g_lines);
    let ghost mid2 = string_views(lines@);
    lines.push(String::new());
    let mut count = String::from_str("conflicts: ");
    push_decimal(&mut count, table.conflicts.len());
    let ghost count_view = count@;
    lines.push(count);
    let ghost head3 = string_views(lines@);
    assert(head3 =~= mid2 + seq![Seq::<char>::empty(), count_view]);
    let mut k: usize = 0;
    while k < table.conflicts.len()
        invariant
            c_lines == table.conflicts@.map_values(|c: Conflict| "  "@ + conflict_text(c)),
            k <= table.conflicts@.len(),
            string_views(lines@) == head3 + c_lines.take(k as int),
        decreases table.conflicts@.len() - k,
    {
        let mut line = String::from_str("  ");
        let t = table.conflicts[k].text();
        line.append(t.as_str());
        let ghost before = string_views(lines@);
        lines.push(line);
        assert(string_views(lines@) =~= before.push(c_lines[k as int]));
        assert(c_lines.take(k + 1) =~= c_lines.take(k as int).push(c_lines[k as int]));
        k = k + 1;
    }
    assert(c_lines.take(table.conflicts@.len() as int) =~= c_lines);
    assert(string_views(lines@) =~= table_lines(grammar, actions@, gotos@, table.conflicts@));
    proof {
        let tl = table_lines(grammar, actions@, gotos@, table.conflicts@);
        let first: int = actions@.len() as int + 3;
        assert forall|k: int| 0 <= k < gotos@.len() implies #[trigger] tl[first + k] == goto_line(gotos@[k]) by {}
        lemma_goto_lines_show_cells(tl, first, gotos@, table.goto@);
    }
    join_strings(&lines, "\n")
}

/// The cell of request `r` holds the action it asks for.
pub open spec fn request_met(cells: Map<(usize, Terminal), Action>, r: Request) -> bool {
    cells.dom().contains((r.0, r.1)) && cells[(r.0, r.1)] == r.2
}

/// Filling ACTION cells by requests: conflicts are only ever added; a filled
/// cell keeps its action; a cell filled by the requests holds the action of
/// one of them; and when no new conflict is recorded, every request is met.
pub proof fn lemma_requests_fill_cells(m: TableModel, reqs: Seq<Request>)
    ensures
        apply_requests(m, reqs).1.len() >= m.1.len(),
        apply_requests(m, reqs).1.subrange(0, m.1.len() as int) == m.1,
        forall|key: (usize, Terminal)| #[trigger] m.0.dom().contains(key) ==> apply_requests(m, reqs).0.dom().contains(key)
            && apply_requests(m, reqs).0[key] == m.0[key],
        forall|key: (usize, Terminal)| #[trigger] apply_requests(m, reqs).0.dom().contains(key) && !m.0.dom().contains(key)
            ==> exists|k: int| 0 <= k < reqs.len() && (reqs[k].0, reqs[k].1) == key && #[trigger] reqs[k].2 == apply_requests(m, reqs).0[key],
        apply_requests(m, reqs).1.len() == m.1.len() ==> forall|k: int| 0 <= k < reqs.len() ==> request_met(apply_requests(m, reqs).0, #[trigger] reqs[k]),
    decreases reqs.len(),
{
    if reqs.len() == 0 {
        assert(m.1.subrange(0, m.1.len() as int) =~= m.1);
    } else {
        let pre = reqs.drop_last();
        lemma_requests_fill_cells(m, pre);
        let mid = apply_requests(m, pre);
        let fin = apply_requests(m, reqs);
        let r = reqs.last();
        assert(fin == apply_request(mid, r));
        assert(fin.1.subrange(0, m.1.len() as int) =~= m.1) by {
            assert(mid.1.subrange(0, m.1.len() as int) =~= m.1);
        }
        assert forall|key: (usize, Terminal)| #[trigger] fin.0.dom().contains(key) && !m.0.dom().contains(key) implies exists|k: int|
            0 <= k < reqs.len() && (reqs[k].0, reqs[k].1) == key && #[trigger] reqs[k].2 == fin.0[key] by {
            if mid.0.dom().contains(key) {
                let k = choose|k: int| 0 <= k < pre.len() && (pre[k].0, pre[k].1) == key && #[trigger] pre[k].2 == mid.0[key];
                assert(reqs[k] == pre[k]);
            } else {
                assert(reqs[reqs.len() - 1] == r);
            }
        }
        if fin.1.len() == m.1.len() {
            assert(mid.1.len() == m.1.len());
            assert forall|k: int| 0 <= k < reqs.len() implies request_met(fin.0, #[trigger] reqs[k]) by {
                if k < pre.len() {
                    assert(reqs[k] == pre[k]);
                    assert(request_met(mid.0, pre[k]));
                }
            }
        }
    }
}

pub open spec fn action_short_line(e: ((usize, Terminal), Action)) -> Seq<char> {
    "  ACTION["@ + decimal(e.0.0 as nat) + ", "@ + e.0.1.spec_name() + "] = "@ + action_text(e.1)
}

/// Every ACTION cell is printed with its action: for each cell `(i, a)` of
/// the map, the plain listing has the line `  ACTION[i, a] = x`, where `x` is
/// `s` and the target state for a shift, `r` and the production for a reduce,
/// and `acc` for accept; the ACTION lines come in key order, one per cell.
pub open spec fn action_lines_show_cells(lines: Seq<Seq<char>>, first: int, actions: Seq<((usize, Terminal), Action)>, m: Map<(usize, Terminal), Action>) -> bool {
    &&& 0 <= first && first + actions.len() <= lines.len()
    &&& forall|k: int| 0 <= k < actions.len() ==> #[trigger] lines[first + k]
        == "  ACTION["@ + decimal(actions[k].0.0 as nat) + ", "@ + actions[k].0.1.spec_name() + "] = "@ + match m[actions[k].0] {
            Action::Shift(j) => "s"@ + decimal(j as nat),
            Action::Reduce(p) => "r"@ + decimal(p as nat),
            Action::Accept => "acc"@,
        }
    &&& forall|key: (usize, Terminal)| #[trigger] m.dom().contains(key) ==> exists|k: int| 0 <= k < actions.len() && actions[k].0 == key
}

/// The ACTION part of the plain listing reads the cells of the ACTION map.
pub proof fn lemma_action_lines_show_cells(
    lines: Seq<Seq<char>>,
    first: int,
    actions: Seq<((usize, Terminal), Action)>,
    m: Map<(usize, Terminal), Action>,
)
    requires
        lists_action_cells(actions, m),
        0 <= first && first + actions.len() <= lines.len(),
        forall|k: int| 0 <= k < actions.len() ==> #[trigger] lines[first + k] == action_short_line(actions[k]),
    ensures
        action_lines_show_cells(lines, first, actions, m),
{
    assert forall|k: int| 0 <= k < actions.len() implies #[trigger] lines[first + k]
        == "  ACTION["@ + decimal(actions[k].0.0 as nat) + ", "@ + actions[k].0.1.spec_name() + "] = "@ + match m[actions[k].0] {
            Action::Shift(j) => "s"@ + decimal(j as nat),
            Action::Reduce(p) => "r"@ + decimal(p as nat),
            Action::Accept => "acc"@,
        } by {
        assert(m[actions[k].0] == actions[k].1);
    }
}

/// The lines of the plain table listing: ACTION cells with their actions as
/// `s3`/`r4`/`acc`, GOTO cells, and the conflicts with their count.
pub open spec fn table_short_lines(
    actions: Seq<((usize, Terminal), Action)>,
    gotos: Seq<((usize, NonTerminal), usize)>,
    conflicts: Seq<Conflict>,
) -> Seq<Seq<char>> {
    seq!["ACTION:"@] + actions.map_values(|e: ((usize, Terminal), Action)| action_short_line(e)) + seq![Seq::<char>::empty(), "GOTO:"@]
        + gotos.map_values(|e: ((usize, NonTerminal), usize)| goto_line(e)) + seq![
        Seq::<char>::empty(),
        "conflicts: "@ + decimal(conflicts.len()),
    ] + conflicts.map_values(|c: Conflict| "  "@ + conflict_text(c))
}

impl LRTable {
    /// The table as text: ACTION and GOTO cells in key order and the
    /// conflicts, every line ended by a break.
    pub fn text(&self) -> (s: String)
        ensures
            exists|actions: Seq<((usize, Terminal), Action)>, gotos: Seq<((usize, NonTerminal), usize)>|
                lists_action_cells(actions, self.action@) && lists_goto_cells(gotos, self.goto@) && s@ == lines_text(
                    table_short_lines(actions, gotos, self.conflicts@),
                ),
            exists|lines: Seq<Seq<char>>, first: int, gotos: Seq<((usize, NonTerminal), usize)>|
                s@ == lines_text(lines) && lists_goto_cells(gotos, self.goto@) && goto_lines_show_cells(lines, first, gotos, self.goto@),
            exists|lines: Seq<Seq<char>>, actions: Seq<((usize, Terminal), Action)>|
                s@ == lines_text(lines) && lists_action_cells(actions, self.action@) && action_lines_show_cells(lines, 1, actions, self.action@),
    {
        let actions = self.action.entries();
        let gotos = self.goto.entries();
        let ghost a_lines = actions@.map_values(|e: ((usize, Terminal), Action)| action_short_line(e));
        let ghost g_lines = gotos@.map_values(|e: ((usize, NonTerminal), usize)| goto_line(e));
        let ghost c_lines = self.conflicts@.map_values(|c: Conflict| "  "@ + conflict_text(c));
        let mut lines: Vec<String> = Vec::new();
        lines.push(String::from_str("ACTION:"));
        let ghost head = string_views(lines@);
        assert(head =~= seq!["ACTION:"@]);
        let mut i: usize = 0;
        while i < actions.len()
            invariant
                a_lines == actions@.map_values(|e: ((usize, Terminal), Action)| action_short_line(e)),
                i <= actions@.len(),
                string_views(lines@) == head + a_lines.take(i as int),
            decreases actions@.len() - i,
        {
            let ((state_id, terminal), action) = actions[i];
            let mut line = String::from_str("  ACTION[");
            push_decimal(&mut line, state_id);
            line.append(", ");
            line.append(terminal.name());
            line.append("] = ");
            let t = action.text();
            line.append(t.as_str());
            let ghost before = string_views(lines@);
            lines.push(line);
            assert(string_views(lines@) =~= before.push(a_lines[i as int]));
            assert(a_lines.take(i + 1) =~= a_lines.take(i as int).push(a_lines[i as int]));
            i = i + 1;
        }
        assert(a_lines.take(actions@.len() as int) =~= a_lines);
        let ghost mid = string_views(lines@);
        lines.push(String::new());
        lines.push(String::from_str("GOTO:"));
        let ghost head2 = string_views(lines@);
        assert(head2 =~= mid + seq![Seq::<char>::empty(), "GOTO:"@]);
        let mut j: usize = 0;
        while j < gotos.len()
            invariant
                g_lines == gotos@.map_values(|e: ((usize, NonTerminal), usize)| goto_line(e)),
                j <= gotos@.len(),
                string_views(lines@) == head2 + g_lines.take(j as int),
            decreases gotos@.len() - j,
        {
            let line = goto_line_string(gotos[j]);
            let ghost before = string_views(lines@);
            lines.push(line);
            assert(string_views(lines@) =~= before.push(g_lines[j as int]));
            assert(g_lines.take(j + 1) =~= g_lines.take(j as int).push(g_lines[j as int]));
            j = j + 1;
        }
        assert(g_lines.take(gotos@.len() as int) =~= g_lines);
        let ghost mid2 = string_views(lines@);
        lines.push(String::new());
        let mut count = String::from_str("conflicts: ");
        push_decimal(&mut count, self.conflicts.len());
        let ghost count_view = count@;
        lines.push(count);
        let ghost head3 = string_views(lines@);
        assert(head3 =~= mid2 + seq![Seq::<char>::empty(), count_view]);
        let mut k: usize = 0;
        while k < self.conflicts.len()
            invariant
                c_lines == self.conflicts@.map_values(|c: Conflict| "  "@ + conflict_text(c)),
                k <= self.conflicts@.len(),
                string_views(lines@) == head3 + c_lines.take(k as int),
            decreases self.conflicts@.len() - k,
        {
            let mut line = String::from_str("  ");
            let t = self.conflicts[k].text();
            line.append(t.as_str());
            let ghost before = string_views(lines@);
            lines.push(line);
            assert(string_views(lines@) =~= before.push(c_lines[k as int]));
            assert(c_lines.take(k + 1) =~= c_lines.take(k as int).push(c_lines[k as int]));
            k = k + 1;
        }
        assert(c_lines.take(self.conflicts@.len() as int) =~= c_lines);
        assert(string_views(lines@) =~= table_short_lines(actions@, gotos@, self.conflicts@));
        proof {
            let tl = table_short_lines(actions@, gotos@, self.conflicts@);
            let first: int = actions@.len() as int + 3;
            assert forall|k: int| 0 <= k < gotos@.len() implies #[trigger] tl[first + k] == goto_line(gotos@[k]) by {}
            lemma_goto_lines_show_cells(tl, first, gotos@, self.goto@);
            assert forall|k: int| 0 <= k < actions@.len() implies #[trigger] tl[1 + k] == action_short_line(actions@[k]) by {}
            lemma_action_lines_show_cells(tl, 1, actions@, self.action@);
        }
        concat_lines(&lines)
    }
}

} // verus!
