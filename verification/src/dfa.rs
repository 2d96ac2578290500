use vstd::prelude::*;
use vstd::string::StringExecFns;
use crate::symbol::Symbol;
use crate::text::{decimal, join, push_decimal, string_views};

verus! {

/// An automaton over item sets: its states, and its transitions listed in
/// increasing order of (source state, symbol).
pub struct Dfa<S> {
    pub states: Vec<S>,
    pub transitions: Vec<((usize, Symbol), usize)>,
}

/// The transition keys are strictly increasing in (source, symbol slot) order,
/// so no key occurs twice.
pub open spec fn transitions_sorted(t: Seq<((usize, Symbol), usize)>) -> bool {
    forall|a: int, b: int|
        0 <= a < b < t.len() ==> {
            let ka = (#[trigger] t[a]).0;
            let kb = (#[trigger] t[b]).0;
            ka.0 < kb.0 || (ka.0 == kb.0 && ka.1.spec_slot() < kb.1.spec_slot())
        }
}

/// Some transition goes from `i` on `x`.
pub open spec fn has_transition_from(t: Seq<((usize, Symbol), usize)>, i: int, x: Symbol) -> bool {
    exists|k: int| 0 <= k < t.len() && (#[trigger] t[k]).0 == (i as usize, x)
}

/// Transition `k` leads to state `j` from an earlier state, and every
/// transition before it leads to a state numbered below `j`.
pub open spec fn first_reaches(t: Seq<((usize, Symbol), usize)>, j: int, k: int) -> bool {
    &&& 0 <= k < t.len()
    &&& t[k].1 == j
    &&& (t[k].0).0 < j
    &&& forall|m: int| 0 <= m < k ==> (#[trigger] t[m]).1 < j
}

/// State `j` is first reached by some transition.
pub open spec fn discovered(t: Seq<((usize, Symbol), usize)>, j: int) -> bool {
    exists|k: int| #[trigger] first_reaches(t, j, k)
}

/// Each state after the first is discovered by a transition, and states are
/// numbered in the order in which the transitions discover them.
pub open spec fn numbered_in_discovery_order(t: Seq<((usize, Symbol), usize)>, n: int) -> bool {
    forall|j: int| 1 <= j < n ==> #[trigger] discovered(t, j)
}

/// A transition as text: `  I0 -- id --> I5`.
pub open spec fn transition_line(t: ((usize, Symbol), usize)) -> Seq<char> {
    "  I"@ + decimal(t.0.0 as nat) + " -- "@ + t.0.1.spec_name() + " --> I"@ + decimal(t.1 as nat)
}

/// The lines for the first `k` states: a heading `I<n>:`, the state's text,
/// and a blank line each.
pub open spec fn state_blocks(texts: Seq<Seq<char>>, k: int) -> Seq<Seq<char>>
    decreases k,
{
    if k <= 0 {
        Seq::empty()
    } else {
        state_blocks(texts, k - 1) + seq!["I"@ + decimal((k - 1) as nat) + ":"@, texts[k - 1], Seq::<char>::empty()]
    }
}

/// An automaton as text, given the text of each state: the number of states,
/// each state under its heading, then the transitions in order.
pub open spec fn dfa_text(texts: Seq<Seq<char>>, transitions: Seq<((usize, Symbol), usize)>) -> Seq<char> {
    join(
        seq!["states: "@ + decimal(texts.len()), Seq::<char>::empty()] + state_blocks(texts, texts.len() as int) + seq!["transitions:"@]
            + transitions.map_values(|t: ((usize, Symbol), usize)| transition_line(t)),
        "\n"@,
    )
}

/// The listing ends with one line per transition, in order: the line of
/// transition `((i, X), j)` reads `  Ii -- X --> Ij`, naming its source, its
/// symbol and its target.
pub open spec fn transition_lines_show(lines: Seq<Seq<char>>, transitions: Seq<((usize, Symbol), usize)>) -> bool {
    &&& transitions.len() <= lines.len()
    &&& forall|k: int| 0 <= k < transitions.len() ==> #[trigger] lines[lines.len() - transitions.len() + k]
        == "  I"@ + decimal(transitions[k].0.0 as nat) + " -- "@ + transitions[k].0.1.spec_name() + " --> I"@ + decimal(transitions[k].1 as nat)
}

/// The automaton listing prints every transition with its target.
pub proof fn lemma_dfa_text_shows_transitions(texts: Seq<Seq<char>>, transitions: Seq<((usize, Symbol), usize)>)
    ensures
        exists|lines: Seq<Seq<char>>| dfa_text(texts, transitions) == join(lines, "\n"@) && transition_lines_show(lines, transitions),
{
    let prefix = seq!["states: "@ + decimal(texts.len()), Seq::<char>::empty()] + state_blocks(texts, texts.len() as int) + seq!["transitions:"@];
    let lines = prefix + transitions.map_values(|t: ((usize, Symbol), usize)| transition_line(t));
    assert forall|k: int| 0 <= k < transitions.len() implies #[trigger] lines[lines.len() - transitions.len() + k]
        == "  I"@ + decimal(transitions[k].0.0 as nat) + " -- "@ + transitions[k].0.1.spec_name() + " --> I"@ + decimal(transitions[k].1 as nat) by {
        assert(lines[lines.len() - transitions.len() + k] == lines[prefix.len() + k]);
    }
    assert(transition_lines_show(lines, transitions));
}

/// Appends the lines of state `i`, whose text is `text`.
pub(crate) fn push_state_block(lines: &mut Vec<String>, i: usize, text: String)
    ensures
        string_views(final(lines)@) == string_views(old(lines)@) + seq!["I"@ + decimal(i as nat) + ":"@, text@, Seq::<char>::empty()],
{
    let mut head = String::from_str("I");
    push_decimal(&mut head, i);
    head.append(":");
    lines.push(head);
    lines.push(text);
    lines.push(String::new());
    assert(string_views(lines@) =~= string_views(old(lines)@) + seq!["I"@ + decimal(i as nat) + ":"@, text@, Seq::<char>::empty()]);
}

/// Appends the heading `transitions:` and one line per transition.
pub(crate) fn push_transitions(lines: &mut Vec<String>, transitions: &Vec<((usize, Symbol), usize)>)
    ensures
        string_views(final(lines)@) == string_views(old(lines)@) + seq!["transitions:"@] + transitions@.map_values(
            |t: ((usize, Symbol), usize)| transition_line(t),
        ),
{
    lines.push(String::from_str("transitions:"));
    let ghost head = string_views(lines@);
    assert(head =~= string_views(old(lines)@) + seq!["transitions:"@]);
    let ghost texts = transitions@.map_values(|t: ((usize, Symbol), usize)| transition_line(t));
    let mut i: usize = 0;
    while i < transitions.len()
        invariant
            texts == transitions@.map_values(|t: ((usize, Symbol), usize)| transition_line(t)),
            i <= transitions@.len(),
            string_views(lines@) == head + texts.take(i as int),
        decreases transitions@.len() - i,
    {
        let ((source, symbol), target) = transitions[i];
        let mut line = String::from_str("  I");
        push_decimal(&mut line, source);
        line.append(" -- ");
        line.append(symbol.name());
        line.append(" --> I");
        push_decimal(&mut line, target);
        let ghost before = string_views(lines@);
        lines.push(line);
        assert(string_views(lines@) =~= before.push(texts[i as int]));
        assert(texts.take(i + 1) =~= texts.take(i as int).push(texts[i as int]));
        i = i + 1;
    }
    assert(texts.take(transitions@.len() as int) =~= texts);
}

/// Starts a listing of `n` states: `states: n` and a blank line.
pub(crate) fn dfa_header(n: usize) -> (lines: Vec<String>)
    ensures
        string_views(lines@) == seq!["states: "@ + decimal(n as nat), Seq::<char>::empty()],
{
    let mut lines: Vec<String> = Vec::new();
    let mut head = String::from_str("states: ");
    push_decimal(&mut head, n);
    lines.push(head);
    lines.push(String::new());
    assert(string_views(lines@) =~= seq!["states: "@ + decimal(n as nat), Seq::<char>::empty()]);
    lines
}

} // verus!
