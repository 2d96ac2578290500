# simple_lr

An LR parser generator and table-driven parser for the `Simple` language, a
small left-recursive grammar of declarations, assignments, `if`/`else`,
`while` and blocks. The library is written in Verus and every function in
`src/` is verified against its contract.

- `symbol`, `grammar`: terminals, non-terminals and the fixed grammar.
- `lexer`: splits source text into tokens ending with the end marker `#`.
- `first_follow`: FIRST and FOLLOW sets as least fixpoints.
- `item_set`, `item_lr0`, `item_lr1`, `dfa`, `dfa_lr0`, `dfa_lr1`: item sets,
  closures, `goto`, and the LR(0) and canonical LR(1) automata.
- `lr_table`: LR(0), SLR(1) and LR(1) ACTION/GOTO tables with conflict records;
  `table_contents` proves what a conflict-free table holds, read off the automaton.
- `lr_parser`: the LR machine, its steps and the syntax tree it builds.
- `lr1_cores`: LR(1) closures, `goto` and automata, with lookaheads dropped, are
  their LR(0) counterparts.
- `parse_simulation`, `parser_agreement`: a table that simulates another accepts
  what it accepts; the SLR(1) table simulates the LR(1) table.
- `syntax_tree`, `text`: the node-pool tree and text helpers.

`app/main.rs` is the command-line front end (`grammar`, `first-follow`,
`lr0-dfa`, `lr1-dfa`, `lr0-table`, `slr-table`, `lr1-table`, `tokens`,
`parse-slr`, `parse-lr1`, and a full demonstration by default).
