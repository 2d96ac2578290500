pub mod symbol;
pub mod item_set;
pub mod grammar;
pub mod grammar_laws;
pub mod item_lr0;
pub mod item_lr1;
pub mod util;
pub mod dfa;
pub mod dfa_lr0;
pub mod first_follow;
pub mod dfa_lr1;
pub mod lr_table;
pub mod table_contents;
pub mod text;
pub mod syntax_tree;
pub mod lexer;
pub mod lexer_laws;
pub mod lr_parser;
pub mod lr1_cores;
pub mod parse_simulation;
pub mod parser_agreement;
pub mod parser_safety;
pub mod tree_laws;
