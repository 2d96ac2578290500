use vstd::prelude::*;
use crate::symbol::Terminal;
use crate::lexer::{TokenView, prepend, token_at, word_kind, is_ident_start, is_space, lex_from, ident_end, digits_end, line_end, block_comment_end, operator_at, lemma_ident_end, lemma_digits_end,
    lemma_line_end, lemma_block_comment_end, is_ident_char, is_digit};

verus! {

/// The source with every tab and carriage return replaced by a space.
pub open spec fn tabs_as_spaces(cs: Seq<char>) -> Seq<char> {
    cs.map_values(|c: char| if c == '\t' || c == '\r' { ' ' } else { c })
}

proof fn lemma_ident_end_same(cs: Seq<char>, pos: int)
    ensures
        ident_end(tabs_as_spaces(cs), pos) == ident_end(cs, pos),
        forall|i: int| pos <= i < ident_end(cs, pos) ==> 0 <= i < cs.len() && #[trigger] is_ident_char(cs[i]),
    decreases cs.len() - pos,
{
    let t = tabs_as_spaces(cs);
    if 0 <= pos < cs.len() {
        assert(t[pos] == (if cs[pos] == '\t' || cs[pos] == '\r' { ' ' } else { cs[pos] }));
        if is_ident_char(cs[pos]) {
            lemma_ident_end_same(cs, pos + 1);
            lemma_ident_end(cs, pos + 1);
            assert forall|i: int| pos <= i < ident_end(cs, pos) implies 0 <= i < cs.len() && #[trigger] is_ident_char(cs[i]) by {
                if i > pos {
                    assert(is_ident_char(cs[i]));
                }
            }
        }
    }
}

proof fn lemma_digits_end_same(cs: Seq<char>, pos: int)
    ensures
        digits_end(tabs_as_spaces(cs), pos) == digits_end(cs, pos),
        forall|i: int| pos <= i < digits_end(cs, pos) ==> 0 <= i < cs.len() && #[trigger] is_digit(cs[i]),
    decreases cs.len() - pos,
{
    let t = tabs_as_spaces(cs);
    if 0 <= pos < cs.len() {
        assert(t[pos] == (if cs[pos] == '\t' || cs[pos] == '\r' { ' ' } else { cs[pos] }));
        if is_digit(cs[pos]) {
            lemma_digits_end_same(cs, pos + 1);
            lemma_digits_end(cs, pos + 1);
            assert forall|i: int| pos <= i < digits_end(cs, pos) implies 0 <= i < cs.len() && #[trigger] is_digit(cs[i]) by {
                if i > pos {
                    assert(is_digit(cs[i]));
                }
            }
        }
    }
}

proof fn lemma_line_end_same(cs: Seq<char>, pos: int)
    ensures
        line_end(tabs_as_spaces(cs), pos) == line_end(cs, pos),
    decreases cs.len() - pos,
{
    let t = tabs_as_spaces(cs);
    if 0 <= pos < cs.len() {
        assert(t[pos] == (if cs[pos] == '\t' || cs[pos] == '\r' { ' ' } else { cs[pos] }));
        if cs[pos] != '\n' {
            lemma_line_end_same(cs, pos + 1);
        }
    }
}

proof fn lemma_block_comment_end_same(cs: Seq<char>, pos: int)
    ensures
        block_comment_end(tabs_as_spaces(cs), pos) == block_comment_end(cs, pos),
    decreases cs.len() - pos,
{
    let t = tabs_as_spaces(cs);
    if !(pos < 0 || pos + 1 >= cs.len()) {
        assert(t[pos] == (if cs[pos] == '\t' || cs[pos] == '\r' { ' ' } else { cs[pos] }));
        assert(t[pos + 1] == (if cs[pos + 1] == '\t' || cs[pos + 1] == '\r' { ' ' } else { cs[pos + 1] }));
        lemma_block_comment_end_same(cs, pos + 1);
    }
}

/// Tabs and carriage returns are blanks, like spaces: replacing each of them
/// by a space changes nothing in the tokens (kinds, lexemes and offsets) or
/// in the error message of any source, from any position.
pub proof fn lemma_tabs_lex_as_spaces(cs: Seq<char>, pos: int)
    ensures
        lex_from(tabs_as_spaces(cs), pos) == lex_from(cs, pos),
    decreases cs.len() - pos,
{
    let t = tabs_as_spaces(cs);
    assert(t.len() == cs.len());
    if 0 <= pos < cs.len() {
        let c = cs[pos];
        assert(t[pos] == (if c == '\t' || c == '\r' { ' ' } else { c }));
        if pos + 1 < cs.len() {
            assert(t[pos + 1] == (if cs[pos + 1] == '\t' || cs[pos + 1] == '\r' { ' ' } else { cs[pos + 1] }));
        }
        let next = if pos + 1 < cs.len() { cs[pos + 1] } else { ' ' };
        if c == ' ' || c == '\t' || c == '\n' || c == '\r' {
            lemma_tabs_lex_as_spaces(cs, pos + 1);
        } else if c == '/' && next == '/' {
            lemma_line_end(cs, pos + 2);
            lemma_line_end_same(cs, pos + 2);
            lemma_tabs_lex_as_spaces(cs, line_end(cs, pos + 2));
        } else if c == '/' && next == '*' {
            lemma_block_comment_end(cs, pos + 2);
            lemma_block_comment_end_same(cs, pos + 2);
            if let Some(e) = block_comment_end(cs, pos + 2) {
                lemma_tabs_lex_as_spaces(cs, e);
            }
        } else if crate::lexer::is_ident_start(c) {
            lemma_ident_end(cs, pos + 1);
            lemma_ident_end_same(cs, pos + 1);
            let e = ident_end(cs, pos + 1);
            assert(t.subrange(pos, e) =~= cs.subrange(pos, e)) by {
                assert forall|i: int| 0 <= i < e - pos implies t.subrange(pos, e)[i] == cs.subrange(pos, e)[i] by {
                    if i > 0 {
                        assert(is_ident_char(cs[pos + i]));
                    }
                    assert(t[pos + i] == (if cs[pos + i] == '\t' || cs[pos + i] == '\r' { ' ' } else { cs[pos + i] }));
                }
            }
            lemma_tabs_lex_as_spaces(cs, e);
        } else if is_digit(c) {
            lemma_digits_end(cs, pos + 1);
            lemma_digits_end_same(cs, pos + 1);
            let e = digits_end(cs, pos + 1);
            assert(t.subrange(pos, e) =~= cs.subrange(pos, e)) by {
                assert forall|i: int| 0 <= i < e - pos implies t.subrange(pos, e)[i] == cs.subrange(pos, e)[i] by {
                    if i > 0 {
                        assert(is_digit(cs[pos + i]));
                    }
                    assert(t[pos + i] == (if cs[pos + i] == '\t' || cs[pos + i] == '\r' { ' ' } else { cs[pos + i] }));
                }
            }
            lemma_tabs_lex_as_spaces(cs, e);
        } else {
            assert(operator_at(t, pos) == operator_at(cs, pos));
            if let Some((kind, n)) = operator_at(cs, pos) {
                assert(t.subrange(pos, pos + n) =~= cs.subrange(pos, pos + n));
                lemma_tabs_lex_as_spaces(cs, pos + n);
            }
        }
    }
}

/// `w` is the name of a keyword.
pub open spec fn is_keyword_name(w: Seq<char>) -> bool {
    w == Terminal::Let.spec_name() || w == Terminal::If.spec_name() || w == Terminal::Else.spec_name() || w == Terminal::While.spec_name() || w == Terminal::True.spec_name() || w == Terminal::False.spec_name() || w == Terminal::And.spec_name() || w == Terminal::Or.spec_name() || w == Terminal::Not.spec_name()
}

/// A token's text spells its kind: an identifier is a non-empty word that is
/// no keyword, a number is a non-empty run of decimal digits, and any other
/// token (keyword, operator, delimiter, end marker) is exactly the name of
/// its terminal.
pub open spec fn spelled(t: TokenView) -> bool {
    match t.kind {
        Terminal::Id => t.lexeme.len() > 0 && !is_keyword_name(t.lexeme),
        Terminal::Num => t.lexeme.len() > 0 && forall|i: int| 0 <= i < t.lexeme.len() ==> '0' <= #[trigger] t.lexeme[i] <= '9',
        _ => t.lexeme == t.kind.spec_name(),
    }
}

proof fn lemma_prepend_spelled(t: TokenView, r: Result<Seq<TokenView>, Seq<char>>)
    requires
        spelled(t),
        r matches Ok(ts) ==> forall|k: int| 0 <= k < ts.len() ==> spelled(#[trigger] ts[k]),
    ensures
        prepend(seq![t], r) matches Ok(ts) ==> forall|k: int| 0 <= k < ts.len() ==> spelled(#[trigger] ts[k]),
{
    if let Ok(rest) = r {
        let ts = seq![t] + rest;
        assert forall|k: int| 0 <= k < ts.len() implies spelled(#[trigger] ts[k]) by {
            if k > 0 {
                assert(ts[k] == rest[k - 1]);
            }
        }
    }
}

/// Every token the lexer returns spells its kind: keywords, operators and
/// delimiters are read as the terminal whose name they are, identifiers are
/// never keywords, and numbers are digits.
pub proof fn lemma_tokens_spell_their_kind(cs: Seq<char>, pos: int)
    ensures
        lex_from(cs, pos) matches Ok(ts) ==> forall|k: int| 0 <= k < ts.len() ==> spelled(#[trigger] ts[k]),
    decreases cs.len() - pos,
{
    reveal_strlit("let");
    reveal_strlit("if");
    reveal_strlit("else");
    reveal_strlit("while");
    reveal_strlit("true");
    reveal_strlit("false");
    reveal_strlit("and");
    reveal_strlit("or");
    reveal_strlit("not");
    reveal_strlit("+");
    reveal_strlit("-");
    reveal_strlit("*");
    reveal_strlit("/");
    reveal_strlit("=");
    reveal_strlit("==");
    reveal_strlit("!=");
    reveal_strlit("<");
    reveal_strlit("<=");
    reveal_strlit(">");
    reveal_strlit(">=");
    reveal_strlit("(");
    reveal_strlit(")");
    reveal_strlit("{");
    reveal_strlit("}");
    reveal_strlit(";");
    reveal_strlit("#");
    if pos < 0 || pos >= cs.len() {
        let ts = seq![TokenView { kind: Terminal::End, lexeme: "#"@, offset: cs.len() as usize }];
        assert(spelled(ts[0]));
        return;
    }
    let c = cs[pos];
    let next = if pos + 1 < cs.len() { cs[pos + 1] } else { ' ' };
    if is_space(c) {
        lemma_tokens_spell_their_kind(cs, pos + 1);
    } else if c == '/' && next == '/' {
        lemma_line_end(cs, pos + 2);
        lemma_tokens_spell_their_kind(cs, line_end(cs, pos + 2));
    } else if c == '/' && next == '*' {
        lemma_block_comment_end(cs, pos + 2);
        if let Some(e) = block_comment_end(cs, pos + 2) {
            lemma_tokens_spell_their_kind(cs, e);
        }
    } else if is_ident_start(c) {
        lemma_ident_end(cs, pos + 1);
        let e = ident_end(cs, pos + 1);
        let w = cs.subrange(pos, e);
        lemma_tokens_spell_their_kind(cs, e);
        let tok = token_at(cs, word_kind(w), pos, e);
        assert(w.len() > 0);
        assert(seq!['l', 'e', 't'] =~= "let"@);
        assert(seq!['i', 'f'] =~= "if"@);
        assert(seq!['e', 'l', 's', 'e'] =~= "else"@);
        assert(seq!['w', 'h', 'i', 'l', 'e'] =~= "while"@);
        assert(seq!['t', 'r', 'u', 'e'] =~= "true"@);
        assert(seq!['f', 'a', 'l', 's', 'e'] =~= "false"@);
        assert(seq!['a', 'n', 'd'] =~= "and"@);
        assert(seq!['o', 'r'] =~= "or"@);
        assert(seq!['n', 'o', 't'] =~= "not"@);
        assert(spelled(tok));
        lemma_prepend_spelled(tok, lex_from(cs, e));
    } else if is_digit(c) {
        lemma_digits_end(cs, pos + 1);
        let e = digits_end(cs, pos + 1);
        lemma_tokens_spell_their_kind(cs, e);
        lemma_digit_run(cs, pos + 1);
        let tok = token_at(cs, Terminal::Num, pos, e);
        assert forall|i: int| 0 <= i < tok.lexeme.len() implies '0' <= #[trigger] tok.lexeme[i] <= '9' by {
            assert(tok.lexeme[i] == cs[pos + i]);
            if i > 0 {
                assert(is_digit(cs[pos + i]));
            }
        }
        lemma_prepend_spelled(tok, lex_from(cs, e));
    } else if let Some((kind, n)) = operator_at(cs, pos) {
        lemma_tokens_spell_their_kind(cs, pos + n);
        let tok = token_at(cs, kind, pos, pos + n);
        assert(tok.lexeme =~= kind.spec_name());
        lemma_prepend_spelled(tok, lex_from(cs, pos + n));
    }
}

proof fn lemma_digit_run(cs: Seq<char>, pos: int)
    ensures
        forall|i: int| pos <= i < digits_end(cs, pos) ==> 0 <= i < cs.len() && #[trigger] is_digit(cs[i]),
    decreases cs.len() - pos,
{
    if 0 <= pos < cs.len() && is_digit(cs[pos]) {
        lemma_digit_run(cs, pos + 1);
        lemma_digits_end(cs, pos + 1);
        assert forall|i: int| pos <= i < digits_end(cs, pos) implies 0 <= i < cs.len() && #[trigger] is_digit(cs[i]) by {
            if i > pos {
                assert(is_digit(cs[i]));
            }
        }
    }
}

} // verus!
