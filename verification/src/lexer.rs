use vstd::prelude::*;
use crate::symbol::Terminal;
use crate::text::{chars_of, decimal, join, push_decimal};
use crate::syntax_tree::terminal_label;
use vstd::string::{StrSliceExecFns, StringExecFns};

verus! {

/// A token: its terminal kind, its text and the offset, counted in characters, at which it starts in the source.
#[derive(Debug)]
pub struct Token {
    pub kind: Terminal,
    pub lexeme: String,
    pub offset: usize,
}

/// A token as mathematical values.
pub struct TokenView {
    pub kind: Terminal,
    pub lexeme: Seq<char>,
    pub offset: usize,
}

impl View for Token {
    type V = TokenView;

    open spec fn view(&self) -> TokenView {
        TokenView { kind: self.kind, lexeme: self.lexeme@, offset: self.offset }
    }
}

/// The views of a sequence of tokens.
pub open spec fn tokens_view(s: Seq<Token>) -> Seq<TokenView> {
    s.map_values(|t: Token| t@)
}

impl Token {
    /// A copy of the token.
    pub fn duplicate(&self) -> (r: Token)
        ensures
            r == *self,
    {
        Token { kind: self.kind, lexeme: self.lexeme.clone(), offset: self.offset }
    }
}

impl Clone for Token {
    fn clone(&self) -> (r: Token)
        ensures
            r == *self,
    {
        self.duplicate()
    }
}

/// Copies of the tokens from position `start` on.
pub fn tokens_from(tokens: &[Token], start: usize) -> (v: Vec<Token>)
    requires
        start <= tokens@.len(),
    ensures
        v@ == tokens@.subrange(start as int, tokens@.len() as int),
        tokens_view(v@) == tokens_view(tokens@).subrange(start as int, tokens@.len() as int),
{
    let mut v: Vec<Token> = Vec::new();
    let mut i: usize = start;
    while i < tokens.len()
        invariant
            start <= i <= tokens@.len(),
            v@ == tokens@.subrange(start as int, i as int),
        decreases tokens@.len() - i,
    {
        v.push(tokens[i].duplicate());
        i = i + 1;
    }
    assert(tokens_view(v@) =~= tokens_view(tokens@).subrange(start as int, tokens@.len() as int));
    v
}


pub open spec fn is_space(c: char) -> bool {
    c == ' ' || c == '\t' || c == '\n' || c == '\r'
}

pub open spec fn is_digit(c: char) -> bool {
    '0' <= c && c <= '9'
}

pub open spec fn is_ident_start(c: char) -> bool {
    ('a' <= c && c <= 'z') || ('A' <= c && c <= 'Z') || c == '_'
}

pub open spec fn is_ident_char(c: char) -> bool {
    is_ident_start(c) || is_digit(c)
}

/// The end of the run of identifier characters starting at `pos`.
pub open spec fn ident_end(cs: Seq<char>, pos: int) -> int
    decreases cs.len() - pos,
{
    if 0 <= pos < cs.len() && is_ident_char(cs[pos]) {
        ident_end(cs, pos + 1)
    } else {
        pos
    }
}

/// The end of the run of digits starting at `pos`.
pub open spec fn digits_end(cs: Seq<char>, pos: int) -> int
    decreases cs.len() - pos,
{
    if 0 <= pos < cs.len() && is_digit(cs[pos]) {
        digits_end(cs, pos + 1)
    } else {
        pos
    }
}

/// The position of the first line break at or after `pos`, or the end.
pub open spec fn line_end(cs: Seq<char>, pos: int) -> int
    decreases cs.len() - pos,
{
    if 0 <= pos < cs.len() && cs[pos] != '\n' {
        line_end(cs, pos + 1)
    } else {
        pos
    }
}

/// The position just after the first `*/` at or after `pos`, if there is one.
pub open spec fn block_comment_end(cs: Seq<char>, pos: int) -> Option<int>
    decreases cs.len() - pos,
{
    if pos < 0 || pos + 1 >= cs.len() {
        None
    } else if cs[pos] == '*' && cs[pos + 1] == '/' {
        Some(pos + 2)
    } else {
        block_comment_end(cs, pos + 1)
    }
}

pub proof fn lemma_ident_end(cs: Seq<char>, pos: int)
    ensures
        ident_end(cs, pos) >= pos,
        0 <= pos <= cs.len() ==> ident_end(cs, pos) <= cs.len(),
    decreases cs.len() - pos,
{
    if 0 <= pos < cs.len() && is_ident_char(cs[pos]) {
        lemma_ident_end(cs, pos + 1);
    }
}

pub proof fn lemma_digits_end(cs: Seq<char>, pos: int)
    ensures
        digits_end(cs, pos) >= pos,
        0 <= pos <= cs.len() ==> digits_end(cs, pos) <= cs.len(),
    decreases cs.len() - pos,
{
    if 0 <= pos < cs.len() && is_digit(cs[pos]) {
        lemma_digits_end(cs, pos + 1);
    }
}

pub proof fn lemma_line_end(cs: Seq<char>, pos: int)
    ensures
        line_end(cs, pos) >= pos,
        0 <= pos <= cs.len() ==> line_end(cs, pos) <= cs.len(),
    decreases cs.len() - pos,
{
    if 0 <= pos < cs.len() && cs[pos] != '\n' {
        lemma_line_end(cs, pos + 1);
    }
}

pub proof fn lemma_block_comment_end(cs: Seq<char>, pos: int)
    ensures
        block_comment_end(cs, pos) matches Some(e) ==> pos + 2 <= e <= cs.len(),
    decreases cs.len() - pos,
{
    if !(pos < 0 || pos + 1 >= cs.len()) && !(cs[pos] == '*' && cs[pos + 1] == '/') {
        lemma_block_comment_end(cs, pos + 1);
    }
}

/// The terminal of a word: a keyword, or an identifier.
pub open spec fn word_kind(w: Seq<char>) -> Terminal {
    if w == seq!['l', 'e', 't'] {
        Terminal::Let
    } else if w == seq!['i', 'f'] {
        Terminal::If
    } else if w == seq!['e', 'l', 's', 'e'] {
        Terminal::Else
    } else if w == seq!['w', 'h', 'i', 'l', 'e'] {
        Terminal::While
    } else if w == seq!['t', 'r', 'u', 'e'] {
        Terminal::True
    } else if w == seq!['f', 'a', 'l', 's', 'e'] {
        Terminal::False
    } else if w == seq!['a', 'n', 'd'] {
        Terminal::And
    } else if w == seq!['o', 'r'] {
        Terminal::Or
    } else if w == seq!['n', 'o', 't'] {
        Terminal::Not
    } else {
        Terminal::Id
    }
}

/// The operator or delimiter at `pos` and its length; two-character
/// operators take precedence.
pub open spec fn operator_at(cs: Seq<char>, pos: int) -> Option<(Terminal, int)> {
    let n = cs.len();
    let c = cs[pos];
    let eq_next = pos + 1 < n && cs[pos + 1] == '=';
    if c == '=' && eq_next {
        Some((Terminal::Eq, 2))
    } else if c == '!' && eq_next {
        Some((Terminal::Ne, 2))
    } else if c == '<' && eq_next {
        Some((Terminal::Le, 2))
    } else if c == '>' && eq_next {
        Some((Terminal::Ge, 2))
    } else if c == '=' {
        Some((Terminal::Assign, 1))
    } else if c == '<' {
        Some((Terminal::Lt, 1))
    } else if c == '>' {
        Some((Terminal::Gt, 1))
    } else if c == '+' {
        Some((Terminal::Plus, 1))
    } else if c == '-' {
        Some((Terminal::Minus, 1))
    } else if c == '*' {
        Some((Terminal::Star, 1))
    } else if c == '/' {
        Some((Terminal::Slash, 1))
    } else if c == '(' {
        Some((Terminal::LParen, 1))
    } else if c == ')' {
        Some((Terminal::RParen, 1))
    } else if c == '{' {
        Some((Terminal::LBrace, 1))
    } else if c == '}' {
        Some((Terminal::RBrace, 1))
    } else if c == ';' {
        Some((Terminal::Semicolon, 1))
    } else {
        None
    }
}

/// A token put in front of the tokens of the rest, unless the rest fails.
pub open spec fn prepend(ts: Seq<TokenView>, r: Result<Seq<TokenView>, Seq<char>>) -> Result<Seq<TokenView>, Seq<char>> {
    match r {
        Ok(rest) => Ok(ts + rest),
        Err(e) => Err(e),
    }
}

proof fn lemma_prepend_prepend(a: Seq<TokenView>, b: Seq<TokenView>, r: Result<Seq<TokenView>, Seq<char>>)
    ensures
        prepend(a, prepend(b, r)) == prepend(a + b, r),
{
    if let Ok(rest) = r {
        assert(a + (b + rest) =~= (a + b) + rest);
    }
}

pub open spec fn token_at(cs: Seq<char>, kind: Terminal, lo: int, hi: int) -> TokenView {
    TokenView { kind, lexeme: cs.subrange(lo, hi), offset: lo as usize }
}

/// The tokens of `cs` from `pos` on, ending with the end marker `#` whose
/// offset is the length of the input; or the message of the first lexical
/// error. Blanks, `//` line comments and `/* */` block comments are skipped;
/// words are keywords or identifiers, digit runs are numbers.
pub open spec fn lex_from(cs: Seq<char>, pos: int) -> Result<Seq<TokenView>, Seq<char>>
    decreases cs.len() - pos,
{
    if pos < 0 || pos >= cs.len() {
        Ok(seq![TokenView { kind: Terminal::End, lexeme: "#"@, offset: cs.len() as usize }])
    } else {
        let c = cs[pos];
        let next = if pos + 1 < cs.len() { cs[pos + 1] } else { ' ' };
        if is_space(c) {
            lex_from(cs, pos + 1)
        } else if c == '/' && next == '/' {
            proof {
                lemma_line_end(cs, pos + 2);
            }
            lex_from(cs, line_end(cs, pos + 2))
        } else if c == '/' && next == '*' {
            proof {
                lemma_block_comment_end(cs, pos + 2);
            }
            match block_comment_end(cs, pos + 2) {
                Some(e) => lex_from(cs, e),
                None => Err("unterminated block comment at offset "@ + decimal(pos as nat)),
            }
        } else if is_ident_start(c) {
            proof {
                lemma_ident_end(cs, pos + 1);
            }
            let e = ident_end(cs, pos + 1);
            prepend(seq![token_at(cs, word_kind(cs.subrange(pos, e)), pos, e)], lex_from(cs, e))
        } else if is_digit(c) {
            proof {
                lemma_digits_end(cs, pos + 1);
            }
            let e = digits_end(cs, pos + 1);
            prepend(seq![token_at(cs, Terminal::Num, pos, e)], lex_from(cs, e))
        } else {
            match operator_at(cs, pos) {
                Some((kind, n)) => prepend(seq![token_at(cs, kind, pos, pos + n)], lex_from(cs, pos + n)),
                None => Err("unexpected character `"@ + seq![c] + "` at offset "@ + decimal(pos as nat)),
            }
        }
    }
}


fn space(c: char) -> (b: bool)
    ensures
        b == is_space(c),
{
    c == ' ' || c == '\t' || c == '\n' || c == '\r'
}

fn digit(c: char) -> (b: bool)
    ensures
        b == is_digit(c),
{
    '0' <= c && c <= '9'
}

fn ident_start(c: char) -> (b: bool)
    ensures
        b == is_ident_start(c),
{
    ('a' <= c && c <= 'z') || ('A' <= c && c <= 'Z') || c == '_'
}

fn ident_char(c: char) -> (b: bool)
    ensures
        b == is_ident_char(c),
{
    ident_start(c) || digit(c)
}

fn scan_ident(cs: &Vec<char>, pos: usize) -> (e: usize)
    requires
        pos <= cs@.len(),
    ensures
        e == ident_end(cs@, pos as int),
{
    let mut i = pos;
    while i < cs.len() && ident_char(cs[i])
        invariant
            pos <= i <= cs@.len(),
            ident_end(cs@, pos as int) == ident_end(cs@, i as int),
        decreases cs@.len() - i,
    {
        i = i + 1;
    }
    i
}

fn scan_digits(cs: &Vec<char>, pos: usize) -> (e: usize)
    requires
        pos <= cs@.len(),
    ensures
        e == digits_end(cs@, pos as int),
{
    let mut i = pos;
    while i < cs.len() && digit(cs[i])
        invariant
            pos <= i <= cs@.len(),
            digits_end(cs@, pos as int) == digits_end(cs@, i as int),
        decreases cs@.len() - i,
    {
        i = i + 1;
    }
    i
}

fn scan_line(cs: &Vec<char>, pos: usize) -> (e: usize)
    requires
        pos <= cs@.len(),
    ensures
        e == line_end(cs@, pos as int),
{
    let mut i = pos;
    while i < cs.len() && cs[i] != '\n'
        invariant
            pos <= i <= cs@.len(),
            line_end(cs@, pos as int) == line_end(cs@, i as int),
        decreases cs@.len() - i,
    {
        i = i + 1;
    }
    i
}

fn scan_block_comment(cs: &Vec<char>, pos: usize) -> (e: Option<usize>)
    requires
        pos <= cs@.len(),
    ensures
        e matches Some(x) ==> block_comment_end(cs@, pos as int) == Some(x as int),
        e is None ==> block_comment_end(cs@, pos as int) is None,
{
    let mut i = pos;
    while i < cs.len() && i + 1 < cs.len()
        invariant
            pos <= i <= cs@.len(),
            block_comment_end(cs@, pos as int) == block_comment_end(cs@, i as int),
        decreases cs@.len() - i,
    {
        if cs[i] == '*' && cs[i + 1] == '/' {
            return Some(i + 2);
        }
        i = i + 1;
    }
    None
}

fn same_word(cs: &Vec<char>, lo: usize, hi: usize, w: &[char]) -> (b: bool)
    requires
        lo <= hi <= cs@.len(),
    ensures
        b == (cs@.subrange(lo as int, hi as int) == w@),
{
    if hi - lo != w.len() {
        assert(cs@.subrange(lo as int, hi as int).len() != w@.len());
        return false;
    }
    let mut k: usize = 0;
    while k < w.len()
        invariant
            hi - lo == w@.len(),
            lo <= hi <= cs@.len(),
            k <= w@.len(),
            forall|j: int| 0 <= j < k ==> cs@[lo + j] == w@[j],
        decreases w@.len() - k,
    {
        if cs[lo + k] != w[k] {
            assert(cs@.subrange(lo as int, hi as int)[k as int] != w@[k as int]);
            return false;
        }
        k = k + 1;
    }
    assert(cs@.subrange(lo as int, hi as int) =~= w@);
    true
}

fn kind_of_word(cs: &Vec<char>, lo: usize, hi: usize) -> (k: Terminal)
    requires
        lo <= hi <= cs@.len(),
    ensures
        k == word_kind(cs@.subrange(lo as int, hi as int)),
{
    let ghost w = cs@.subrange(lo as int, hi as int);
    let let_w = ['l', 'e', 't'];
    let if_w = ['i', 'f'];
    let else_w = ['e', 'l', 's', 'e'];
    let while_w = ['w', 'h', 'i', 'l', 'e'];
    let true_w = ['t', 'r', 'u', 'e'];
    let false_w = ['f', 'a', 'l', 's', 'e'];
    let and_w = ['a', 'n', 'd'];
    let or_w = ['o', 'r'];
    let not_w = ['n', 'o', 't'];
    assert(let_w@ =~= seq!['l', 'e', 't']);
    assert(if_w@ =~= seq!['i', 'f']);
    assert(else_w@ =~= seq!['e', 'l', 's', 'e']);
    assert(while_w@ =~= seq!['w', 'h', 'i', 'l', 'e']);
    assert(true_w@ =~= seq!['t', 'r', 'u', 'e']);
    assert(false_w@ =~= seq!['f', 'a', 'l', 's', 'e']);
    assert(and_w@ =~= seq!['a', 'n', 'd']);
    assert(or_w@ =~= seq!['o', 'r']);
    assert(not_w@ =~= seq!['n', 'o', 't']);
    if same_word(cs, lo, hi, &let_w) {
        Terminal::Let
    } else if same_word(cs, lo, hi, &if_w) {
        Terminal::If
    } else if same_word(cs, lo, hi, &else_w) {
        Terminal::Else
    } else if same_word(cs, lo, hi, &while_w) {
        Terminal::While
    } else if same_word(cs, lo, hi, &true_w) {
        Terminal::True
    } else if same_word(cs, lo, hi, &false_w) {
        Terminal::False
    } else if same_word(cs, lo, hi, &and_w) {
        Terminal::And
    } else if same_word(cs, lo, hi, &or_w) {
        Terminal::Or
    } else if same_word(cs, lo, hi, &not_w) {
        Terminal::Not
    } else {
        Terminal::Id
    }
}

fn operator(cs: &Vec<char>, pos: usize) -> (r: Option<(Terminal, usize)>)
    requires
        pos < cs@.len(),
    ensures
        r matches Some(x) ==> operator_at(cs@, pos as int) == Some((x.0, x.1 as int)),
        r is None ==> operator_at(cs@, pos as int) is None,
{
    let n = cs.len();
    let c = cs[pos];
    let eq_next = pos + 1 < n && cs[pos + 1] == '=';
    if c == '=' && eq_next {
        Some((Terminal::Eq, 2))
    } else if c == '!' && eq_next {
        Some((Terminal::Ne, 2))
    } else if c == '<' && eq_next {
        Some((Terminal::Le, 2))
    } else if c == '>' && eq_next {
        Some((Terminal::Ge, 2))
    } else if c == '=' {
        Some((Terminal::Assign, 1))
    } else if c == '<' {
        Some((Terminal::Lt, 1))
    } else if c == '>' {
        Some((Terminal::Gt, 1))
    } else if c == '+' {
        Some((Terminal::Plus, 1))
    } else if c == '-' {
        Some((Terminal::Minus, 1))
    } else if c == '*' {
        Some((Terminal::Star, 1))
    } else if c == '/' {
        Some((Terminal::Slash, 1))
    } else if c == '(' {
        Some((Terminal::LParen, 1))
    } else if c == ')' {
        Some((Terminal::RParen, 1))
    } else if c == '{' {
        Some((Terminal::LBrace, 1))
    } else if c == '}' {
        Some((Terminal::RBrace, 1))
    } else if c == ';' {
        Some((Terminal::Semicolon, 1))
    } else {
        None
    }
}

fn make_token(source: &str, kind: Terminal, lo: usize, hi: usize) -> (t: Token)
    requires
        lo <= hi <= source@.len(),
    ensures
        t@ == token_at(source@, kind, lo as int, hi as int),
{
    Token { kind, lexeme: String::from_str(source.substring_char(lo, hi)), offset: lo }
}

/// Splits the source into tokens, ending with the end marker `#`, or reports
/// the first lexical error.
pub fn tokenize(source: &str) -> (r: Result<Vec<Token>, String>)
    ensures
        match lex_from(source@, 0) {
            Ok(ts) => r matches Ok(v) && tokens_view(v@) == ts,
            Err(e) => r matches Err(m) && m@ == e,
        },
        r matches Ok(v) ==> well_lexed(source@, 0, tokens_view(v@)),
{
    let cs = chars_of(source);
    let ghost s = source@;
    let n = cs.len();
    let mut tokens: Vec<Token> = Vec::new();
    let mut pos: usize = 0;
    while pos < n
        invariant
            s == source@,
            cs@ == s,
            n == s.len(),
            pos <= n,
            lex_from(s, 0) == prepend(tokens_view(tokens@), lex_from(s, pos as int)),
        decreases n - pos,
    {
        let ghost before = tokens_view(tokens@);
        let c = cs[pos];
        let next = if pos + 1 < n { cs[pos + 1] } else { ' ' };
        if space(c) {
            pos = pos + 1;
        } else if c == '/' && next == '/' {
            proof {
                lemma_line_end(s, pos + 2);
            }
            pos = scan_line(&cs, pos + 2);
        } else if c == '/' && next == '*' {
            proof {
                lemma_block_comment_end(s, pos + 2);
            }
            match scan_block_comment(&cs, pos + 2) {
                Some(e) => {
                    pos = e;
                },
                None => {
                    let mut msg = String::from_str("unterminated block comment at offset ");
                    push_decimal(&mut msg, pos);
                    assert(lex_from(s, pos as int) == Err::<Seq<TokenView>, Seq<char>>(msg@));
                    return Err(msg);
                },
            }
        } else if ident_start(c) {
            proof {
                lemma_ident_end(s, pos + 1);
            }
            let e = scan_ident(&cs, pos + 1);
            let kind = kind_of_word(&cs, pos, e);
            tokens.push(make_token(source, kind, pos, e));
            assert(tokens_view(tokens@) =~= before + seq![token_at(s, kind, pos as int, e as int)]);
            proof {
                lemma_prepend_prepend(before, seq![token_at(s, kind, pos as int, e as int)], lex_from(s, e as int));
            }
            pos = e;
        } else if digit(c) {
            proof {
                lemma_digits_end(s, pos + 1);
            }
            let e = scan_digits(&cs, pos + 1);
            tokens.push(make_token(source, Terminal::Num, pos, e));
            assert(tokens_view(tokens@) =~= before + seq![token_at(s, Terminal::Num, pos as int, e as int)]);
            proof {
                lemma_prepend_prepend(before, seq![token_at(s, Terminal::Num, pos as int, e as int)], lex_from(s, e as int));
            }
            pos = e;
        } else {
            match operator(&cs, pos) {
                Some((kind, len)) => {
                    tokens.push(make_token(source, kind, pos, pos + len));
                    assert(tokens_view(tokens@) =~= before + seq![token_at(s, kind, pos as int, (pos + len) as int)]);
                    proof {
                        lemma_prepend_prepend(before, seq![token_at(s, kind, pos as int, (pos + len) as int)], lex_from(s, (pos + len) as int));
                    }
                    pos = pos + len;
                },
                None => {
                    let mut msg = String::from_str("unexpected character `");
                    msg.append(source.substring_char(pos, pos + 1));
                    msg.append("` at offset ");
                    push_decimal(&mut msg, pos);
                    assert(s.subrange(pos as int, pos + 1) =~= seq![c]);
                    assert(lex_from(s, pos as int) == Err::<Seq<TokenView>, Seq<char>>(msg@));
                    return Err(msg);
                },
            }
        }
    }
    tokens.push(Token { kind: Terminal::End, lexeme: String::from_str("#"), offset: n });
    proof {
        lemma_lex_well_formed(s, 0);
    }
    Ok(tokens)
}

/// The text of a token: its terminal, with the lexeme for `id` and `num`.
pub open spec fn token_text(t: TokenView) -> Seq<char> {
    terminal_label(t.kind, t.lexeme)
}

/// The texts of the tokens, separated by spaces.
pub open spec fn tokens_text(ts: Seq<TokenView>) -> Seq<char> {
    join(ts.map_values(|t: TokenView| token_text(t)), " "@)
}

impl Token {
    /// The token as text: `id(x)`, `num(1)`, or the terminal itself.
    pub fn text(&self) -> (s: String)
        ensures
            s@ == token_text(self@),
    {
        let mut s = String::from_str(self.kind.name());
        if self.kind == Terminal::Id || self.kind == Terminal::Num {
            s.append("(");
            s.append(self.lexeme.as_str());
            s.append(")");
        }
        s
    }
}

/// The tokens as text, separated by spaces.
pub fn format_tokens_verbose(tokens: &[Token]) -> (s: String)
    ensures
        s@ == tokens_text(tokens_view(tokens@)),
{
    let ghost texts = tokens_view(tokens@).map_values(|t: TokenView| token_text(t));
    let mut s = String::new();
    let mut i: usize = 0;
    while i < tokens.len()
        invariant
            texts == tokens_view(tokens@).map_values(|t: TokenView| token_text(t)),
            i <= tokens@.len(),
            s@ == join(texts.take(i as int), " "@),
        decreases tokens@.len() - i,
    {
        assert(texts.take(i + 1).drop_last() =~= texts.take(i as int));
        if i > 0 {
            s.append(" ");
        } else {
            assert(texts.take(1) =~= seq![texts[0]]);
        }
        let t = tokens[i].text();
        s.append(t.as_str());
        i = i + 1;
    }
    assert(texts.take(tokens@.len() as int) =~= texts);
    s
}

/// The token is a non-empty piece of `cs`: its lexeme is the text at its offset.
pub open spec fn token_in_source(cs: Seq<char>, t: TokenView) -> bool {
    &&& t.lexeme.len() > 0
    &&& t.offset + t.lexeme.len() <= cs.len()
    &&& cs.subrange(t.offset as int, t.offset + t.lexeme.len()) == t.lexeme
    &&& t.kind != Terminal::End
}

/// The tokens read from position `pos` on: pieces of the source in order,
/// without overlap, starting at or after `pos`, followed by one end marker at
/// the end of the input.
pub open spec fn well_lexed(cs: Seq<char>, pos: int, ts: Seq<TokenView>) -> bool {
    &&& ts.len() >= 1
    &&& ts.last() == (TokenView { kind: Terminal::End, lexeme: "#"@, offset: cs.len() as usize })
    &&& forall|k: int| 0 <= k < ts.len() - 1 ==> pos <= (#[trigger] ts[k]).offset && token_in_source(cs, ts[k])
    &&& forall|a: int, b: int| 0 <= a < b < ts.len() - 1 ==> (#[trigger] ts[a]).offset + ts[a].lexeme.len() <= (#[trigger] ts[b]).offset
}

proof fn lemma_well_lexed_prepend(cs: Seq<char>, pos: int, t: TokenView, rest: Seq<TokenView>)
    requires
        well_lexed(cs, pos + t.lexeme.len(), rest),
        t.offset == pos,
        token_in_source(cs, t),
    ensures
        well_lexed(cs, pos, seq![t] + rest),
{
    let ts = seq![t] + rest;
    assert forall|k: int| 0 <= k < ts.len() - 1 implies pos <= (#[trigger] ts[k]).offset && token_in_source(cs, ts[k]) by {
        if k > 0 {
            assert(ts[k] == rest[k - 1]);
        }
    }
    assert forall|a: int, b: int| 0 <= a < b < ts.len() - 1 implies (#[trigger] ts[a]).offset + ts[a].lexeme.len()
        <= (#[trigger] ts[b]).offset by {
        assert(ts[b] == rest[b - 1]);
        if a > 0 {
            assert(ts[a] == rest[a - 1]);
        }
    }
}

/// Whatever the lexer returns is a sequence of pieces of the source, in order
/// and without overlap, each at its own offset, closed by the end marker at
/// the end of the input.
pub proof fn lemma_lex_well_formed(cs: Seq<char>, pos: int)
    requires
        0 <= pos <= cs.len(),
        cs.len() <= usize::MAX,
    ensures
        lex_from(cs, pos) matches Ok(ts) ==> well_lexed(cs, pos, ts),
    decreases cs.len() - pos,
{
    if pos >= cs.len() {
        return;
    }
    let c = cs[pos];
    let next = if pos + 1 < cs.len() { cs[pos + 1] } else { ' ' };
    if is_space(c) {
        lemma_lex_well_formed(cs, pos + 1);
    } else if c == '/' && next == '/' {
        lemma_line_end(cs, pos + 2);
        lemma_lex_well_formed(cs, line_end(cs, pos + 2));
    } else if c == '/' && next == '*' {
        lemma_block_comment_end(cs, pos + 2);
        if let Some(e) = block_comment_end(cs, pos + 2) {
            lemma_lex_well_formed(cs, e);
        }
    } else if is_ident_start(c) {
        lemma_ident_end(cs, pos + 1);
        let e = ident_end(cs, pos + 1);
        lemma_lex_well_formed(cs, e);
        if let Ok(rest) = lex_from(cs, e) {
            lemma_well_lexed_prepend(cs, pos, token_at(cs, word_kind(cs.subrange(pos, e)), pos, e), rest);
        }
    } else if is_digit(c) {
        lemma_digits_end(cs, pos + 1);
        let e = digits_end(cs, pos + 1);
        lemma_lex_well_formed(cs, e);
        if let Ok(rest) = lex_from(cs, e) {
            lemma_well_lexed_prepend(cs, pos, token_at(cs, Terminal::Num, pos, e), rest);
        }
    } else if let Some((kind, n)) = operator_at(cs, pos) {
        lemma_lex_well_formed(cs, pos + n);
        if let Ok(rest) = lex_from(cs, pos + n) {
            lemma_well_lexed_prepend(cs, pos, token_at(cs, kind, pos, pos + n), rest);
        }
    }
}

} // verus!
