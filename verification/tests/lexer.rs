use simple_lr::lexer::{format_tokens_verbose, tokenize, Token};
use simple_lr::symbol::Terminal;

fn kinds(tokens: &[Token]) -> Vec<Terminal> {
    tokens.iter().map(|t| t.kind).collect()
}

#[test]
fn tokenizes_declaration_with_offsets() {
    let tokens = tokenize("let x = 1;").expect("tokenize should succeed");
    assert_eq!(
        kinds(&tokens),
        vec![Terminal::Let, Terminal::Id, Terminal::Assign, Terminal::Num, Terminal::Semicolon, Terminal::End]
    );
    let lexemes: Vec<&str> = tokens.iter().map(|t| t.lexeme.as_str()).collect();
    assert_eq!(lexemes, vec!["let", "x", "=", "1", ";", "#"]);
    let offsets: Vec<usize> = tokens.iter().map(|t| t.offset).collect();
    assert_eq!(offsets, vec![0, 4, 6, 8, 9, 10]);
}

#[test]
fn lexemes_are_the_source_at_their_offsets() {
    let source = "while ( count1 >= 10 ) { x = x - 1; }";
    let tokens = tokenize(source).expect("tokenize should succeed");
    let chars: Vec<char> = source.chars().collect();
    for token in &tokens[..tokens.len() - 1] {
        let piece: String = chars[token.offset..token.offset + token.lexeme.chars().count()].iter().collect();
        assert_eq!(piece, token.lexeme);
    }
    let last = tokens.last().unwrap();
    assert_eq!(last.kind, Terminal::End);
    assert_eq!(last.offset, chars.len());
}

#[test]
fn tokenizes_keywords_and_two_character_operators() {
    let tokens = tokenize("if else while true false and or not <= >= == != < > = + - * / ( ) { }").unwrap();
    assert_eq!(
        kinds(&tokens),
        vec![
            Terminal::If,
            Terminal::Else,
            Terminal::While,
            Terminal::True,
            Terminal::False,
            Terminal::And,
            Terminal::Or,
            Terminal::Not,
            Terminal::Le,
            Terminal::Ge,
            Terminal::Eq,
            Terminal::Ne,
            Terminal::Lt,
            Terminal::Gt,
            Terminal::Assign,
            Terminal::Plus,
            Terminal::Minus,
            Terminal::Star,
            Terminal::Slash,
            Terminal::LParen,
            Terminal::RParen,
            Terminal::LBrace,
            Terminal::RBrace,
            Terminal::End,
        ]
    );
}

#[test]
fn adjacent_operators_take_the_longest_match() {
    let tokens = tokenize("x<=1;y==2").unwrap();
    assert_eq!(
        kinds(&tokens),
        vec![
            Terminal::Id,
            Terminal::Le,
            Terminal::Num,
            Terminal::Semicolon,
            Terminal::Id,
            Terminal::Eq,
            Terminal::Num,
            Terminal::End,
        ]
    );
}

#[test]
fn keyword_prefixes_are_identifiers() {
    let tokens = tokenize("lets iffy _x9").unwrap();
    assert_eq!(kinds(&tokens), vec![Terminal::Id, Terminal::Id, Terminal::Id, Terminal::End]);
    assert_eq!(tokens[2].lexeme, "_x9");
}

#[test]
fn skips_line_and_block_comments() {
    let tokens = tokenize("// only a comment\n/* another\n one */ x /**/ ;").unwrap();
    assert_eq!(kinds(&tokens), vec![Terminal::Id, Terminal::Semicolon, Terminal::End]);
}

#[test]
fn empty_source_gives_only_the_end_marker() {
    let tokens = tokenize("").unwrap();
    assert_eq!(tokens.len(), 1);
    assert_eq!(tokens[0].kind, Terminal::End);
    assert_eq!(tokens[0].lexeme, "#");
    assert_eq!(tokens[0].offset, 0);
}

#[test]
fn rejects_unexpected_character() {
    let err = tokenize("let x = @;").unwrap_err();
    assert_eq!(err, "unexpected character `@` at offset 8");
}

#[test]
fn rejects_lone_exclamation_mark() {
    let err = tokenize("x ! y").unwrap_err();
    assert_eq!(err, "unexpected character `!` at offset 2");
}

#[test]
fn rejects_unterminated_block_comment() {
    let err = tokenize("x /* never closed").unwrap_err();
    assert_eq!(err, "unterminated block comment at offset 2");
}

#[test]
fn formats_tokens_with_lexemes_for_ids_and_numbers() {
    let tokens = tokenize("let x = 1;").unwrap();
    assert_eq!(format_tokens_verbose(&tokens), "let id(x) = num(1) ; #");
    assert_eq!(format_tokens_verbose(&[]), "");
}
