use mini_shell::lexer::{tokenize, LexError};
use mini_shell::token::{Token, TokenKind};

fn word(text: &str, pos: usize) -> Token {
    Token { kind: TokenKind::Word(text.to_string()), pos }
}

fn op(kind: TokenKind, pos: usize) -> Token {
    Token { kind, pos }
}

fn end(pos: usize) -> Token {
    Token { kind: TokenKind::EndOfInput, pos }
}

#[test]
fn blank_line_is_end_of_input_alone() {
    for line in ["", " ", "\t", " \t \t", "        "] {
        assert_eq!(tokenize(line), Ok(vec![end(0)]), "line {:?}", line);
    }
}

#[test]
fn words_split_at_blank_runs() {
    assert_eq!(
        tokenize("  ls \t -la   /tmp "),
        Ok(vec![word("ls", 2), word("-la", 7), word("/tmp", 13), end(17)])
    );
}

#[test]
fn end_of_input_stands_behind_the_last_token() {
    assert_eq!(tokenize("cat >"), Ok(vec![word("cat", 0), op(TokenKind::RedirectOut, 4), end(5)]));
    assert_eq!(
        tokenize("cat >   "),
        Ok(vec![word("cat", 0), op(TokenKind::RedirectOut, 4), end(5)])
    );
}

#[test]
fn operators_end_words_without_blanks() {
    assert_eq!(
        tokenize("echo>out"),
        Ok(vec![word("echo", 0), op(TokenKind::RedirectOut, 4), word("out", 5), end(8)])
    );
    assert_eq!(
        tokenize("a|b<c;d&&e>>f"),
        Ok(vec![
            word("a", 0),
            op(TokenKind::Pipe, 1),
            word("b", 2),
            op(TokenKind::RedirectIn, 3),
            word("c", 4),
            op(TokenKind::Sequence, 5),
            word("d", 6),
            op(TokenKind::Operator, 7),
            word("e", 9),
            op(TokenKind::AppendOut, 10),
            word("f", 12),
            end(13),
        ])
    );
}

#[test]
fn longer_operator_wins() {
    assert_eq!(
        tokenize(">>>"),
        Ok(vec![op(TokenKind::AppendOut, 0), op(TokenKind::RedirectOut, 2), end(3)])
    );
    assert_eq!(
        tokenize("> >"),
        Ok(vec![op(TokenKind::RedirectOut, 0), op(TokenKind::RedirectOut, 2), end(3)])
    );
    assert_eq!(
        tokenize("&&&&"),
        Ok(vec![op(TokenKind::Operator, 0), op(TokenKind::Operator, 2), end(4)])
    );
    assert_eq!(tokenize("||"), Ok(vec![op(TokenKind::Pipe, 0), op(TokenKind::Pipe, 1), end(2)]));
}

#[test]
fn single_ampersand_is_unexpected() {
    assert_eq!(tokenize("&"), Err(LexError::UnexpectedChar(0)));
    assert_eq!(tokenize("sleep 1 &"), Err(LexError::UnexpectedChar(8)));
    assert_eq!(tokenize("a &&& b"), Err(LexError::UnexpectedChar(4)));
    assert_eq!(tokenize("a & b 'c"), Err(LexError::UnexpectedChar(2)));
}

#[test]
fn single_quotes_are_literal() {
    assert_eq!(tokenize("'a b'"), Ok(vec![word("a b", 0), end(5)]));
    assert_eq!(tokenize("'a\\'b"), Ok(vec![word("a\\b", 0), end(5)]));
    assert_eq!(tokenize("'|<>&;\"$\t'"), Ok(vec![word("|<>&;\"$\t", 0), end(10)]));
    assert_eq!(tokenize("''"), Ok(vec![word("", 0), end(2)]));
}

#[test]
fn double_quotes_unescape_three_characters() {
    assert_eq!(tokenize("\"a b\""), Ok(vec![word("a b", 0), end(5)]));
    assert_eq!(tokenize("\"a\\\"b\""), Ok(vec![word("a\"b", 0), end(6)]));
    assert_eq!(tokenize("\"a\\\\b\""), Ok(vec![word("a\\b", 0), end(6)]));
    assert_eq!(tokenize("\"a\\$b\""), Ok(vec![word("a$b", 0), end(6)]));
    assert_eq!(tokenize("\"a\\nb\""), Ok(vec![word("a\\nb", 0), end(6)]));
    assert_eq!(tokenize("\"it's | ok\""), Ok(vec![word("it's | ok", 0), end(11)]));
    assert_eq!(tokenize("\"\""), Ok(vec![word("", 0), end(2)]));
}

#[test]
fn quotes_join_with_what_surrounds_them() {
    assert_eq!(tokenize("a'b c'\"d e\"f g"), Ok(vec![word("ab cd ef", 0), word("g", 13), end(14)]));
}

#[test]
fn backslash_outside_quotes_escapes_anything() {
    assert_eq!(tokenize("a\\ b"), Ok(vec![word("a b", 0), end(4)]));
    assert_eq!(tokenize("\\|"), Ok(vec![word("|", 0), end(2)]));
    assert_eq!(tokenize("\\'x"), Ok(vec![word("'x", 0), end(3)]));
    assert_eq!(tokenize("\\\\"), Ok(vec![word("\\", 0), end(2)]));
    assert_eq!(tokenize("a\\>b c"), Ok(vec![word("a>b", 0), word("c", 5), end(6)]));
}

#[test]
fn backslash_with_nothing_behind_it_is_unexpected() {
    assert_eq!(tokenize("\\"), Err(LexError::UnexpectedChar(0)));
    assert_eq!(tokenize("ab c\\"), Err(LexError::UnexpectedChar(4)));
}

#[test]
fn unterminated_quote_names_the_opening_quote() {
    assert_eq!(tokenize("'"), Err(LexError::UnterminatedQuote(0)));
    assert_eq!(tokenize("echo 'a b"), Err(LexError::UnterminatedQuote(5)));
    assert_eq!(tokenize("echo \"a b"), Err(LexError::UnterminatedQuote(5)));
    assert_eq!(tokenize("echo \"a\\\""), Err(LexError::UnterminatedQuote(5)));
    assert_eq!(tokenize("echo \"a\\"), Err(LexError::UnterminatedQuote(5)));
    assert_eq!(tokenize("a'b'c'd"), Err(LexError::UnterminatedQuote(5)));
    assert_eq!(tokenize("x \"it's"), Err(LexError::UnterminatedQuote(2)));
}

#[test]
fn newline_is_no_blank() {
    assert_eq!(tokenize("a\nb"), Ok(vec![word("a\nb", 0), end(3)]));
}
