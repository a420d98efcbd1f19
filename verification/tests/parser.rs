use mini_shell::command::{Direction, Pipeline, Redirection, SimpleCommand};
use mini_shell::parser::{parse, ParseError};
use mini_shell::token::{Token, TokenKind};

fn word(text: &str, pos: usize) -> Token {
    Token { kind: TokenKind::Word(text.to_string()), pos }
}

fn op(kind: TokenKind, pos: usize) -> Token {
    Token { kind, pos }
}

fn end(pos: usize) -> Token {
    Token { kind: TokenKind::EndOfInput, pos }
}

#[test]
fn end_of_input_alone_has_no_command_name() {
    assert_eq!(parse(&[end(0)]), Err(ParseError::ExpectedCommandName(0)));
}

#[test]
fn error_names_the_offending_token() {
    assert_eq!(parse(&[end(7)]), Err(ParseError::ExpectedCommandName(7)));
    assert_eq!(
        parse(&[word("a", 1), op(TokenKind::Pipe, 3), op(TokenKind::Sequence, 9), end(10)]),
        Err(ParseError::ExpectedCommandName(9))
    );
    assert_eq!(
        parse(&[word("a", 1), op(TokenKind::AppendOut, 3), op(TokenKind::Pipe, 8), end(10)]),
        Err(ParseError::MissingRedirectTarget(8))
    );
    assert_eq!(
        parse(&[word("a", 1), op(TokenKind::Pipe, 3), end(10)]),
        Err(ParseError::DanglingPipe(3))
    );
}

#[test]
fn first_error_is_returned() {
    let tokens = [
        word("a", 0),
        op(TokenKind::RedirectIn, 2),
        op(TokenKind::RedirectIn, 4),
        op(TokenKind::Pipe, 6),
        end(7),
    ];
    assert_eq!(parse(&tokens), Err(ParseError::MissingRedirectTarget(4)));
}

#[test]
fn tokens_without_end_of_input() {
    assert_eq!(parse(&[]), Err(ParseError::ExpectedCommandName(0)));
    assert_eq!(
        parse(&[word("a", 3), word("b", 5)]),
        Ok(Pipeline {
            commands: vec![SimpleCommand {
                name: "a".to_string(),
                args: vec!["b".to_string()],
                redirections: vec![],
            }],
        })
    );
    assert_eq!(
        parse(&[word("a", 3), op(TokenKind::Pipe, 5)]),
        Err(ParseError::DanglingPipe(5))
    );
    assert_eq!(
        parse(&[word("a", 3), op(TokenKind::RedirectOut, 5)]),
        Err(ParseError::MissingRedirectTarget(5))
    );
}

#[test]
fn nothing_behind_the_end_is_read() {
    let tokens = [word("a", 0), end(1), op(TokenKind::Pipe, 2), op(TokenKind::Pipe, 3)];
    assert_eq!(
        parse(&tokens),
        Ok(Pipeline {
            commands: vec![SimpleCommand {
                name: "a".to_string(),
                args: vec![],
                redirections: vec![],
            }],
        })
    );
}

#[test]
fn builder_replaces_a_redirection_of_the_same_direction() {
    let mut command = SimpleCommand::new("sort".to_string());
    command.push_arg("-u".to_string());
    command.redirect(Direction::Output, "a".to_string());
    command.redirect(Direction::Input, "b".to_string());
    command.redirect(Direction::Output, "c".to_string());
    assert_eq!(
        command,
        SimpleCommand {
            name: "sort".to_string(),
            args: vec!["-u".to_string()],
            redirections: vec![
                Redirection { direction: Direction::Output, target: "c".to_string() },
                Redirection { direction: Direction::Input, target: "b".to_string() },
            ],
        }
    );
}
