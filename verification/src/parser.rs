//! The parser: from tokens to a pipeline.
//!
//! ```text
//! pipeline       := simple_command (PIPE simple_command)*
//! simple_command := WORD (WORD | redirect)*
//! redirect       := (REDIRECT_IN | REDIRECT_OUT | APPEND_OUT) WORD
//! ```
//!
//! A pipeline ends at the first token that cannot continue it: `EndOfInput`,
//! `;` or `&&`. What follows that token is not read.

use vstd::prelude::*;
use crate::command::{
    command_wf, commands_view, lemma_with_redirection_distinct, pipeline_wf, with_redirection,
    CommandView, Direction, Pipeline, RedirectionView, SimpleCommand,
};
use crate::token::{tokens_view, KindView, Token, TokenKind, TokenView};

verus! {

/// Why a token sequence is no pipeline, with the character offset of the fault.
#[derive(Clone, Copy, Debug, PartialEq, Eq, Structural)]
pub enum ParseError {
    /// A command has to start here, and the token at this offset is no word, or an empty one.
    ExpectedCommandName(usize),
    /// A redirection operator needs a word behind it, and the token at this offset is none.
    MissingRedirectTarget(usize),
    /// The pipe at this offset is the last thing on the line.
    DanglingPipe(usize),
}

/// The token at index `i`. Behind the last token the input has ended: an
/// `EndOfInput` stands there, at the offset of the last token (at 0 where there is none).
pub open spec fn token_at(tokens: Seq<TokenView>, i: int) -> TokenView {
    if 0 <= i < tokens.len() {
        tokens[i]
    } else if tokens.len() > 0 {
        TokenView { kind: KindView::EndOfInput, pos: tokens.last().pos }
    } else {
        TokenView { kind: KindView::EndOfInput, pos: 0 }
    }
}

/// The direction that a redirection operator stands for.
pub open spec fn direction_of(kind: KindView) -> Option<Direction> {
    match kind {
        KindView::RedirectIn => Some(Direction::Input),
        KindView::RedirectOut => Some(Direction::Output),
        KindView::AppendOut => Some(Direction::Append),
        _ => None,
    }
}

/// The rest of a simple command: `command` has been read so far, and the
/// token at index `i` comes next. Words become arguments, and a redirection
/// operator takes the word behind it as its target. The result is the whole
/// command and the index of the first token that is not part of it.
pub open spec fn parse_rest(tokens: Seq<TokenView>, i: int, command: CommandView) -> Result<
    (CommandView, int),
    ParseError,
>
    decreases tokens.len() - i,
{
    let token = token_at(tokens, i);
    match token.kind {
        KindView::Word(text) => parse_rest(
            tokens,
            i + 1,
            CommandView { args: command.args.push(text), ..command },
        ),
        KindView::RedirectIn | KindView::RedirectOut | KindView::AppendOut => {
            let next = token_at(tokens, i + 1);
            match next.kind {
                KindView::Word(target) => parse_rest(
                    tokens,
                    i + 2,
                    CommandView {
                        redirections: with_redirection(
                            command.redirections,
                            RedirectionView { direction: direction_of(token.kind)->0, target },
                        ),
                        ..command
                    },
                ),
                _ => Err(ParseError::MissingRedirectTarget(next.pos as usize)),
            }
        },
        _ => Ok((command, i)),
    }
}

/// A command's rest ends at or behind the index at which it starts, and inside the tokens.
pub proof fn lemma_parse_rest_bounds(tokens: Seq<TokenView>, i: int, command: CommandView)
    requires
        0 <= i <= tokens.len(),
    ensures
        parse_rest(tokens, i, command) matches Ok((_, end)) ==> i <= end <= tokens.len(),
    decreases tokens.len() - i,
{
    let token = token_at(tokens, i);
    match token.kind {
        KindView::Word(text) => {
            lemma_parse_rest_bounds(
                tokens,
                i + 1,
                CommandView { args: command.args.push(text), ..command },
            );
        },
        KindView::RedirectIn | KindView::RedirectOut | KindView::AppendOut => {
            let next = token_at(tokens, i + 1);
            match next.kind {
                KindView::Word(target) => {
                    lemma_parse_rest_bounds(
                        tokens,
                        i + 2,
                        CommandView {
                            redirections: with_redirection(
                                command.redirections,
                                RedirectionView { direction: direction_of(token.kind)->0, target },
                            ),
                            ..command
                        },
                    );
                },
                _ => {},
            }
        },
        _ => {},
    }
}

/// A command in front of the commands that follow it, where those could be read.
pub open spec fn prepend_command(
    first: CommandView,
    rest: Result<Seq<CommandView>, ParseError>,
) -> Result<Seq<CommandView>, ParseError> {
    match rest {
        Ok(commands) => Ok(seq![first] + commands),
        Err(e) => Err(e),
    }
}

/// The pipeline that starts with the token at index `i`.
///
/// A command starts with a word that is not empty. Behind a command, a pipe
/// asks for another command; a pipe with nothing behind it is dangling.
pub open spec fn parse_from(tokens: Seq<TokenView>, i: int) -> Result<Seq<CommandView>, ParseError>
    decreases tokens.len() - i,
{
    let token = token_at(tokens, i);
    match token.kind {
        KindView::Word(name) if name.len() > 0 => {
            let start = CommandView { name, args: Seq::empty(), redirections: Seq::empty() };
            match parse_rest(tokens, i + 1, start) {
                Ok((command, end)) => {
                    let after = token_at(tokens, end);
                    if after.kind is Pipe {
                        if token_at(tokens, end + 1).kind is EndOfInput {
                            Err(ParseError::DanglingPipe(after.pos as usize))
                        } else {
                            proof {
                                lemma_parse_rest_bounds(tokens, i + 1, start);
                            }
                            prepend_command(command, parse_from(tokens, end + 1))
                        }
                    } else {
                        Ok(seq![command])
                    }
                },
                Err(e) => Err(e),
            }
        },
        _ => Err(ParseError::ExpectedCommandName(token.pos as usize)),
    }
}

/// The pipeline that a token sequence stands for, or the first error in it.
pub open spec fn parse_spec(tokens: Seq<TokenView>) -> Result<Seq<CommandView>, ParseError> {
    parse_from(tokens, 0)
}

/// What a parsed command is worth in the model.
pub open spec fn rest_view(r: Result<(SimpleCommand, usize), ParseError>) -> Result<
    (CommandView, int),
    ParseError,
> {
    match r {
        Ok((command, end)) => Ok((command@, end as int)),
        Err(e) => Err(e),
    }
}

/// What a result of the parser is worth in the model.
pub open spec fn parsed_view(r: Result<Pipeline, ParseError>) -> Result<
    Seq<CommandView>,
    ParseError,
> {
    match r {
        Ok(pipeline) => Ok(pipeline@),
        Err(e) => Err(e),
    }
}

/// The commands read so far in front of those that are still to come.
pub open spec fn extend_commands(
    done: Seq<CommandView>,
    rest: Result<Seq<CommandView>, ParseError>,
) -> Result<Seq<CommandView>, ParseError> {
    match rest {
        Ok(commands) => Ok(done + commands),
        Err(e) => Err(e),
    }
}

fn position_at(tokens: &[Token], i: usize) -> (pos: usize)
    ensures
        pos == token_at(tokens_view(tokens@), i as int).pos,
{
    let n: usize = tokens.len();
    if i < n {
        tokens[i].pos
    } else if n > 0 {
        tokens[n - 1].pos
    } else {
        0
    }
}

fn direction_at(kind: &TokenKind) -> (direction: Option<Direction>)
    ensures
        direction == direction_of(kind@),
{
    match kind {
        TokenKind::RedirectIn => Some(Direction::Input),
        TokenKind::RedirectOut => Some(Direction::Output),
        TokenKind::AppendOut => Some(Direction::Append),
        _ => None,
    }
}

/// Reads the arguments and redirections of `command`, from the token at index `start` on.
fn parse_rest_at(tokens: &[Token], start: usize, command: SimpleCommand) -> (r: Result<
    (SimpleCommand, usize),
    ParseError,
>)
    requires
        start <= tokens.len(),
    ensures
        rest_view(r) == parse_rest(tokens_view(tokens@), start as int, command@),
        r matches Ok((_, end)) ==> start <= end <= tokens.len(),
{
    let ghost all = tokens_view(tokens@);
    let n: usize = tokens.len();
    let mut current = command;
    let mut i: usize = start;
    loop
        invariant
            n == tokens.len(),
            all == tokens_view(tokens@),
            start <= i <= n,
            parse_rest(all, i as int, current@) == parse_rest(all, start as int, command@),
        decreases n - i,
    {
        if i >= n {
            return Ok((current, i));
        }
        match &tokens[i].kind {
            TokenKind::Word(text) => {
                current.push_arg(text.clone());
                i += 1;
            },
            kind => {
                match direction_at(kind) {
                    Some(direction) => {
                        if i + 1 < n {
                            match &tokens[i + 1].kind {
                                TokenKind::Word(target) => {
                                    current.redirect(direction, target.clone());
                                    i += 2;
                                },
                                _ => {
                                    return Err(
                                        ParseError::MissingRedirectTarget(tokens[i + 1].pos),
                                    );
                                },
                            }
                        } else {
                            return Err(
                                ParseError::MissingRedirectTarget(position_at(tokens, i + 1)),
                            );
                        }
                    },
                    None => {
                        return Ok((current, i));
                    },
                }
            },
        }
    }
}

/// Builds the pipeline that a token sequence stands for.
///
/// The result is exactly [`parse_spec`] of the tokens: on success a well-formed
/// pipeline, otherwise the first error, and nothing of what was read before it.
pub fn parse(tokens: &[Token]) -> (r: Result<Pipeline, ParseError>)
    ensures
        parsed_view(r) == parse_spec(tokens_view(tokens@)),
        r matches Ok(pipeline) ==> pipeline_wf(pipeline@),
{
    let ghost all = tokens_view(tokens@);
    let n: usize = tokens.len();
    let mut commands: Vec<SimpleCommand> = Vec::new();
    let mut i: usize = 0;
    loop
        invariant
            n == tokens.len(),
            all == tokens_view(tokens@),
            i <= n,
            extend_commands(commands_view(commands@), parse_from(all, i as int)) == parse_spec(all),
            forall|k: int| 0 <= k < commands.len() ==> command_wf(#[trigger] commands@[k]@),
        decreases n - i,
    {
        if i >= n {
            return Err(ParseError::ExpectedCommandName(position_at(tokens, i)));
        }
        let name = match &tokens[i].kind {
            TokenKind::Word(name) => {
                if name.as_str().is_empty() {
                    return Err(ParseError::ExpectedCommandName(tokens[i].pos));
                }
                name.clone()
            },
            _ => {
                return Err(ParseError::ExpectedCommandName(tokens[i].pos));
            },
        };
        let start = SimpleCommand::new(name);
        let (command, end) = match parse_rest_at(tokens, i + 1, start) {
            Ok(found) => found,
            Err(e) => {
                return Err(e);
            },
        };
        let ghost done = commands_view(commands@);
        proof {
            lemma_parse_rest_wf(all, i + 1, start@);
        }
        commands.push(command);
        proof {
            assert(commands_view(commands@) =~= done + seq![command@]);
        }
        let piped = end < n && matches!(tokens[end].kind, TokenKind::Pipe);
        if !piped {
            return Ok(Pipeline { commands });
        }
        let dangling = end + 1 >= n || matches!(tokens[end + 1].kind, TokenKind::EndOfInput);
        if dangling {
            return Err(ParseError::DanglingPipe(tokens[end].pos));
        }
        proof {
            lemma_extend_prepend_command(done, command@, parse_from(all, end + 1));
        }
        i = end + 1;
    }
}

/// Reading one more command and then the rest gives what reading all of them gives.
proof fn lemma_extend_prepend_command(
    done: Seq<CommandView>,
    first: CommandView,
    rest: Result<Seq<CommandView>, ParseError>,
)
    ensures
        extend_commands(done + seq![first], rest) == extend_commands(
            done,
            prepend_command(first, rest),
        ),
{
    match rest {
        Ok(commands) => {
            assert((done + seq![first]) + commands =~= done + (seq![first] + commands));
        },
        Err(_) => {},
    }
}

/// Arguments and redirections keep a command well formed.
pub proof fn lemma_parse_rest_wf(tokens: Seq<TokenView>, i: int, command: CommandView)
    requires
        command_wf(command),
    ensures
        parse_rest(tokens, i, command) matches Ok((whole, _)) ==> command_wf(whole),
    decreases tokens.len() - i,
{
    let token = token_at(tokens, i);
    match token.kind {
        KindView::Word(text) => {
            lemma_parse_rest_wf(
                tokens,
                i + 1,
                CommandView { args: command.args.push(text), ..command },
            );
        },
        KindView::RedirectIn | KindView::RedirectOut | KindView::AppendOut => {
            let next = token_at(tokens, i + 1);
            match next.kind {
                KindView::Word(target) => {
                    let added = RedirectionView { direction: direction_of(token.kind)->0, target };
                    lemma_with_redirection_distinct(command.redirections, added);
                    lemma_parse_rest_wf(
                        tokens,
                        i + 2,
                        CommandView {
                            redirections: with_redirection(command.redirections, added),
                            ..command
                        },
                    );
                },
                _ => {},
            }
        },
        _ => {},
    }
}

} // verus!
