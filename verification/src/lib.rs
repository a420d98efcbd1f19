//! A command-line parsing core: a lexer that splits a line into tokens, and a
//! parser that builds a pipeline of simple commands from them.
//!
//! [`parse_command`] runs both on one line. Nothing here executes a command,
//! expands a variable or keeps state between two calls.

use vstd::prelude::*;
use crate::command::{pipeline_wf, CommandView, Pipeline};
use crate::lexer::{tokenize, tokenize_spec, LexError};
use crate::parser::{parse, parse_spec, ParseError};

pub mod token;
pub mod lexer;
pub mod command;
pub mod parser;
pub mod laws;

verus! {

/// Why a line is no command: the lexer's reason or the parser's.
#[derive(Clone, Copy, Debug, PartialEq, Eq, Structural)]
pub enum ShellError {
    Lex(LexError),
    Parse(ParseError),
}

/// The pipeline that a line stands for: its tokens, parsed. A line that cannot
/// be split into tokens fails with the lexer's error, and no parser runs.
pub open spec fn parse_command_spec(line: Seq<char>) -> Result<Seq<CommandView>, ShellError> {
    match tokenize_spec(line) {
        Ok(tokens) => match parse_spec(tokens) {
            Ok(commands) => Ok(commands),
            Err(e) => Err(ShellError::Parse(e)),
        },
        Err(e) => Err(ShellError::Lex(e)),
    }
}

/// What a result of [`parse_command`] is worth in the model.
pub open spec fn command_view(r: Result<Pipeline, ShellError>) -> Result<
    Seq<CommandView>,
    ShellError,
> {
    match r {
        Ok(pipeline) => Ok(pipeline@),
        Err(e) => Err(e),
    }
}

/// Parses one line into a pipeline.
///
/// The result is exactly [`parse_command_spec`] of the line's characters: a
/// well-formed pipeline, or the first error with its character offset.
pub fn parse_command(input: &str) -> (r: Result<Pipeline, ShellError>)
    ensures
        command_view(r) == parse_command_spec(input@),
        r matches Ok(pipeline) ==> pipeline_wf(pipeline@),
{
    match tokenize(input) {
        Ok(tokens) => match parse(tokens.as_slice()) {
            Ok(pipeline) => Ok(pipeline),
            Err(e) => Err(ShellError::Parse(e)),
        },
        Err(e) => Err(ShellError::Lex(e)),
    }
}

} // verus!
