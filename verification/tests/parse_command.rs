use mini_shell::command::{Direction, Pipeline, Redirection, SimpleCommand};
use mini_shell::lexer::LexError;
use mini_shell::parser::ParseError;
use mini_shell::{parse_command, ShellError};

fn strings(words: &[&str]) -> Vec<String> {
    words.iter().map(|w| w.to_string()).collect()
}

fn plain(name: &str, args: &[&str]) -> SimpleCommand {
    SimpleCommand { name: name.to_string(), args: strings(args), redirections: vec![] }
}

fn redirection(direction: Direction, target: &str) -> Redirection {
    Redirection { direction, target: target.to_string() }
}

#[test]
fn single_command_with_arguments() {
    let pipeline = parse_command("ls -la /tmp").unwrap();
    assert_eq!(pipeline.commands.len(), 1);
    assert_eq!(pipeline.commands[0].name, "ls");
    assert_eq!(pipeline.commands[0].args, strings(&["-la", "/tmp"]));
    assert!(pipeline.commands[0].redirections.is_empty());
}

#[test]
fn two_commands_joined_by_a_pipe() {
    let pipeline = parse_command("cat file.txt | grep foo").unwrap();
    assert_eq!(
        pipeline,
        Pipeline { commands: vec![plain("cat", &["file.txt"]), plain("grep", &["foo"])] }
    );
}

#[test]
fn output_redirection() {
    let pipeline = parse_command("echo hello > out.txt").unwrap();
    assert_eq!(pipeline.commands.len(), 1);
    let command = &pipeline.commands[0];
    assert_eq!(command.name, "echo");
    assert_eq!(command.args, strings(&["hello"]));
    assert_eq!(command.redirections, vec![redirection(Direction::Output, "out.txt")]);
}

#[test]
fn quoted_space_stays_in_one_argument() {
    let pipeline = parse_command("echo 'a b' c").unwrap();
    assert_eq!(pipeline.commands.len(), 1);
    assert_eq!(pipeline.commands[0].name, "echo");
    assert_eq!(pipeline.commands[0].args, strings(&["a b", "c"]));
}

#[test]
fn trailing_pipe_is_dangling() {
    assert_eq!(parse_command("grep |"), Err(ShellError::Parse(ParseError::DanglingPipe(5))));
    assert_eq!(parse_command("grep |   "), Err(ShellError::Parse(ParseError::DanglingPipe(5))));
    assert_eq!(parse_command("a|b|"), Err(ShellError::Parse(ParseError::DanglingPipe(3))));
}

#[test]
fn redirection_without_target_at_end_of_input() {
    assert_eq!(
        parse_command("cat >"),
        Err(ShellError::Parse(ParseError::MissingRedirectTarget(5)))
    );
    assert_eq!(
        parse_command("cat <"),
        Err(ShellError::Parse(ParseError::MissingRedirectTarget(5)))
    );
    assert_eq!(
        parse_command("cat >>"),
        Err(ShellError::Parse(ParseError::MissingRedirectTarget(6)))
    );
}

#[test]
fn redirection_followed_by_an_operator() {
    assert_eq!(
        parse_command("cat > | wc"),
        Err(ShellError::Parse(ParseError::MissingRedirectTarget(6)))
    );
    assert_eq!(
        parse_command("cat > > x"),
        Err(ShellError::Parse(ParseError::MissingRedirectTarget(6)))
    );
    assert_eq!(
        parse_command("cat < ; x"),
        Err(ShellError::Parse(ParseError::MissingRedirectTarget(6)))
    );
}

#[test]
fn blank_lines_have_no_command_name() {
    for line in ["", " ", "\t", "   \t  ", "\t\t"] {
        assert_eq!(
            parse_command(line),
            Err(ShellError::Parse(ParseError::ExpectedCommandName(0))),
            "line {:?}",
            line
        );
    }
}

#[test]
fn command_must_start_with_a_word() {
    assert_eq!(parse_command("| ls"), Err(ShellError::Parse(ParseError::ExpectedCommandName(0))));
    assert_eq!(
        parse_command("  > out"),
        Err(ShellError::Parse(ParseError::ExpectedCommandName(2)))
    );
    assert_eq!(
        parse_command("ls | | wc"),
        Err(ShellError::Parse(ParseError::ExpectedCommandName(5)))
    );
    assert_eq!(
        parse_command("ls | ; wc"),
        Err(ShellError::Parse(ParseError::ExpectedCommandName(5)))
    );
    assert_eq!(parse_command("; ls"), Err(ShellError::Parse(ParseError::ExpectedCommandName(0))));
}

#[test]
fn empty_word_is_no_command_name() {
    assert_eq!(parse_command("'' a"), Err(ShellError::Parse(ParseError::ExpectedCommandName(0))));
    assert_eq!(
        parse_command("ls | \"\""),
        Err(ShellError::Parse(ParseError::ExpectedCommandName(5)))
    );
}

#[test]
fn empty_word_is_an_argument() {
    let pipeline = parse_command("echo '' \"\" x").unwrap();
    assert_eq!(pipeline.commands, vec![plain("echo", &["", "", "x"])]);
}

#[test]
fn lexical_errors_come_before_syntax_errors() {
    assert_eq!(parse_command("| 'abc"), Err(ShellError::Lex(LexError::UnterminatedQuote(2))));
    assert_eq!(parse_command("ls & "), Err(ShellError::Lex(LexError::UnexpectedChar(3))));
}

#[test]
fn last_redirection_of_a_direction_wins() {
    let pipeline = parse_command("sort < a > b < c >> d > e").unwrap();
    assert_eq!(pipeline.commands.len(), 1);
    assert_eq!(pipeline.commands[0].name, "sort");
    assert!(pipeline.commands[0].args.is_empty());
    assert_eq!(
        pipeline.commands[0].redirections,
        vec![
            redirection(Direction::Input, "c"),
            redirection(Direction::Output, "e"),
            redirection(Direction::Append, "d"),
        ]
    );
}

#[test]
fn redirections_between_arguments() {
    let pipeline = parse_command("grep -v <in foo>out bar").unwrap();
    assert_eq!(pipeline.commands.len(), 1);
    assert_eq!(pipeline.commands[0].name, "grep");
    assert_eq!(pipeline.commands[0].args, strings(&["-v", "foo", "bar"]));
    assert_eq!(
        pipeline.commands[0].redirections,
        vec![redirection(Direction::Input, "in"), redirection(Direction::Output, "out")]
    );
}

#[test]
fn redirection_on_a_command_inside_the_pipeline() {
    let pipeline = parse_command("a > x | b < y | c >> z").unwrap();
    assert_eq!(pipeline.commands.len(), 3);
    assert_eq!(pipeline.commands[0].redirections, vec![redirection(Direction::Output, "x")]);
    assert_eq!(pipeline.commands[1].redirections, vec![redirection(Direction::Input, "y")]);
    assert_eq!(pipeline.commands[2].redirections, vec![redirection(Direction::Append, "z")]);
}

#[test]
fn pipeline_ends_at_a_sequencing_operator() {
    let expected = Pipeline { commands: vec![plain("ls", &["-l"])] };
    assert_eq!(parse_command("ls -l ; rm x").unwrap(), expected);
    assert_eq!(parse_command("ls -l && rm x").unwrap(), expected);
    assert_eq!(parse_command("ls -l;").unwrap(), expected);
    assert_eq!(parse_command("ls -l ; |").unwrap(), expected);
}

#[test]
fn rejoined_pipeline_parses_to_itself() {
    for line in ["ls -la /tmp", "cat   file.txt|grep\tfoo |  wc -l", "a", "make -j8 all ; ignored"] {
        let pipeline = parse_command(line).unwrap();
        let commands: Vec<String> = pipeline
            .commands
            .iter()
            .map(|c| {
                let mut words = vec![c.name.clone()];
                words.extend(c.args.iter().cloned());
                words.join(" ")
            })
            .collect();
        let joined = commands.join("|");
        assert_eq!(parse_command(&joined).unwrap(), pipeline, "line {:?}", line);
    }
}

#[test]
fn characters_beyond_ascii_count_as_one_offset_each() {
    let pipeline = parse_command("écho 'ñ ü' → x").unwrap();
    assert_eq!(pipeline.commands, vec![plain("écho", &["ñ ü", "→", "x"])]);
    assert_eq!(parse_command("éé |"), Err(ShellError::Parse(ParseError::DanglingPipe(3))));
    assert_eq!(parse_command("é 'ü"), Err(ShellError::Lex(LexError::UnterminatedQuote(2))));
}
