//! Laws that relate the lexer and the parser.

use vstd::prelude::*;
use crate::command::{with_redirection, CommandView, RedirectionView};
use crate::lexer::{
    extend, is_blank, is_operator_char, lemma_scan_word_advances, lemma_skip_blanks_bounds,
    lex_from, operator_at, prepend, scan_word, skip_blanks, tokenize_spec, LexError, Quoting,
};
use crate::parser::{
    direction_of, lemma_parse_rest_bounds, parse_from, parse_rest, parse_spec, token_at, ParseError,
};
use crate::token::{KindView, TokenView};
use crate::{parse_command_spec, ShellError};

verus! {

/// A line of blanks alone, the empty line among them, has one token,
/// `EndOfInput` at offset 0, and the parser asks for a command name there.
pub proof fn lemma_blank_line(line: Seq<char>)
    requires
        forall|i: int| 0 <= i < line.len() ==> is_blank(#[trigger] line[i]),
    ensures
        tokenize_spec(line) == Ok::<Seq<TokenView>, LexError>(
            seq![TokenView { kind: KindView::EndOfInput, pos: 0 }],
        ),
        parse_spec(seq![TokenView { kind: KindView::EndOfInput, pos: 0 }]) == Err::<Seq<CommandView>, ParseError>(
            ParseError::ExpectedCommandName(0),
        ),
        parse_command_spec(line) == Err::<Seq<CommandView>, ShellError>(
            ShellError::Parse(ParseError::ExpectedCommandName(0)),
        ),
{
    lemma_skip_blanks_bounds(line, 0);
    let j = skip_blanks(line, 0);
    if j < line.len() {
        assert(is_blank(line[j]));
    }
    assert(lex_from(line, 0) == Ok::<Seq<TokenView>, LexError>(
        seq![TokenView { kind: KindView::EndOfInput, pos: 0 }],
    ));
    let tokens = seq![TokenView { kind: KindView::EndOfInput, pos: 0 }];
    assert(token_at(tokens, 0) == tokens[0]);
    assert(parse_from(tokens, 0) == Err::<Seq<CommandView>, ParseError>(ParseError::ExpectedCommandName(0)));
}

/// A character that stands for itself in a word: no blank, no operator
/// character, no quote and no backslash.
pub open spec fn is_plain(c: char) -> bool {
    !is_blank(c) && !is_operator_char(c) && c != '\'' && c != '"' && c != '\\'
}

/// A word that the lexer reads back as it is written: not empty, and made of plain characters.
pub open spec fn plain_word(word: Seq<char>) -> bool {
    &&& word.len() > 0
    &&& forall|k: int| 0 <= k < word.len() ==> is_plain(#[trigger] word[k])
}

/// A line without quoting: it holds no quote and no backslash.
pub open spec fn unquoted(line: Seq<char>) -> bool {
    forall|k: int|
        0 <= k < line.len() ==> (#[trigger] line[k]) != '\'' && line[k] != '"' && line[k] != '\\'
}

/// Without quoting, a word is the stretch of the line that it covers: the
/// scanner adds to `text` the characters from `i` up to the next blank or
/// operator character, and cannot fail.
proof fn lemma_scan_unquoted(s: Seq<char>, i: int, text: Seq<char>)
    requires
        unquoted(s),
        0 <= i <= s.len(),
    ensures
        scan_word(s, i, Quoting::Bare, text) matches Ok((word, end)) && i <= end <= s.len() && word
            == text + s.subrange(i, end) && (forall|k: int|
            i <= k < end ==> is_plain(#[trigger] s[k])) && (end < s.len() ==> !is_plain(s[end])),
    decreases s.len() - i,
{
    if i < s.len() && !is_blank(s[i]) && !is_operator_char(s[i]) {
        lemma_scan_unquoted(s, i + 1, text.push(s[i]));
        let end = scan_word(s, i, Quoting::Bare, text)->Ok_0.1;
        assert(text.push(s[i]) + s.subrange(i + 1, end) =~= text + s.subrange(i, end));
    } else {
        assert(text + s.subrange(i, i) =~= text);
    }
}

/// Every word among the tokens is plain.
pub open spec fn plain_words(tokens: Seq<TokenView>) -> bool {
    forall|k: int|
        0 <= k < tokens.len() ==> ((#[trigger] tokens[k]).kind matches KindView::Word(word)
            ==> plain_word(word))
}

/// Each word that the lexer reads from a line without quoting is plain.
proof fn lemma_lex_unquoted(s: Seq<char>, i: int)
    requires
        unquoted(s),
        0 <= i <= s.len(),
    ensures
        lex_from(s, i) matches Ok(tokens) ==> plain_words(tokens),
    decreases s.len() - i,
{
    lemma_skip_blanks_bounds(s, i);
    let j = skip_blanks(s, i);
    if j < s.len() {
        match operator_at(s, j) {
            Some((kind, width)) => {
                lemma_lex_unquoted(s, j + width);
                let first = TokenView { kind, pos: j as nat };
                match lex_from(s, j + width) {
                    Ok(rest) => {
                        lemma_plain_words_prepend(first, rest);
                    },
                    Err(_) => {},
                }
            },
            None => {
                if s[j] != '&' {
                    lemma_scan_unquoted(s, j, Seq::empty());
                    lemma_scan_word_advances(s, j, Quoting::Bare, Seq::empty());
                    let (word, end) = scan_word(s, j, Quoting::Bare, Seq::empty())->Ok_0;
                    assert(word =~= s.subrange(j, end));
                    assert(plain_word(word));
                    lemma_lex_unquoted(s, end);
                    let first = TokenView { kind: KindView::Word(word), pos: j as nat };
                    match lex_from(s, end) {
                        Ok(rest) => {
                            lemma_plain_words_prepend(first, rest);
                        },
                        Err(_) => {},
                    }
                }
            },
        }
    }
}

/// A token in front of plain words leaves them plain, where it is no word or a plain one.
proof fn lemma_plain_words_prepend(first: TokenView, rest: Seq<TokenView>)
    requires
        plain_words(rest),
        first.kind matches KindView::Word(word) ==> plain_word(word),
    ensures
        plain_words(seq![first] + rest),
{
    let all = seq![first] + rest;
    assert forall|k: int| 0 <= k < all.len() implies ((#[trigger] all[k]).kind matches KindView::Word(
        word,
    ) ==> plain_word(word)) by {
        if k > 0 {
            assert(all[k] == rest[k - 1]);
        }
    }
}

/// A command whose name and arguments are plain words.
pub open spec fn plain_command(command: CommandView) -> bool {
    &&& plain_word(command.name)
    &&& forall|k: int| 0 <= k < command.args.len() ==> plain_word(#[trigger] command.args[k])
}

/// Arguments taken from plain words keep a command plain.
proof fn lemma_parse_rest_plain(tokens: Seq<TokenView>, i: int, command: CommandView)
    requires
        plain_words(tokens),
        plain_command(command),
    ensures
        parse_rest(tokens, i, command) matches Ok((whole, _)) ==> plain_command(whole),
    decreases tokens.len() - i,
{
    let token = token_at(tokens, i);
    match token.kind {
        KindView::Word(text) => {
            assert(token == tokens[i]);
            let next = CommandView { args: command.args.push(text), ..command };
            assert forall|k: int| 0 <= k < next.args.len() implies plain_word(
                #[trigger] next.args[k],
            ) by {
                if k < command.args.len() {
                    assert(next.args[k] == command.args[k]);
                }
            }
            lemma_parse_rest_plain(tokens, i + 1, next);
        },
        KindView::RedirectIn | KindView::RedirectOut | KindView::AppendOut => {
            let after = token_at(tokens, i + 1);
            match after.kind {
                KindView::Word(target) => {
                    let next = CommandView {
                        redirections: with_redirection(
                            command.redirections,
                            RedirectionView { direction: direction_of(token.kind)->0, target },
                        ),
                        ..command
                    };
                    lemma_parse_rest_plain(tokens, i + 2, next);
                },
                _ => {},
            }
        },
        _ => {},
    }
}

/// A pipeline parsed from plain words holds plain commands.
proof fn lemma_parse_plain(tokens: Seq<TokenView>, i: int)
    requires
        plain_words(tokens),
        0 <= i <= tokens.len(),
    ensures
        parse_from(tokens, i) matches Ok(commands) ==> forall|k: int|
            0 <= k < commands.len() ==> plain_command(#[trigger] commands[k]),
    decreases tokens.len() - i,
{
    let token = token_at(tokens, i);
    match token.kind {
        KindView::Word(name) => {
            if name.len() > 0 {
                assert(token == tokens[i]);
                let start = CommandView { name, args: Seq::empty(), redirections: Seq::empty() };
                lemma_parse_rest_plain(tokens, i + 1, start);
                lemma_parse_rest_bounds(tokens, i + 1, start);
                match parse_rest(tokens, i + 1, start) {
                    Ok((command, end)) => {
                        if token_at(tokens, end).kind is Pipe && !(token_at(tokens, end + 1).kind
                            is EndOfInput) {
                            lemma_parse_plain(tokens, end + 1);
                            match parse_from(tokens, end + 1) {
                                Ok(rest) => {
                                    let all = seq![command] + rest;
                                    assert forall|k: int| 0 <= k < all.len() implies plain_command(
                                        #[trigger] all[k],
                                    ) by {
                                        if k > 0 {
                                            assert(all[k] == rest[k - 1]);
                                        }
                                    }
                                },
                                Err(_) => {},
                            }
                        }
                    },
                    Err(_) => {},
                }
            }
        },
        _ => {},
    }
}

/// Words joined by single spaces.
pub open spec fn join_words(words: Seq<Seq<char>>) -> Seq<char>
    decreases words.len(),
{
    if words.len() == 0 {
        Seq::empty()
    } else if words.len() == 1 {
        words[0]
    } else {
        words[0] + seq![' '] + join_words(words.drop_first())
    }
}

/// The words of a command: its name, then its arguments.
pub open spec fn command_words(command: CommandView) -> Seq<Seq<char>> {
    seq![command.name] + command.args
}

/// A pipeline written out again: the words of each command joined by single
/// spaces, and the commands joined by `|`. Redirections are not written.
pub open spec fn rejoin(commands: Seq<CommandView>) -> Seq<char>
    decreases commands.len(),
{
    if commands.len() == 0 {
        Seq::empty()
    } else if commands.len() == 1 {
        join_words(command_words(commands[0]))
    } else {
        join_words(command_words(commands[0])) + seq!['|'] + rejoin(commands.drop_first())
    }
}

/// A stretch of plain characters that ends at a blank, at an operator
/// character or at the end of the line is scanned as it stands.
proof fn lemma_scan_plain(s: Seq<char>, i: int, word: Seq<char>, text: Seq<char>)
    requires
        0 <= i,
        i + word.len() <= s.len(),
        s.subrange(i, i + word.len()) == word,
        forall|k: int| 0 <= k < word.len() ==> is_plain(#[trigger] word[k]),
        i + word.len() == s.len() || is_blank(s[i + word.len()]) || is_operator_char(
            s[i + word.len()],
        ),
    ensures
        scan_word(s, i, Quoting::Bare, text) == Ok::<(Seq<char>, int), LexError>(
            (text + word, i + word.len()),
        ),
    decreases word.len(),
{
    if word.len() == 0 {
        assert(text + word =~= text);
    } else {
        assert(s[i] == word[0]);
        let rest = word.drop_first();
        assert(s.subrange(i + 1, i + 1 + rest.len()) =~= rest);
        assert forall|k: int| 0 <= k < rest.len() implies is_plain(#[trigger] rest[k]) by {
            assert(rest[k] == word[k + 1]);
        }
        lemma_scan_plain(s, i + 1, rest, text.push(s[i]));
        assert(text.push(s[i]) + rest =~= text + word);
    }
}

/// Tokens in front of a first token and what follows it.
proof fn lemma_extend_first(
    first: TokenView,
    more: Seq<TokenView>,
    rest: Result<Seq<TokenView>, LexError>,
)
    ensures
        extend(seq![first] + more, rest) == prepend(first, extend(more, rest)),
        extend(seq![first], rest) == prepend(first, rest),
{
    match rest {
        Ok(tokens) => {
            assert((seq![first] + more) + tokens =~= seq![first] + (more + tokens));
        },
        Err(_) => {},
    }
}

/// Plain words joined by single spaces are read back one token each. The
/// tokens are returned; behind them the lexer goes on at the end of the words.
proof fn lemma_lex_words(s: Seq<char>, i: int, words: Seq<Seq<char>>) -> (tokens: Seq<TokenView>)
    requires
        0 <= i,
        words.len() > 0,
        forall|k: int| 0 <= k < words.len() ==> plain_word(#[trigger] words[k]),
        i + join_words(words).len() <= s.len(),
        s.subrange(i, i + join_words(words).len()) == join_words(words),
        i + join_words(words).len() == s.len() || s[i + join_words(words).len()] == '|',
    ensures
        tokens.len() == words.len(),
        forall|k: int| 0 <= k < words.len() ==> (#[trigger] tokens[k]).kind == KindView::Word(words[k]),
        lex_from(s, i) == extend(tokens, lex_from(s, i + join_words(words).len())),
    decreases words.len(),
{
    let word = words[0];
    let line = join_words(words);
    let first = TokenView { kind: KindView::Word(word), pos: i as nat };
    assert(plain_word(word));
    assert(is_plain(word[0]));
    if words.len() == 1 {
        assert(s[i] == line[0]);
        lemma_scan_plain(s, i, word, Seq::empty());
        assert(Seq::<char>::empty() + word =~= word);
        lemma_extend_first(first, Seq::empty(), lex_from(s, i + line.len()));
        let tokens = seq![first];
        tokens
    } else {
        let rest = words.drop_first();
        let tail = join_words(rest);
        assert(line == word + seq![' '] + tail);
        assert forall|k: int| 0 <= k < rest.len() implies plain_word(#[trigger] rest[k]) by {
            assert(rest[k] == words[k + 1]);
        }
        assert(plain_word(rest[0]));
        let next = i + word.len() + 1;
        assert(s[i] == line[0]);
        assert(s[i + word.len()] == line[word.len() as int]);
        assert(s.subrange(i, i + word.len()) =~= word) by {
            assert forall|k: int| 0 <= k < word.len() implies s[i + k] == word[k] by {
                assert(s[i + k] == line[k]);
            }
        }
        lemma_scan_plain(s, i, word, Seq::empty());
        assert(Seq::<char>::empty() + word =~= word);
        assert(s.subrange(next, next + tail.len()) =~= tail) by {
            assert forall|k: int| 0 <= k < tail.len() implies s[next + k] == tail[k] by {
                assert(s[next + k] == line[word.len() + 1 + k]);
            }
        }
        let more = lemma_lex_words(s, next, rest);
        // The one blank between two words is skipped.
        assert(tail.len() > 0 && tail[0] == rest[0][0]) by {
            if rest.len() > 1 {
                assert(tail == rest[0] + seq![' '] + join_words(rest.drop_first()));
            }
        }
        assert(s[next] == tail[0]);
        assert(is_plain(rest[0][0]));
        assert(skip_blanks(s, next) == next);
        assert(skip_blanks(s, next - 1) == next);
        assert(lex_from(s, next - 1) == lex_from(s, next));
        lemma_extend_first(first, more, lex_from(s, i + line.len()));
        let tokens = seq![first] + more;
        assert forall|k: int| 0 <= k < words.len() implies (#[trigger] tokens[k]).kind
            == KindView::Word(words[k]) by {
            if k > 0 {
                assert(tokens[k] == more[k - 1]);
                assert(rest[k - 1] == words[k]);
            }
        }
        tokens
    }
}

/// One word token for each word.
pub open spec fn word_kinds(words: Seq<Seq<char>>) -> Seq<KindView> {
    Seq::new(words.len(), |k: int| KindView::Word(words[k]))
}

/// The kinds of the tokens that a pipeline without redirections is written
/// with: the words of each command, and a pipe between two commands.
pub open spec fn pipeline_kinds(commands: Seq<CommandView>) -> Seq<KindView>
    decreases commands.len(),
{
    if commands.len() == 0 {
        Seq::empty()
    } else if commands.len() == 1 {
        word_kinds(command_words(commands[0]))
    } else {
        word_kinds(command_words(commands[0])) + seq![KindView::Pipe] + pipeline_kinds(
            commands.drop_first(),
        )
    }
}

/// The tokens have these kinds, one for one.
pub open spec fn same_kinds(tokens: Seq<TokenView>, kinds: Seq<KindView>) -> bool {
    &&& tokens.len() == kinds.len()
    &&& forall|k: int| 0 <= k < tokens.len() ==> (#[trigger] tokens[k]).kind == kinds[k]
}

/// The words of a plain command are plain, and there is at least one.
proof fn lemma_command_words_plain(command: CommandView)
    requires
        plain_command(command),
    ensures
        command_words(command).len() == command.args.len() + 1,
        forall|k: int|
            0 <= k < command_words(command).len() ==> plain_word(
                #[trigger] command_words(command)[k],
            ),
{
    let words = command_words(command);
    assert forall|k: int| 0 <= k < words.len() implies plain_word(#[trigger] words[k]) by {
        if k > 0 {
            assert(words[k] == command.args[k - 1]);
        }
    }
}

/// A pipeline of plain commands, written out, is read back as the tokens it
/// was written with, closed by `EndOfInput`.
proof fn lemma_lex_rejoined(s: Seq<char>, i: int, commands: Seq<CommandView>) -> (tokens: Seq<
    TokenView,
>)
    requires
        0 <= i,
        commands.len() > 0,
        forall|k: int| 0 <= k < commands.len() ==> plain_command(#[trigger] commands[k]),
        i + rejoin(commands).len() == s.len(),
        s.subrange(i, s.len() as int) == rejoin(commands),
    ensures
        lex_from(s, i) == Ok::<Seq<TokenView>, LexError>(tokens),
        same_kinds(tokens, pipeline_kinds(commands) + seq![KindView::EndOfInput]),
    decreases commands.len(),
{
    let command = commands[0];
    let words = command_words(command);
    let line = join_words(words);
    let whole = rejoin(commands);
    let end = i + line.len();
    assert(plain_command(command));
    lemma_command_words_plain(command);
    if commands.len() == 1 {
        assert(s.subrange(i, end) =~= line);
        let first = lemma_lex_words(s, i, words);
        let last = TokenView { kind: KindView::EndOfInput, pos: end as nat };
        assert(skip_blanks(s, end) == end);
        assert(lex_from(s, end) == Ok::<Seq<TokenView>, LexError>(seq![last]));
        let tokens = first + seq![last];
        tokens
    } else {
        let rest = commands.drop_first();
        assert(whole == line + seq!['|'] + rejoin(rest));
        assert forall|k: int| 0 <= k < rest.len() implies plain_command(#[trigger] rest[k]) by {
            assert(rest[k] == commands[k + 1]);
        }
        assert(s.subrange(i, end) =~= line) by {
            assert forall|k: int| 0 <= k < line.len() implies s[i + k] == line[k] by {
                assert(s[i + k] == whole[k]);
            }
        }
        assert(s[end] == '|') by {
            assert(s[end] == whole[line.len() as int]);
        }
        assert(s.subrange(end + 1, s.len() as int) =~= rejoin(rest)) by {
            assert forall|k: int| 0 <= k < rejoin(rest).len() implies s[end + 1 + k] == rejoin(
                rest,
            )[k] by {
                assert(s[end + 1 + k] == whole[line.len() + 1 + k]);
            }
        }
        let first = lemma_lex_words(s, i, words);
        let more = lemma_lex_rejoined(s, end + 1, rest);
        let pipe = TokenView { kind: KindView::Pipe, pos: end as nat };
        assert(skip_blanks(s, end) == end);
        assert(operator_at(s, end) == Some((KindView::Pipe, 1int)));
        assert(lex_from(s, end) == prepend(pipe, lex_from(s, end + 1)));
        let tokens = first + seq![pipe] + more;
        assert(first + (seq![pipe] + more) =~= tokens);
        let kinds = pipeline_kinds(commands) + seq![KindView::EndOfInput];
        let kinds_rest = pipeline_kinds(rest) + seq![KindView::EndOfInput];
        assert(kinds =~= word_kinds(words) + seq![KindView::Pipe] + kinds_rest);
        assert forall|k: int| 0 <= k < tokens.len() implies (#[trigger] tokens[k]).kind
            == kinds[k] by {
            if k < first.len() {
                assert(tokens[k] == first[k]);
            } else if k > first.len() {
                assert(tokens[k] == more[k - first.len() - 1]);
                assert(kinds[k] == kinds_rest[k - first.len() - 1]);
            }
        }
        tokens
    }
}

/// Word tokens that are followed by a pipe or by the end of the input become
/// the arguments of the command, in order.
proof fn lemma_parse_rest_words(
    tokens: Seq<TokenView>,
    i: int,
    command: CommandView,
    args: Seq<Seq<char>>,
)
    requires
        0 <= i,
        i + args.len() < tokens.len(),
        forall|k: int| 0 <= k < args.len() ==> (#[trigger] tokens[i + k]).kind == KindView::Word(args[k]),
        tokens[i + args.len()].kind is Pipe || tokens[i + args.len()].kind is EndOfInput,
    ensures
        parse_rest(tokens, i, command) == Ok::<(CommandView, int), ParseError>(
            (CommandView { args: command.args + args, ..command }, i + args.len()),
        ),
    decreases args.len(),
{
    if args.len() == 0 {
        assert(command.args + args =~= command.args);
    } else {
        assert(tokens[i + 0].kind == KindView::Word(args[0]));
        let rest = args.drop_first();
        let next = CommandView { args: command.args.push(args[0]), ..command };
        assert forall|k: int| 0 <= k < rest.len() implies (#[trigger] tokens[i + 1 + k]).kind
            == KindView::Word(rest[k]) by {
            assert(tokens[i + (k + 1)].kind == KindView::Word(args[k + 1]));
        }
        lemma_parse_rest_words(tokens, i + 1, next, rest);
        assert(next.args + rest =~= command.args + args);
    }
}

/// Tokens of the kinds that a pipeline without redirections is written with
/// are parsed to that pipeline.
proof fn lemma_parse_kinds(tokens: Seq<TokenView>, i: int, commands: Seq<CommandView>)
    requires
        0 <= i <= tokens.len(),
        commands.len() > 0,
        forall|k: int|
            0 <= k < commands.len() ==> (#[trigger] commands[k]).name.len() > 0
                && commands[k].redirections.len() == 0,
        same_kinds(
            tokens.subrange(i, tokens.len() as int),
            pipeline_kinds(commands) + seq![KindView::EndOfInput],
        ),
    ensures
        parse_from(tokens, i) == Ok::<Seq<CommandView>, ParseError>(commands),
    decreases commands.len(),
{
    let command = commands[0];
    let words = command_words(command);
    let here = tokens.subrange(i, tokens.len() as int);
    let kinds = pipeline_kinds(commands) + seq![KindView::EndOfInput];
    let start = CommandView { name: command.name, args: Seq::empty(), redirections: Seq::empty() };
    let end = i + words.len();
    assert(command.name.len() > 0 && command.redirections.len() == 0);
    assert(words.len() == command.args.len() + 1);
    assert(here.len() == tokens.len() - i);
    assert(kinds.len() >= words.len() + 1) by {
        if commands.len() > 1 {
            assert(pipeline_kinds(commands) == word_kinds(words) + seq![KindView::Pipe]
                + pipeline_kinds(commands.drop_first()));
        }
    }
    assert forall|k: int| 0 <= k < kinds.len() implies (#[trigger] tokens[i + k]).kind
        == kinds[k] by {
        assert(here[k] == tokens[i + k]);
    }
    assert(tokens[i + 0].kind == kinds[0]);
    assert(kinds[0] == KindView::Word(command.name)) by {
        assert(word_kinds(words)[0] == KindView::Word(words[0]));
    }
    assert forall|k: int| 0 <= k < command.args.len() implies (#[trigger] tokens[i + 1 + k]).kind
        == KindView::Word(command.args[k]) by {
        assert(tokens[i + (k + 1)].kind == kinds[k + 1]);
        assert(word_kinds(words)[k + 1] == KindView::Word(words[k + 1]));
    }
    assert(tokens[i + words.len()].kind == kinds[words.len() as int]);
    assert(Seq::<Seq<char>>::empty() + command.args =~= command.args);
    assert(command.redirections =~= Seq::empty());
    if commands.len() == 1 {
        lemma_parse_rest_words(tokens, i + 1, start, command.args);
        assert(commands =~= seq![command]);
    } else {
        let rest = commands.drop_first();
        let kinds_rest = pipeline_kinds(rest) + seq![KindView::EndOfInput];
        assert(kinds =~= word_kinds(words) + seq![KindView::Pipe] + kinds_rest);
        lemma_parse_rest_words(tokens, i + 1, start, command.args);
        assert forall|k: int| 0 <= k < rest.len() implies (#[trigger] rest[k]).name.len() > 0
            && rest[k].redirections.len() == 0 by {
            assert(rest[k] == commands[k + 1]);
        }
        let there = tokens.subrange(end + 1, tokens.len() as int);
        assert forall|k: int| 0 <= k < there.len() implies (#[trigger] there[k]).kind
            == kinds_rest[k] by {
            assert(there[k] == tokens[i + (words.len() + 1 + k)]);
            assert(kinds[words.len() + 1 + k] == kinds_rest[k]);
        }
        lemma_parse_kinds(tokens, end + 1, rest);
        // What follows the pipe is the name of the next command, not the end.
        assert(rest[0].name.len() > 0);
        assert(kinds_rest[0] == KindView::Word(rest[0].name)) by {
            assert(word_kinds(command_words(rest[0]))[0] == KindView::Word(
                command_words(rest[0])[0],
            ));
            if rest.len() > 1 {
                assert(pipeline_kinds(rest) == word_kinds(command_words(rest[0])) + seq![
                    KindView::Pipe,
                ] + pipeline_kinds(rest.drop_first()));
            }
        }
        assert(there[0].kind == kinds_rest[0]);
        assert(there[0] == tokens[end + 1]);
        assert(seq![command] + rest =~= commands);
    }
}

/// A pipeline has a command.
proof fn lemma_parse_not_empty(tokens: Seq<TokenView>, i: int)
    ensures
        parse_from(tokens, i) matches Ok(commands) ==> commands.len() > 0,
{
}

/// A pipeline of plain commands without redirections, written out, parses to itself.
pub proof fn lemma_parse_rejoined(commands: Seq<CommandView>)
    requires
        commands.len() > 0,
        forall|k: int|
            0 <= k < commands.len() ==> plain_command(#[trigger] commands[k])
                && commands[k].redirections.len() == 0,
    ensures
        parse_command_spec(rejoin(commands)) == Ok::<Seq<CommandView>, ShellError>(commands),
{
    let written = rejoin(commands);
    assert(written.subrange(0, written.len() as int) =~= written);
    let tokens = lemma_lex_rejoined(written, 0, commands);
    assert(tokens.subrange(0, tokens.len() as int) =~= tokens);
    lemma_parse_kinds(tokens, 0, commands);
}

/// Writing a parsed pipeline out and parsing it again gives the same pipeline.
///
/// This holds of every line without quoting (no quote, no backslash) whose
/// pipeline has no redirections: `rejoin` writes names and arguments only, so
/// a redirection would be lost on the way.
pub proof fn lemma_rejoin_round_trip(line: Seq<char>, commands: Seq<CommandView>)
    requires
        unquoted(line),
        parse_command_spec(line) == Ok::<Seq<CommandView>, ShellError>(commands),
        forall|k: int| 0 <= k < commands.len() ==> (#[trigger] commands[k]).redirections.len() == 0,
    ensures
        parse_command_spec(rejoin(commands)) == Ok::<Seq<CommandView>, ShellError>(commands),
{
    let tokens = tokenize_spec(line)->Ok_0;
    lemma_lex_unquoted(line, 0);
    lemma_parse_plain(tokens, 0);
    lemma_parse_not_empty(tokens, 0);
    lemma_parse_rejoined(commands);
}

} // verus!
