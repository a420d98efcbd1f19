//! The lexer: from a line of text to its tokens.
//!
//! Words are split at unquoted blanks (space and tab) and at operator
//! characters. Inside single quotes every character is literal. Inside double
//! quotes a backslash escapes `"`, `\` and `$` and is literal before anything
//! else. Outside quotes a backslash makes the next character part of the word.

use vstd::prelude::*;
use crate::token::{KindView, Token, TokenKind, TokenView, tokens_view};

verus! {

/// Why a line could not be split into tokens, with the character offset of the fault.
#[derive(Clone, Copy, Debug, PartialEq, Eq, Structural)]
pub enum LexError {
    /// A quote was opened at this offset and never closed.
    UnterminatedQuote(usize),
    /// The character at this offset cannot stand here: a single `&`, or a
    /// backslash outside quotes with nothing behind it to escape.
    UnexpectedChar(usize),
}

/// Where the scanner stands within a word.
#[derive(Clone, Copy, Debug)]
pub enum Quoting {
    /// Outside quotes.
    Bare,
    /// Inside single quotes that were opened at offset `open`.
    Single { open: usize },
    /// Inside double quotes that were opened at offset `open`.
    Double { open: usize },
}

/// Blanks separate tokens: space and tab.
pub open spec fn is_blank(c: char) -> bool {
    c == ' ' || c == '\t'
}

/// The characters that operators are made of. Outside quotes each one ends a word.
pub open spec fn is_operator_char(c: char) -> bool {
    c == '|' || c == '<' || c == '>' || c == '&' || c == ';'
}

/// The characters that a backslash escapes inside double quotes.
pub open spec fn is_escapable_in_double(c: char) -> bool {
    c == '"' || c == '\\' || c == '$'
}

/// The first offset at or behind `i` that holds no blank (the length of `s` where there is none).
pub open spec fn skip_blanks(s: Seq<char>, i: int) -> int
    decreases s.len() - i,
{
    if 0 <= i < s.len() && is_blank(s[i]) {
        skip_blanks(s, i + 1)
    } else {
        i
    }
}

/// The operator that starts at offset `i`, with the number of characters it
/// takes. The longer operator wins: `>>` before `>`. A single `&` is no operator.
pub open spec fn operator_at(s: Seq<char>, i: int) -> Option<(KindView, int)> {
    if !(0 <= i < s.len()) {
        None
    } else if s[i] == '|' {
        Some((KindView::Pipe, 1))
    } else if s[i] == '<' {
        Some((KindView::RedirectIn, 1))
    } else if s[i] == '>' {
        if i + 1 < s.len() && s[i + 1] == '>' {
            Some((KindView::AppendOut, 2))
        } else {
            Some((KindView::RedirectOut, 1))
        }
    } else if s[i] == '&' {
        if i + 1 < s.len() && s[i + 1] == '&' {
            Some((KindView::Operator, 2))
        } else {
            None
        }
    } else if s[i] == ';' {
        Some((KindView::Sequence, 1))
    } else {
        None
    }
}

/// The rest of a word: `text` has been gathered so far, the scanner stands at
/// offset `i` in state `q`. The result is the word's whole text and the offset
/// behind its last character.
pub open spec fn scan_word(s: Seq<char>, i: int, q: Quoting, text: Seq<char>) -> Result<
    (Seq<char>, int),
    LexError,
>
    decreases s.len() - i,
{
    match q {
        Quoting::Bare => {
            if !(0 <= i < s.len()) || is_blank(s[i]) || is_operator_char(s[i]) {
                Ok((text, i))
            } else if s[i] == '\'' {
                scan_word(s, i + 1, Quoting::Single { open: i as usize }, text)
            } else if s[i] == '"' {
                scan_word(s, i + 1, Quoting::Double { open: i as usize }, text)
            } else if s[i] == '\\' {
                if i + 1 < s.len() {
                    scan_word(s, i + 2, Quoting::Bare, text.push(s[i + 1]))
                } else {
                    Err(LexError::UnexpectedChar(i as usize))
                }
            } else {
                scan_word(s, i + 1, Quoting::Bare, text.push(s[i]))
            }
        },
        Quoting::Single { open } => {
            if !(0 <= i < s.len()) {
                Err(LexError::UnterminatedQuote(open))
            } else if s[i] == '\'' {
                scan_word(s, i + 1, Quoting::Bare, text)
            } else {
                scan_word(s, i + 1, q, text.push(s[i]))
            }
        },
        Quoting::Double { open } => {
            if !(0 <= i < s.len()) {
                Err(LexError::UnterminatedQuote(open))
            } else if s[i] == '"' {
                scan_word(s, i + 1, Quoting::Bare, text)
            } else if s[i] == '\\' && i + 1 < s.len() && is_escapable_in_double(s[i + 1]) {
                scan_word(s, i + 2, q, text.push(s[i + 1]))
            } else {
                scan_word(s, i + 1, q, text.push(s[i]))
            }
        },
    }
}

/// A word never ends before the offset at which the scanner stands, and a word
/// that starts at a character which is neither blank nor operator takes at
/// least that character.
pub proof fn lemma_scan_word_advances(s: Seq<char>, i: int, q: Quoting, text: Seq<char>)
    requires
        0 <= i <= s.len(),
    ensures
        match scan_word(s, i, q, text) {
            Ok((_, end)) => {
                &&& i <= end <= s.len()
                &&& (i < s.len() && !is_blank(s[i]) && !is_operator_char(s[i]) ==> i < end)
                &&& (!(q is Bare) ==> i < end)
            },
            Err(_) => true,
        },
    decreases s.len() - i,
{
    match q {
        Quoting::Bare => {
            if !(0 <= i < s.len()) || is_blank(s[i]) || is_operator_char(s[i]) {
            } else if s[i] == '\'' {
                lemma_scan_word_advances(s, i + 1, Quoting::Single { open: i as usize }, text);
            } else if s[i] == '"' {
                lemma_scan_word_advances(s, i + 1, Quoting::Double { open: i as usize }, text);
            } else if s[i] == '\\' {
                if i + 1 < s.len() {
                    lemma_scan_word_advances(s, i + 2, Quoting::Bare, text.push(s[i + 1]));
                }
            } else {
                lemma_scan_word_advances(s, i + 1, Quoting::Bare, text.push(s[i]));
            }
        },
        Quoting::Single { open } => {
            if !(0 <= i < s.len()) {
            } else if s[i] == '\'' {
                lemma_scan_word_advances(s, i + 1, Quoting::Bare, text);
            } else {
                lemma_scan_word_advances(s, i + 1, q, text.push(s[i]));
            }
        },
        Quoting::Double { open } => {
            if !(0 <= i < s.len()) {
            } else if s[i] == '"' {
                lemma_scan_word_advances(s, i + 1, Quoting::Bare, text);
            } else if s[i] == '\\' && i + 1 < s.len() && is_escapable_in_double(s[i + 1]) {
                lemma_scan_word_advances(s, i + 2, q, text.push(s[i + 1]));
            } else {
                lemma_scan_word_advances(s, i + 1, q, text.push(s[i]));
            }
        },
    }
}

/// Skipping blanks moves forward only, and stops inside the line or at its end.
pub proof fn lemma_skip_blanks_bounds(s: Seq<char>, i: int)
    requires
        0 <= i <= s.len(),
    ensures
        i <= skip_blanks(s, i) <= s.len(),
        skip_blanks(s, i) < s.len() ==> !is_blank(s[skip_blanks(s, i)]),
        forall|k: int| i <= k < skip_blanks(s, i) ==> is_blank(#[trigger] s[k]),
    decreases s.len() - i,
{
    if i < s.len() && is_blank(s[i]) {
        lemma_skip_blanks_bounds(s, i + 1);
    }
}

/// A token in front of the tokens that follow it, where those could be read.
pub open spec fn prepend(first: TokenView, rest: Result<Seq<TokenView>, LexError>) -> Result<
    Seq<TokenView>,
    LexError,
> {
    match rest {
        Ok(tokens) => Ok(seq![first] + tokens),
        Err(e) => Err(e),
    }
}

/// The tokens of `s` from offset `i` on, where `i` is the start of the line or
/// the offset behind a token. The sequence ends with `EndOfInput`, placed at the
/// offset behind the last token.
pub open spec fn lex_from(s: Seq<char>, i: int) -> Result<Seq<TokenView>, LexError>
    decreases s.len() - i,
{
    let j = skip_blanks(s, i);
    if !(0 <= i <= s.len()) || j >= s.len() {
        Ok(seq![TokenView { kind: KindView::EndOfInput, pos: i as nat }])
    } else {
        match operator_at(s, j) {
            Some((kind, width)) => {
                proof {
                    lemma_skip_blanks_bounds(s, i);
                }
                prepend(TokenView { kind, pos: j as nat }, lex_from(s, j + width))
            },
            None => {
                if s[j] == '&' {
                    Err(LexError::UnexpectedChar(j as usize))
                } else {
                    match scan_word(s, j, Quoting::Bare, Seq::empty()) {
                        Ok((text, end)) => {
                            proof {
                                lemma_skip_blanks_bounds(s, i);
                                lemma_scan_word_advances(s, j, Quoting::Bare, Seq::empty());
                            }
                            prepend(
                                TokenView { kind: KindView::Word(text), pos: j as nat },
                                lex_from(s, end),
                            )
                        },
                        Err(e) => Err(e),
                    }
                }
            },
        }
    }
}

/// A token sequence is closed where its last token is `EndOfInput` and no other is.
pub open spec fn closed(tokens: Seq<TokenView>) -> bool {
    &&& tokens.len() > 0
    &&& tokens.last().kind is EndOfInput
    &&& forall|k: int| 0 <= k < tokens.len() - 1 ==> !((#[trigger] tokens[k]).kind is EndOfInput)
}

/// The tokens of a whole line.
pub open spec fn tokenize_spec(s: Seq<char>) -> Result<Seq<TokenView>, LexError> {
    lex_from(s, 0)
}

/// The tokens read from offset `i` on end with `EndOfInput`, and hold no other.
pub proof fn lemma_tokens_closed(s: Seq<char>, i: int)
    requires
        0 <= i <= s.len(),
    ensures
        lex_from(s, i) matches Ok(tokens) ==> closed(tokens),
    decreases s.len() - i,
{
    lemma_skip_blanks_bounds(s, i);
    let j = skip_blanks(s, i);
    if j < s.len() {
        match operator_at(s, j) {
            Some((kind, width)) => {
                lemma_tokens_closed(s, j + width);
                match lex_from(s, j + width) {
                    Ok(rest) => {
                        lemma_closed_prepend(TokenView { kind, pos: j as nat }, rest);
                    },
                    Err(_) => {},
                }
            },
            None => {
                if s[j] != '&' {
                    lemma_scan_word_advances(s, j, Quoting::Bare, Seq::empty());
                    match scan_word(s, j, Quoting::Bare, Seq::empty()) {
                        Ok((word, end)) => {
                            lemma_tokens_closed(s, end);
                            match lex_from(s, end) {
                                Ok(rest) => {
                                    lemma_closed_prepend(
                                        TokenView { kind: KindView::Word(word), pos: j as nat },
                                        rest,
                                    );
                                },
                                Err(_) => {},
                            }
                        },
                        Err(_) => {},
                    }
                }
            },
        }
    }
}

/// A token that is no `EndOfInput`, in front of a closed sequence, leaves it closed.
proof fn lemma_closed_prepend(first: TokenView, rest: Seq<TokenView>)
    requires
        closed(rest),
        !(first.kind is EndOfInput),
    ensures
        closed(seq![first] + rest),
{
    let all = seq![first] + rest;
    assert(all.last() == rest.last());
    assert forall|k: int| 0 <= k < all.len() - 1 implies !((#[trigger] all[k]).kind is EndOfInput) by {
        if k > 0 {
            assert(all[k] == rest[k - 1]);
        }
    }
}

/// What a scanned word is worth in the model: its text as a sequence of characters.
pub open spec fn word_view(r: Result<(String, usize), LexError>) -> Result<
    (Seq<char>, int),
    LexError,
> {
    match r {
        Ok((text, end)) => Ok((text@, end as int)),
        Err(e) => Err(e),
    }
}

/// What a result of the lexer is worth in the model.
pub open spec fn lexed_view(r: Result<Vec<Token>, LexError>) -> Result<Seq<TokenView>, LexError> {
    match r {
        Ok(tokens) => Ok(tokens_view(tokens@)),
        Err(e) => Err(e),
    }
}

/// `String::push` of the standard library: the character is appended at the
/// end of the string, and nothing else changes.
#[verifier::external_body]
fn push_char(text: &mut String, c: char)
    ensures
        final(text)@ == old(text)@.push(c),
{
    text.push(c)
}

/// The characters of a string, in order.
fn chars_of(line: &str) -> (chars: Vec<char>)
    ensures
        chars@ == line@,
{
    let mut chars: Vec<char> = Vec::new();
    for c in it: line.chars()
        invariant
            chars@ == it.seq().take(it.index@),
            it.seq() == line@,
    {
        chars.push(c);
    }
    chars
}

fn is_blank_char(c: char) -> (b: bool)
    ensures
        b == is_blank(c),
{
    c == ' ' || c == '\t'
}

fn is_op_char(c: char) -> (b: bool)
    ensures
        b == is_operator_char(c),
{
    c == '|' || c == '<' || c == '>' || c == '&' || c == ';'
}

fn skip_blanks_at(chars: &Vec<char>, start: usize) -> (j: usize)
    requires
        start <= chars.len(),
    ensures
        j == skip_blanks(chars@, start as int),
        start <= j <= chars.len(),
{
    let mut j: usize = start;
    while j < chars.len() && is_blank_char(chars[j])
        invariant
            start <= j <= chars.len(),
            skip_blanks(chars@, j as int) == skip_blanks(chars@, start as int),
        decreases chars.len() - j,
    {
        j += 1;
    }
    j
}

/// Scans the word that starts at offset `start`.
fn scan_word_at(chars: &Vec<char>, start: usize) -> (r: Result<(String, usize), LexError>)
    requires
        start <= chars.len(),
    ensures
        word_view(r) == scan_word(chars@, start as int, Quoting::Bare, Seq::empty()),
        r matches Ok((_, end)) ==> start <= end <= chars.len(),
{
    let n: usize = chars.len();
    let mut text = String::new();
    let mut i: usize = start;
    let mut q = Quoting::Bare;
    loop
        invariant
            n == chars.len(),
            start <= i <= n,
            scan_word(chars@, i as int, q, text@) == scan_word(
                chars@,
                start as int,
                Quoting::Bare,
                Seq::empty(),
            ),
        decreases n - i,
    {
        match q {
            Quoting::Bare => {
                if i >= n || is_blank_char(chars[i]) || is_op_char(chars[i]) {
                    return Ok((text, i));
                }
                let c = chars[i];
                if c == '\'' {
                    q = Quoting::Single { open: i };
                    i += 1;
                } else if c == '"' {
                    q = Quoting::Double { open: i };
                    i += 1;
                } else if c == '\\' {
                    if i + 1 < n {
                        push_char(&mut text, chars[i + 1]);
                        i += 2;
                    } else {
                        return Err(LexError::UnexpectedChar(i));
                    }
                } else {
                    push_char(&mut text, c);
                    i += 1;
                }
            },
            Quoting::Single { open } => {
                if i >= n {
                    return Err(LexError::UnterminatedQuote(open));
                }
                let c = chars[i];
                if c == '\'' {
                    q = Quoting::Bare;
                } else {
                    push_char(&mut text, c);
                }
                i += 1;
            },
            Quoting::Double { open } => {
                if i >= n {
                    return Err(LexError::UnterminatedQuote(open));
                }
                let c = chars[i];
                if c == '"' {
                    q = Quoting::Bare;
                    i += 1;
                } else if c == '\\' && i + 1 < n && (chars[i + 1] == '"' || chars[i + 1] == '\\'
                    || chars[i + 1] == '$') {
                    push_char(&mut text, chars[i + 1]);
                    i += 2;
                } else {
                    push_char(&mut text, c);
                    i += 1;
                }
            },
        }
    }
}

/// Reads the operator that starts at offset `j`, if one does.
fn operator_kind_at(chars: &Vec<char>, j: usize) -> (r: Option<(TokenKind, usize)>)
    requires
        j < chars.len(),
    ensures
        match r {
            Some((kind, width)) => operator_at(chars@, j as int) == Some((kind@, width as int))
                && 1 <= width <= 2 && j + width <= chars.len(),
            None => operator_at(chars@, j as int) is None,
        },
{
    let c = chars[j];
    if c == '|' {
        Some((TokenKind::Pipe, 1))
    } else if c == '<' {
        Some((TokenKind::RedirectIn, 1))
    } else if c == '>' {
        if j + 1 < chars.len() && chars[j + 1] == '>' {
            Some((TokenKind::AppendOut, 2))
        } else {
            Some((TokenKind::RedirectOut, 1))
        }
    } else if c == '&' {
        if j + 1 < chars.len() && chars[j + 1] == '&' {
            Some((TokenKind::Operator, 2))
        } else {
            None
        }
    } else if c == ';' {
        Some((TokenKind::Sequence, 1))
    } else {
        None
    }
}

/// The tokens read so far in front of those that are still to come.
pub open spec fn extend(done: Seq<TokenView>, rest: Result<Seq<TokenView>, LexError>) -> Result<
    Seq<TokenView>,
    LexError,
> {
    match rest {
        Ok(tokens) => Ok(done + tokens),
        Err(e) => Err(e),
    }
}

/// Splits a line into its tokens.
///
/// The result is exactly [`tokenize_spec`] of the line's characters: on success
/// the tokens in order, closed by the one `EndOfInput`; otherwise the first
/// lexical error, with the offset of the character that caused it.
pub fn tokenize(line: &str) -> (r: Result<Vec<Token>, LexError>)
    ensures
        lexed_view(r) == tokenize_spec(line@),
        r matches Ok(tokens) ==> closed(tokens_view(tokens@)),
{
    let chars = chars_of(line);
    let n: usize = chars.len();
    let mut tokens: Vec<Token> = Vec::new();
    let mut i: usize = 0;
    loop
        invariant
            n == chars.len(),
            chars@ == line@,
            i <= n,
            extend(tokens_view(tokens@), lex_from(chars@, i as int)) == tokenize_spec(line@),
        decreases n - i,
    {
        let ghost before = tokens_view(tokens@);
        let j = skip_blanks_at(&chars, i);
        if j >= n {
            tokens.push(Token { kind: TokenKind::EndOfInput, pos: i });
            proof {
                assert(tokens_view(tokens@) =~= before + seq![
                    TokenView { kind: KindView::EndOfInput, pos: i as nat },
                ]);
                lemma_tokens_closed(line@, 0);
            }
            return Ok(tokens);
        }
        match operator_kind_at(&chars, j) {
            Some((kind, width)) => {
                let ghost first = TokenView { kind: kind@, pos: j as nat };
                tokens.push(Token { kind, pos: j });
                proof {
                    assert(tokens_view(tokens@) =~= before + seq![first]);
                    lemma_extend_prepend(before, first, lex_from(chars@, j + width));
                }
                i = j + width;
            },
            None => {
                if chars[j] == '&' {
                    return Err(LexError::UnexpectedChar(j));
                }
                match scan_word_at(&chars, j) {
                    Ok((text, end)) => {
                        let ghost first = TokenView { kind: KindView::Word(text@), pos: j as nat };
                        proof {
                            lemma_scan_word_advances(chars@, j as int, Quoting::Bare, Seq::empty());
                            lemma_skip_blanks_bounds(chars@, i as int);
                        }
                        tokens.push(Token { kind: TokenKind::Word(text), pos: j });
                        proof {
                            assert(tokens_view(tokens@) =~= before + seq![first]);
                            lemma_extend_prepend(before, first, lex_from(chars@, end as int));
                        }
                        i = end;
                    },
                    Err(e) => {
                        return Err(e);
                    },
                }
            },
        }
    }
}

/// Reading one more token and then the rest gives what reading all of them gives.
proof fn lemma_extend_prepend(
    done: Seq<TokenView>,
    first: TokenView,
    rest: Result<Seq<TokenView>, LexError>,
)
    ensures
        extend(done + seq![first], rest) == extend(done, prepend(first, rest)),
{
    match rest {
        Ok(tokens) => {
            assert((done + seq![first]) + tokens =~= done + (seq![first] + tokens));
        },
        Err(_) => {},
    }
}

} // verus!
