//! Tokens: the classified units that a command line is split into.

use vstd::prelude::*;

verus! {

/// What a token is. Only a word carries text; every operator is a kind of its own.
#[derive(Clone, Debug, PartialEq, Eq)]
pub enum TokenKind {
    /// A word, with quotes and escapes already resolved. A word may be empty (`''`).
    Word(String),
    /// The conditional operator `&&`.
    Operator,
    /// `<`
    RedirectIn,
    /// `>`
    RedirectOut,
    /// `>>`
    AppendOut,
    /// `|`
    Pipe,
    /// `;`
    Sequence,
    /// The end of the line. It closes every token sequence that the lexer produces.
    EndOfInput,
}

/// A token together with the character offset at which it starts.
///
/// `EndOfInput` starts where the significant input ends: just behind the last
/// token, or at offset 0 where the line holds no token at all.
#[derive(Clone, Debug, PartialEq, Eq)]
pub struct Token {
    pub kind: TokenKind,
    pub pos: usize,
}

/// The mathematical value of a [`TokenKind`]: a word's text is a sequence of characters.
pub ghost enum KindView {
    Word(Seq<char>),
    Operator,
    RedirectIn,
    RedirectOut,
    AppendOut,
    Pipe,
    Sequence,
    EndOfInput,
}

/// The mathematical value of a [`Token`].
pub ghost struct TokenView {
    pub kind: KindView,
    pub pos: nat,
}

impl View for TokenKind {
    type V = KindView;

    open spec fn view(&self) -> KindView {
        match self {
            TokenKind::Word(text) => KindView::Word(text@),
            TokenKind::Operator => KindView::Operator,
            TokenKind::RedirectIn => KindView::RedirectIn,
            TokenKind::RedirectOut => KindView::RedirectOut,
            TokenKind::AppendOut => KindView::AppendOut,
            TokenKind::Pipe => KindView::Pipe,
            TokenKind::Sequence => KindView::Sequence,
            TokenKind::EndOfInput => KindView::EndOfInput,
        }
    }
}

impl View for Token {
    type V = TokenView;

    open spec fn view(&self) -> TokenView {
        TokenView { kind: self.kind@, pos: self.pos as nat }
    }
}

/// The values of a sequence of tokens, in order.
pub open spec fn tokens_view(tokens: Seq<Token>) -> Seq<TokenView> {
    Seq::new(tokens.len(), |i: int| tokens[i]@)
}

} // verus!
