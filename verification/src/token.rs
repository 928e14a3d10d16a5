use vstd::prelude::*;

verus! {

/// The kind of a lexical unit of a command line.
#[derive(Debug, Clone, Copy, PartialEq, Eq, Structural)]
pub enum TokenKind {
    /// An ordinary argument.
    Word,
    /// `>` or `1>`: standard output, truncating.
    RedirectOut,
    /// `>>` or `1>>`: standard output, appending.
    RedirectAppend,
    /// `2>`: standard error, truncating.
    RedirectErr,
    /// `2>>`: standard error, appending.
    RedirectErrAppend,
    /// `|`.
    Pipe,
}

/// A lexical unit: its kind and, for a word, its text.
#[derive(Debug, Clone, PartialEq, Eq)]
pub struct Token {
    pub kind: TokenKind,
    pub value: String,
}

impl View for Token {
    type V = (TokenKind, Seq<char>);

    open spec fn view(&self) -> (TokenKind, Seq<char>) {
        (self.kind, self.value@)
    }
}

impl Token {
    pub fn new(kind: TokenKind, value: String) -> (t: Token)
        ensures
            t.kind == kind,
            t.value@ == value@,
    {
        Token { kind, value }
    }
}

} // verus!
