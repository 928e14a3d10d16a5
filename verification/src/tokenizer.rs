use vstd::prelude::*;

use crate::text::{chars_of, join, push_char};
use crate::token::{Token, TokenKind};

verus! {

/// What a token is to the specification: its kind and its text.
pub type TokenView = (TokenKind, Seq<char>);

/// Why a command line cannot be split into tokens.
#[derive(Debug, Clone, Copy, PartialEq, Eq, Structural)]
pub enum LexError {
    /// A `'` that is never closed.
    UnterminatedSingleQuote,
    /// A `"` that is never closed.
    UnterminatedDoubleQuote,
    /// A `\` outside quotes as the last character.
    TrailingBackslash,
}

/// The message reported for each lexical error.
pub open spec fn lex_error_message(e: LexError) -> Seq<char> {
    match e {
        LexError::UnterminatedSingleQuote => "syntax error: unterminated single quote"@,
        LexError::UnterminatedDoubleQuote => "syntax error: unterminated double quote"@,
        LexError::TrailingBackslash => "syntax error: backslash at end of input"@,
    }
}

/// The tokens' views, in order.
pub open spec fn tokens_view(ts: Seq<Token>) -> Seq<TokenView> {
    ts.map_values(|t: Token| t@)
}

/// The word token that a pending word becomes, if it is not empty.
pub open spec fn flush(cur: Seq<char>) -> Seq<TokenView> {
    if cur.len() > 0 {
        seq![(TokenKind::Word, cur)]
    } else {
        Seq::empty()
    }
}

/// `ts` followed by the tokens of `r`, or the error of `r`.
pub open spec fn prepend(ts: Seq<TokenView>, r: Result<Seq<TokenView>, LexError>) -> Result<
    Seq<TokenView>,
    LexError,
> {
    match r {
        Ok(rest) => Ok(ts + rest),
        Err(e) => Err(e),
    }
}

/// Whether the unquoted text `s` starts with a redirection operator:
/// `>`, or `1` or `2` directly followed by `>`.
pub open spec fn starts_redirect(s: Seq<char>) -> bool {
    s.len() > 0 && (s[0] == '>' || ((s[0] == '1' || s[0] == '2') && s.len() > 1 && s[1] == '>'))
}

/// How many characters of `s` name the descriptor of a redirection (0 or 1).
pub open spec fn redirect_fd_len(s: Seq<char>) -> int {
    if s[0] == '1' || s[0] == '2' {
        1
    } else {
        0
    }
}

/// Whether the redirection at the start of `s` appends (`>>`).
pub open spec fn redirect_appends(s: Seq<char>) -> bool {
    let after = redirect_fd_len(s) + 1;
    after < s.len() && s[after] == '>'
}

/// The number of characters of the redirection operator at the start of `s`.
pub open spec fn redirect_len(s: Seq<char>) -> int {
    redirect_fd_len(s) + 1 + if redirect_appends(s) {
        1int
    } else {
        0int
    }
}

/// The kind of the redirection operator at the start of `s`.
pub open spec fn redirect_kind(s: Seq<char>) -> TokenKind {
    let err = s[0] == '2';
    let app = redirect_appends(s);
    if err && app {
        TokenKind::RedirectErrAppend
    } else if err {
        TokenKind::RedirectErr
    } else if app {
        TokenKind::RedirectAppend
    } else {
        TokenKind::RedirectOut
    }
}

/// The tokens of the unquoted text `s`, where `cur` is the word read so far.
///
/// Outside quotes: a space ends the current word; `'` and `"` open quoted
/// text that joins the current word; `\` takes the next character literally;
/// `|` is a pipe; `>`, `>>`, `1>`, `1>>`, `2>`, `2>>` are redirections; any
/// other character joins the current word. A word is emitted only when it is
/// not empty.
pub open spec fn lex(s: Seq<char>, cur: Seq<char>) -> Result<Seq<TokenView>, LexError>
    decreases s.len(),
{
    if s.len() == 0 {
        Ok(flush(cur))
    } else {
        let c = s[0];
        if c == '\'' {
            lex_single(s.drop_first(), cur)
        } else if c == '"' {
            lex_double(s.drop_first(), cur)
        } else if c == '\\' {
            if s.len() == 1 {
                Err(LexError::TrailingBackslash)
            } else {
                lex(s.subrange(2, s.len() as int), cur.push(s[1]))
            }
        } else if c == ' ' {
            prepend(flush(cur), lex(s.drop_first(), Seq::empty()))
        } else if c == '|' {
            prepend(flush(cur).push((TokenKind::Pipe, Seq::empty())), lex(s.drop_first(), Seq::empty()))
        } else if starts_redirect(s) {
            prepend(
                flush(cur).push((redirect_kind(s), Seq::empty())),
                lex(s.subrange(redirect_len(s), s.len() as int), Seq::empty()),
            )
        } else {
            lex(s.drop_first(), cur.push(c))
        }
    }
}

/// The tokens of `s`, read inside single quotes: every character up to the
/// closing `'` is literal.
pub open spec fn lex_single(s: Seq<char>, cur: Seq<char>) -> Result<Seq<TokenView>, LexError>
    decreases s.len(),
{
    if s.len() == 0 {
        Err(LexError::UnterminatedSingleQuote)
    } else if s[0] == '\'' {
        lex(s.drop_first(), cur)
    } else {
        lex_single(s.drop_first(), cur.push(s[0]))
    }
}

/// The tokens of `s`, read inside double quotes: `\"` and `\\` stand for
/// `"` and `\`; every other character up to the closing `"` is literal.
pub open spec fn lex_double(s: Seq<char>, cur: Seq<char>) -> Result<Seq<TokenView>, LexError>
    decreases s.len(),
{
    if s.len() == 0 {
        Err(LexError::UnterminatedDoubleQuote)
    } else if s[0] == '"' {
        lex(s.drop_first(), cur)
    } else if s[0] == '\\' && s.len() > 1 && (s[1] == '"' || s[1] == '\\') {
        lex_double(s.subrange(2, s.len() as int), cur.push(s[1]))
    } else {
        lex_double(s.drop_first(), cur.push(s[0]))
    }
}

/// The tokens of a whole command line.
pub open spec fn tokenize_spec(input: Seq<char>) -> Result<Seq<TokenView>, LexError> {
    lex(input, Seq::empty())
}

/// The number of characters of `s` before its first `q` (all of them if none).
pub open spec fn quote_end(s: Seq<char>, q: char) -> int
    decreases s.len(),
{
    if s.len() == 0 || s[0] == q {
        0
    } else {
        1 + quote_end(s.drop_first(), q)
    }
}

/// The characters of `s` before its first `q`.
pub open spec fn quoted_text(s: Seq<char>, q: char) -> Seq<char>
    decreases s.len(),
{
    if s.len() == 0 || s[0] == q {
        Seq::empty()
    } else {
        seq![s[0]] + quoted_text(s.drop_first(), q)
    }
}

/// Whether `s` starts with an escape of double-quoted text: `\\"` or `\\\\`.
pub open spec fn dq_escape(s: Seq<char>) -> bool {
    s.len() > 1 && s[0] == '\\' && (s[1] == '"' || s[1] == '\\')
}

/// The number of characters of double-quoted text `s` before its closing `"`
/// (all of them if there is none); `\\"` and `\\\\` count as two.
pub open spec fn dq_end(s: Seq<char>) -> int
    decreases s.len(),
{
    if s.len() == 0 || s[0] == '"' {
        0
    } else if dq_escape(s) {
        2 + dq_end(s.subrange(2, s.len() as int))
    } else {
        1 + dq_end(s.drop_first())
    }
}

/// The text that double-quoted `s` stands for, up to its closing `"`: `\\"` and
/// `\\\\` stand for `"` and `\\`, every other character for itself.
pub open spec fn dq_text(s: Seq<char>) -> Seq<char>
    decreases s.len(),
{
    if s.len() == 0 || s[0] == '"' {
        Seq::empty()
    } else if dq_escape(s) {
        seq![s[1]] + dq_text(s.subrange(2, s.len() as int))
    } else {
        seq![s[0]] + dq_text(s.drop_first())
    }
}

/// Splits a command line into tokens.
pub struct Tokenizer {
    input: Vec<char>,
    pos: usize,
    tokens: Vec<Token>,
    current: String,
}

impl Tokenizer {
    /// The tokens that this tokenizer will end with, from where it stands.
    pub closed spec fn outcome(&self) -> Result<Seq<TokenView>, LexError> {
        prepend(
            tokens_view(self.tokens@),
            lex(self.input@.subrange(self.pos as int, self.input@.len() as int), self.current@),
        )
    }

    closed spec fn rest(&self) -> Seq<char> {
        self.input@.subrange(self.pos as int, self.input@.len() as int)
    }

    /// Splits `input` into tokens, or reports the first syntax error.
    pub fn tokenize(input: &str) -> (r: Result<Vec<Token>, String>)
        ensures
            match tokenize_spec(input@) {
                Ok(ts) => r is Ok && tokens_view(r->Ok_0@) == ts,
                Err(e) => r is Err && r->Err_0@ == lex_error_message(e),
            },
    {
        let mut t = Tokenizer {
            input: chars_of(input),
            pos: 0,
            tokens: Vec::new(),
            current: String::new(),
        };
        proof {
            assert(t.input@.subrange(0, t.input@.len() as int) =~= input@);
            assert(tokens_view(t.tokens@) =~= Seq::empty());
            assert(prepend(Seq::empty(), tokenize_spec(input@)) == tokenize_spec(input@)) by {
                lemma_prepend_empty(tokenize_spec(input@));
            }
        }
        t.run()
    }

    fn run(&mut self) -> (r: Result<Vec<Token>, String>)
        requires
            old(self).pos <= old(self).input@.len() <= usize::MAX,
        ensures
            match old(self).outcome() {
                Ok(ts) => r is Ok && tokens_view(r->Ok_0@) == ts,
                Err(e) => r is Err && r->Err_0@ == lex_error_message(e),
            },
    {
        let ghost goal = self.outcome();
        while self.pos < self.input.len()
            invariant
                self.pos <= self.input@.len() <= usize::MAX,
                self.outcome() == goal,
                goal == old(self).outcome(),
            decreases self.input@.len() - self.pos,
        {
            let c = self.input[self.pos];
            if c == '\'' {
                if let Err(msg) = self.read_single_quoted() {
                    return Err(msg);
                }
            } else if c == '"' {
                if let Err(msg) = self.read_double_quoted() {
                    return Err(msg);
                }
            } else if c == '\\' {
                if let Err(msg) = self.read_unquoted_escape() {
                    return Err(msg);
                }
            } else if c == ' ' {
                self.skip_space_and_flush();
            } else if c == '|' {
                self.read_pipe();
            } else if self.is_redirect_start(c) {
                self.read_redirect();
            } else {
                self.consume();
            }
        }
        proof {
            assert(self.rest() =~= Seq::<char>::empty());
        }
        if !self.current.as_str().is_empty() {
            let mut word = String::new();
            std::mem::swap(&mut word, &mut self.current);
            self.tokens.push(Token::new(TokenKind::Word, word));
        }
        let mut out: Vec<Token> = Vec::new();
        std::mem::swap(&mut out, &mut self.tokens);
        proof {
            assert(tokens_view(out@) =~= goal->Ok_0);
        }
        Ok(out)
    }

    /// Pushes the current word as a token if it is not empty, and clears it.
    fn flush_word(&mut self)
        ensures
            final(self).input == old(self).input,
            final(self).pos == old(self).pos,
            final(self).current@ == Seq::<char>::empty(),
            tokens_view(final(self).tokens@) == tokens_view(old(self).tokens@) + flush(
                old(self).current@,
            ),
    {
        if !self.current.as_str().is_empty() {
            let mut word = String::new();
            std::mem::swap(&mut word, &mut self.current);
            self.tokens.push(Token::new(TokenKind::Word, word));
            proof {
                assert(tokens_view(self.tokens@) =~= tokens_view(old(self).tokens@) + flush(
                    old(self).current@,
                ));
            }
        } else {
            proof {
                assert(tokens_view(self.tokens@) =~= tokens_view(old(self).tokens@) + flush(
                    old(self).current@,
                ));
            }
        }
    }

    /// Reads single-quoted text: everything literal up to the closing `'`.
    fn read_single_quoted(&mut self) -> (r: Result<(), String>)
        requires
            old(self).pos < old(self).input@.len() <= usize::MAX,
            old(self).input@[old(self).pos as int] == '\'',
        ensures
            ({
                let q = old(self).input@.subrange(old(self).pos + 1, old(self).input@.len() as int);
                &&& final(self).input == old(self).input
                &&& final(self).tokens@ == old(self).tokens@
                &&& (r is Ok <==> quote_end(q, '\'') < q.len())
                &&& match r {
                    Ok(()) => {
                        &&& final(self).pos == old(self).pos + 2 + quote_end(q, '\'')
                        &&& old(self).pos < final(self).pos <= final(self).input@.len()
                        &&& final(self).current@ == old(self).current@ + quoted_text(q, '\'')
                        &&& final(self).outcome() == old(self).outcome()
                    },
                    Err(msg) => old(self).outcome() == Err::<Seq<TokenView>, LexError>(
                        LexError::UnterminatedSingleQuote,
                    ) && msg@ == lex_error_message(LexError::UnterminatedSingleQuote),
                }
            }),
    {
        let ghost goal = self.outcome();
        let ghost done = tokens_view(self.tokens@);
        let ghost q = self.input@.subrange(self.pos + 1, self.input@.len() as int);
        proof {
            assert(self.rest().drop_first() =~= q);
        }
        self.pos += 1;
        while self.pos < self.input.len() && self.input[self.pos] != '\''
            invariant
                self.pos <= self.input@.len() <= usize::MAX,
                old(self).pos < self.pos,
                self.input == old(self).input,
                self.tokens@ == old(self).tokens@,
                tokens_view(self.tokens@) == done,
                q == self.input@.subrange(old(self).pos + 1, self.input@.len() as int),
                goal == prepend(done, lex_single(self.rest(), self.current@)),
                quote_end(q, '\'') + old(self).pos + 1 == self.pos + quote_end(self.rest(), '\''),
                old(self).current@ + quoted_text(q, '\'') == self.current@ + quoted_text(
                    self.rest(),
                    '\'',
                ),
            decreases self.input@.len() - self.pos,
        {
            proof {
                assert(self.rest().drop_first() =~= self.input@.subrange(
                    self.pos + 1,
                    self.input@.len() as int,
                ));
                assert(self.current@.push(self.rest()[0]) + quoted_text(self.rest().drop_first(), '\'')
                    =~= self.current@ + (seq![self.rest()[0]] + quoted_text(
                    self.rest().drop_first(),
                    '\'',
                )));
            }
            push_char(&mut self.current, self.input[self.pos]);
            self.pos += 1;
        }
        if self.pos >= self.input.len() {
            proof {
                assert(self.rest() =~= Seq::<char>::empty());
                assert(q.len() == self.input@.len() - old(self).pos - 1);
            }
            return Err("syntax error: unterminated single quote".to_string());
        }
        proof {
            assert(self.rest().drop_first() =~= self.input@.subrange(
                self.pos + 1,
                self.input@.len() as int,
            ));
            assert(self.current@ + Seq::<char>::empty() =~= self.current@);
        }
        self.pos += 1;
        Ok(())
    }

    /// Reads double-quoted text: `\"` and `\\` are escapes, everything else
    /// is literal up to the closing `"`.
    fn read_double_quoted(&mut self) -> (r: Result<(), String>)
        requires
            old(self).pos < old(self).input@.len() <= usize::MAX,
            old(self).input@[old(self).pos as int] == '"',
        ensures
            ({
                let q = old(self).input@.subrange(old(self).pos + 1, old(self).input@.len() as int);
                &&& final(self).input == old(self).input
                &&& final(self).tokens@ == old(self).tokens@
                &&& (r is Ok <==> dq_end(q) < q.len())
                &&& match r {
                    Ok(()) => {
                        &&& final(self).pos == old(self).pos + 2 + dq_end(q)
                        &&& old(self).pos < final(self).pos <= final(self).input@.len()
                        &&& final(self).current@ == old(self).current@ + dq_text(q)
                        &&& final(self).outcome() == old(self).outcome()
                    },
                    Err(msg) => old(self).outcome() == Err::<Seq<TokenView>, LexError>(
                        LexError::UnterminatedDoubleQuote,
                    ) && msg@ == lex_error_message(LexError::UnterminatedDoubleQuote),
                }
            }),
    {
        let ghost goal = self.outcome();
        let ghost done = tokens_view(self.tokens@);
        let ghost q = self.input@.subrange(self.pos + 1, self.input@.len() as int);
        proof {
            assert(self.rest().drop_first() =~= q);
        }
        self.pos += 1;
        while self.pos < self.input.len() && self.input[self.pos] != '"'
            invariant
                self.pos <= self.input@.len() <= usize::MAX,
                old(self).pos < self.pos,
                self.input == old(self).input,
                self.tokens@ == old(self).tokens@,
                tokens_view(self.tokens@) == done,
                q == self.input@.subrange(old(self).pos + 1, self.input@.len() as int),
                goal == prepend(done, lex_double(self.rest(), self.current@)),
                dq_end(q) + old(self).pos + 1 == self.pos + dq_end(self.rest()),
                old(self).current@ + dq_text(q) == self.current@ + dq_text(self.rest()),
            decreases self.input@.len() - self.pos,
        {
            if self.input[self.pos] == '\\' && self.pos + 1 < self.input.len() {
                let next = self.input[self.pos + 1];
                if next == '"' || next == '\\' {
                    proof {
                        assert(self.rest().subrange(2, self.rest().len() as int) =~= self.input@.subrange(
                            self.pos + 2,
                            self.input@.len() as int,
                        ));
                        assert(dq_escape(self.rest()));
                        assert(self.current@.push(next) + dq_text(self.rest().subrange(2, self.rest().len() as int))
                            =~= self.current@ + (seq![next] + dq_text(self.rest().subrange(2, self.rest().len() as int))));
                    }
                    self.pos += 1;
                    push_char(&mut self.current, self.input[self.pos]);
                    self.pos += 1;
                    continue;
                }
            }
            proof {
                assert(self.rest().drop_first() =~= self.input@.subrange(
                    self.pos + 1,
                    self.input@.len() as int,
                ));
                assert(!dq_escape(self.rest()));
                assert(self.current@.push(self.rest()[0]) + dq_text(self.rest().drop_first())
                    =~= self.current@ + (seq![self.rest()[0]] + dq_text(self.rest().drop_first())));
            }
            push_char(&mut self.current, self.input[self.pos]);
            self.pos += 1;
        }
        if self.pos >= self.input.len() {
            proof {
                assert(self.rest() =~= Seq::<char>::empty());
                assert(q.len() == self.input@.len() - old(self).pos - 1);
            }
            return Err("syntax error: unterminated double quote".to_string());
        }
        proof {
            assert(self.rest().drop_first() =~= self.input@.subrange(
                self.pos + 1,
                self.input@.len() as int,
            ));
            assert(self.current@ + Seq::<char>::empty() =~= self.current@);
        }
        self.pos += 1;
        Ok(())
    }

    /// Reads a backslash outside quotes: the next character is literal.
    fn read_unquoted_escape(&mut self) -> (r: Result<(), String>)
        requires
            old(self).pos < old(self).input@.len() <= usize::MAX,
            old(self).input@[old(self).pos as int] == '\\',
        ensures
            final(self).input == old(self).input,
            final(self).tokens@ == old(self).tokens@,
            r is Ok <==> old(self).pos + 1 < old(self).input@.len(),
            match r {
                Ok(()) => {
                    &&& final(self).pos == old(self).pos + 2
                    &&& final(self).current@ == old(self).current@.push(
                        old(self).input@[old(self).pos + 1],
                    )
                    &&& final(self).outcome() == old(self).outcome()
                },
                Err(msg) => old(self).outcome() == Err::<Seq<TokenView>, LexError>(
                    LexError::TrailingBackslash,
                ) && msg@ == lex_error_message(LexError::TrailingBackslash),
            },
    {
        self.pos += 1;
        if self.pos >= self.input.len() {
            return Err("syntax error: backslash at end of input".to_string());
        }
        proof {
            assert(old(self).rest().subrange(2, old(self).rest().len() as int) =~= self.input@.subrange(
                self.pos + 1,
                self.input@.len() as int,
            ));
        }
        push_char(&mut self.current, self.input[self.pos]);
        self.pos += 1;
        Ok(())
    }

    /// A space: ends the current word, if any, and is skipped.
    fn skip_space_and_flush(&mut self)
        requires
            old(self).pos < old(self).input@.len() <= usize::MAX,
            old(self).input@[old(self).pos as int] == ' ',
        ensures
            final(self).outcome() == old(self).outcome(),
            final(self).input == old(self).input,
            final(self).pos == old(self).pos + 1,
            final(self).current@ == Seq::<char>::empty(),
            tokens_view(final(self).tokens@) == tokens_view(old(self).tokens@) + flush(
                old(self).current@,
            ),
    {
        proof {
            assert(self.rest().drop_first() =~= self.input@.subrange(
                self.pos + 1,
                self.input@.len() as int,
            ));
        }
        self.flush_word();
        self.pos += 1;
        proof {
            lemma_prepend_assoc(tokens_view(old(self).tokens@), flush(old(self).current@),
                lex(self.rest(), Seq::empty()));
        }
    }

    /// Whether a redirection operator starts at the current position, whose
    /// character is `c`.
    fn is_redirect_start(&self, c: char) -> (r: bool)
        requires
            self.pos < self.input@.len() <= usize::MAX,
            self.input@[self.pos as int] == c,
        ensures
            r == starts_redirect(self.rest()),
    {
        if c == '>' {
            return true;
        }
        (c == '1' || c == '2') && self.pos + 1 < self.input.len() && self.input[self.pos + 1] == '>'
    }

    /// Reads a redirection operator: `>`, `>>`, `1>`, `1>>`, `2>` or `2>>`.
    fn read_redirect(&mut self)
        requires
            old(self).pos < old(self).input@.len() <= usize::MAX,
            starts_redirect(old(self).rest()),
            old(self).input@[old(self).pos as int] != '\'',
            old(self).input@[old(self).pos as int] != '"',
            old(self).input@[old(self).pos as int] != '\\',
            old(self).input@[old(self).pos as int] != ' ',
            old(self).input@[old(self).pos as int] != '|',
        ensures
            final(self).outcome() == old(self).outcome(),
            final(self).input == old(self).input,
            final(self).pos == old(self).pos + redirect_len(old(self).rest()),
            final(self).pos <= final(self).input@.len(),
            final(self).current@ == Seq::<char>::empty(),
            tokens_view(final(self).tokens@) == tokens_view(old(self).tokens@) + flush(
                old(self).current@,
            ).push((redirect_kind(old(self).rest()), Seq::empty())),
    {
        let ghost s = self.rest();
        self.flush_word();
        let mut err = false;
        if self.input[self.pos] == '1' || self.input[self.pos] == '2' {
            err = self.input[self.pos] == '2';
            self.pos += 1;
        }
        self.pos += 1;
        let append = self.pos < self.input.len() && self.input[self.pos] == '>';
        if append {
            self.pos += 1;
        }
        let kind = if err && append {
            TokenKind::RedirectErrAppend
        } else if err {
            TokenKind::RedirectErr
        } else if append {
            TokenKind::RedirectAppend
        } else {
            TokenKind::RedirectOut
        };
        let ghost before = tokens_view(self.tokens@);
        self.tokens.push(Token::new(kind, String::new()));
        proof {
            assert(tokens_view(self.tokens@) =~= before.push((kind, Seq::empty())));
            assert(self.pos == old(self).pos + redirect_len(s));
            assert(kind == redirect_kind(s));
            assert(s.subrange(redirect_len(s), s.len() as int) =~= self.rest());
            lemma_prepend_assoc(tokens_view(old(self).tokens@), flush(old(self).current@).push(
                (kind, Seq::empty()),
            ), lex(self.rest(), Seq::empty()));
            assert(tokens_view(old(self).tokens@) + flush(old(self).current@).push(
                (kind, Seq::empty()),
            ) =~= tokens_view(self.tokens@));
        }
    }

    /// A pipe: ends the current word, if any, and becomes a pipe token.
    fn read_pipe(&mut self)
        requires
            old(self).pos < old(self).input@.len() <= usize::MAX,
            old(self).input@[old(self).pos as int] == '|',
        ensures
            final(self).outcome() == old(self).outcome(),
            final(self).input == old(self).input,
            final(self).pos == old(self).pos + 1,
            final(self).current@ == Seq::<char>::empty(),
            tokens_view(final(self).tokens@) == tokens_view(old(self).tokens@) + flush(
                old(self).current@,
            ).push((TokenKind::Pipe, Seq::empty())),
    {
        proof {
            assert(self.rest().drop_first() =~= self.input@.subrange(
                self.pos + 1,
                self.input@.len() as int,
            ));
        }
        self.flush_word();
        let ghost before = tokens_view(self.tokens@);
        self.tokens.push(Token::new(TokenKind::Pipe, String::new()));
        self.pos += 1;
        proof {
            assert(tokens_view(self.tokens@) =~= before.push((TokenKind::Pipe, Seq::empty())));
            lemma_prepend_assoc(tokens_view(old(self).tokens@), flush(old(self).current@).push(
                (TokenKind::Pipe, Seq::empty()),
            ), lex(self.rest(), Seq::empty()));
            assert(tokens_view(old(self).tokens@) + flush(old(self).current@).push(
                (TokenKind::Pipe, Seq::empty()),
            ) =~= tokens_view(self.tokens@));
        }
    }

    /// An ordinary character: joins the current word.
    fn consume(&mut self)
        requires
            old(self).pos < old(self).input@.len() <= usize::MAX,
            !starts_redirect(old(self).rest()),
            old(self).input@[old(self).pos as int] != '\'',
            old(self).input@[old(self).pos as int] != '"',
            old(self).input@[old(self).pos as int] != '\\',
            old(self).input@[old(self).pos as int] != ' ',
            old(self).input@[old(self).pos as int] != '|',
        ensures
            final(self).outcome() == old(self).outcome(),
            final(self).input == old(self).input,
            final(self).pos == old(self).pos + 1,
            final(self).current@ == old(self).current@.push(old(self).input@[old(self).pos as int]),
            final(self).tokens@ == old(self).tokens@,
    {
        proof {
            assert(self.rest().drop_first() =~= self.input@.subrange(
                self.pos + 1,
                self.input@.len() as int,
            ));
        }
        push_char(&mut self.current, self.input[self.pos]);
        self.pos += 1;
    }
}

proof fn lemma_prepend_empty(r: Result<Seq<TokenView>, LexError>)
    ensures
        prepend(Seq::empty(), r) == r,
{
    match r {
        Ok(ts) => {
            assert(Seq::<TokenView>::empty() + ts =~= ts);
        },
        Err(_) => {},
    }
}

proof fn lemma_prepend_assoc(a: Seq<TokenView>, b: Seq<TokenView>, r: Result<Seq<TokenView>, LexError>)
    ensures
        prepend(a, prepend(b, r)) == prepend(a + b, r),
{
    match r {
        Ok(ts) => {
            assert(a + (b + ts) =~= (a + b) + ts);
        },
        Err(_) => {},
    }
}

/// Every word token has some text and every operator token has none.
pub open spec fn well_shaped(ts: Seq<TokenView>) -> bool {
    forall|i: int|
        0 <= i < ts.len() ==> (#[trigger] ts[i].0 == TokenKind::Word <==> ts[i].1.len() > 0)
}

proof fn lemma_flush_well_shaped(cur: Seq<char>)
    ensures
        well_shaped(flush(cur)),
{
}

proof fn lemma_prepend_well_shaped(a: Seq<TokenView>, r: Result<Seq<TokenView>, LexError>)
    requires
        well_shaped(a),
        r matches Ok(ts) ==> well_shaped(ts),
    ensures
        prepend(a, r) matches Ok(ts) ==> well_shaped(ts),
{
    if let Ok(ts) = r {
        assert forall|i: int| 0 <= i < (a + ts).len() implies (#[trigger] (a + ts)[i].0
            == TokenKind::Word <==> (a + ts)[i].1.len() > 0) by {
            if i >= a.len() {
                assert((a + ts)[i] == ts[i - a.len()]);
            }
        }
    }
}

proof fn lemma_lex_well_shaped(s: Seq<char>, cur: Seq<char>)
    ensures
        lex(s, cur) matches Ok(ts) ==> well_shaped(ts),
    decreases s.len(), 1int,
{
    if s.len() == 0 {
        lemma_flush_well_shaped(cur);
    } else {
        let c = s[0];
        if c == '\'' {
            lemma_single_well_shaped(s.drop_first(), cur);
        } else if c == '"' {
            lemma_double_well_shaped(s.drop_first(), cur);
        } else if c == '\\' {
            if s.len() > 1 {
                lemma_lex_well_shaped(s.subrange(2, s.len() as int), cur.push(s[1]));
            }
        } else if c == ' ' {
            lemma_lex_well_shaped(s.drop_first(), Seq::empty());
            lemma_prepend_well_shaped(flush(cur), lex(s.drop_first(), Seq::empty()));
        } else if c == '|' {
            lemma_lex_well_shaped(s.drop_first(), Seq::empty());
            lemma_prepend_well_shaped(
                flush(cur).push((TokenKind::Pipe, Seq::empty())),
                lex(s.drop_first(), Seq::empty()),
            );
        } else if starts_redirect(s) {
            lemma_lex_well_shaped(s.subrange(redirect_len(s), s.len() as int), Seq::empty());
            lemma_prepend_well_shaped(
                flush(cur).push((redirect_kind(s), Seq::empty())),
                lex(s.subrange(redirect_len(s), s.len() as int), Seq::empty()),
            );
        } else {
            lemma_lex_well_shaped(s.drop_first(), cur.push(c));
        }
    }
}

proof fn lemma_single_well_shaped(s: Seq<char>, cur: Seq<char>)
    ensures
        lex_single(s, cur) matches Ok(ts) ==> well_shaped(ts),
    decreases s.len(), 0int,
{
    if s.len() > 0 {
        if s[0] == '\'' {
            lemma_lex_well_shaped(s.drop_first(), cur);
        } else {
            lemma_single_well_shaped(s.drop_first(), cur.push(s[0]));
        }
    }
}

proof fn lemma_double_well_shaped(s: Seq<char>, cur: Seq<char>)
    ensures
        lex_double(s, cur) matches Ok(ts) ==> well_shaped(ts),
    decreases s.len(), 0int,
{
    if s.len() > 0 {
        if s[0] == '"' {
            lemma_lex_well_shaped(s.drop_first(), cur);
        } else if s[0] == '\\' && s.len() > 1 && (s[1] == '"' || s[1] == '\\') {
            lemma_double_well_shaped(s.subrange(2, s.len() as int), cur.push(s[1]));
        } else {
            lemma_double_well_shaped(s.drop_first(), cur.push(s[0]));
        }
    }
}

/// Whatever the input, a successful tokenization gives words that are never
/// empty and operators (pipes and redirections) that carry no text.
pub proof fn law_tokens_well_shaped(input: Seq<char>)
    ensures
        tokenize_spec(input) matches Ok(ts) ==> well_shaped(ts),
{
    lemma_lex_well_shaped(input, Seq::empty());
}

/// A character that stands for itself outside quotes.
pub open spec fn is_plain(c: char) -> bool {
    c != ' ' && c != '\'' && c != '"' && c != '\\' && c != '|' && c != '>'
}

/// A word made only of characters that stand for themselves.
pub open spec fn is_plain_word(w: Seq<char>) -> bool {
    w.len() > 0 && forall|i: int| 0 <= i < w.len() ==> is_plain(#[trigger] w[i])
}

/// The word tokens of `ws`.
pub open spec fn word_tokens(ws: Seq<Seq<char>>) -> Seq<TokenView> {
    ws.map_values(|w: Seq<char>| (TokenKind::Word, w))
}

proof fn lemma_lex_plain(w: Seq<char>, s: Seq<char>, cur: Seq<char>)
    requires
        forall|i: int| 0 <= i < w.len() ==> is_plain(#[trigger] w[i]),
        s.len() == 0 || s[0] == ' ',
    ensures
        lex(w + s, cur) == lex(s, cur + w),
    decreases w.len(),
{
    if w.len() == 0 {
        assert(w + s =~= s);
        assert(cur + w =~= cur);
    } else {
        let ws = w + s;
        assert(ws[0] == w[0]);
        assert(!starts_redirect(ws)) by {
            if w.len() > 1 {
                assert(ws[1] == w[1]);
            } else if s.len() > 0 {
                assert(ws[1] == s[0]);
            }
        }
        assert(ws.drop_first() =~= w.drop_first() + s);
        lemma_lex_plain(w.drop_first(), s, cur.push(w[0]));
        assert(cur.push(w[0]) + w.drop_first() =~= cur + w);
    }
}

proof fn lemma_join_front(ws: Seq<Seq<char>>, sep: Seq<char>)
    requires
        ws.len() >= 2,
    ensures
        join(ws, sep) == ws[0] + sep + join(ws.drop_first(), sep),
    decreases ws.len(),
{
    if ws.len() > 2 {
        lemma_join_front(ws.drop_last(), sep);
        assert(ws.drop_last().drop_first() =~= ws.drop_first().drop_last());
        assert(ws.drop_first().last() == ws.last());
        assert(ws.drop_last()[0] == ws[0]);
        assert(join(ws.drop_first(), sep) == join(ws.drop_first().drop_last(), sep) + sep
            + ws.drop_first().last());
        assert(join(ws, sep) == join(ws.drop_last(), sep) + sep + ws.last());
        assert(join(ws, sep) =~= ws[0] + sep + join(ws.drop_first(), sep));
    } else {
        assert(ws.drop_first().len() == 1);
        assert(ws.drop_last().len() == 1);
        assert(join(ws.drop_first(), sep) == ws.drop_first()[0]);
        assert(join(ws.drop_last(), sep) == ws.drop_last()[0]);
    }
}

/// Plain words separated by single spaces come back as those words: spaces
/// split tokens, and characters that are not special stand for themselves.
pub proof fn law_plain_words_round_trip(ws: Seq<Seq<char>>)
    requires
        forall|i: int| 0 <= i < ws.len() ==> is_plain_word(#[trigger] ws[i]),
    ensures
        tokenize_spec(join(ws, " "@)) == Ok::<Seq<TokenView>, LexError>(word_tokens(ws)),
    decreases ws.len(),
{
    reveal_strlit(" ");
    if ws.len() == 0 {
        assert(word_tokens(ws) =~= Seq::empty());
    } else if ws.len() == 1 {
        lemma_lex_plain(ws[0], Seq::empty(), Seq::empty());
        assert(ws[0] + Seq::<char>::empty() =~= ws[0]);
        assert(Seq::<char>::empty() + ws[0] =~= ws[0]);
        assert(word_tokens(ws) =~= seq![(TokenKind::Word, ws[0])]);
    } else {
        let rest = ws.drop_first();
        lemma_join_front(ws, " "@);
        assert(forall|i: int| 0 <= i < rest.len() ==> #[trigger] rest[i] == ws[i + 1]);
        law_plain_words_round_trip(rest);
        let tail = " "@ + join(rest, " "@);
        assert(join(ws, " "@) =~= ws[0] + tail);
        lemma_lex_plain(ws[0], tail, Seq::empty());
        assert(Seq::<char>::empty() + ws[0] =~= ws[0]);
        assert(tail.drop_first() =~= join(rest, " "@));
        assert(word_tokens(ws) =~= seq![(TokenKind::Word, ws[0])] + word_tokens(rest));
    }
}

proof fn lemma_single_literal(s: Seq<char>, rest: Seq<char>, cur: Seq<char>)
    requires
        forall|i: int| 0 <= i < s.len() ==> #[trigger] s[i] != '\'',
    ensures
        lex_single(s + seq!['\''] + rest, cur) == lex(rest, cur + s),
    decreases s.len(),
{
    let t = s + seq!['\''] + rest;
    if s.len() == 0 {
        assert(t[0] == '\'');
        assert(t.drop_first() =~= rest);
        assert(cur + s =~= cur);
    } else {
        assert(t[0] == s[0]);
        assert(t.drop_first() =~= s.drop_first() + seq!['\''] + rest);
        lemma_single_literal(s.drop_first(), rest, cur.push(s[0]));
        assert(cur.push(s[0]) + s.drop_first() =~= cur + s);
    }
}

/// Inside single quotes every character is literal: quoting any text without a
/// single quote gives that text as one word (or nothing, for empty quotes).
pub proof fn law_single_quotes_literal(s: Seq<char>)
    requires
        forall|i: int| 0 <= i < s.len() ==> #[trigger] s[i] != '\'',
    ensures
        tokenize_spec(seq!['\''] + s + seq!['\'']) == Ok::<Seq<TokenView>, LexError>(flush(s)),
{
    let t = seq!['\''] + s + seq!['\''];
    assert(t[0] == '\'');
    assert(t.drop_first() =~= s + seq!['\''] + Seq::<char>::empty());
    lemma_single_literal(s, Seq::empty(), Seq::empty());
    assert(Seq::<char>::empty() + s =~= s);
}

proof fn lemma_single_unterminated(s: Seq<char>, cur: Seq<char>)
    requires
        forall|i: int| 0 <= i < s.len() ==> #[trigger] s[i] != '\'',
    ensures
        lex_single(s, cur) == Err::<Seq<TokenView>, LexError>(LexError::UnterminatedSingleQuote),
    decreases s.len(),
{
    if s.len() > 0 {
        lemma_single_unterminated(s.drop_first(), cur.push(s[0]));
    }
}

/// A single quote that is never closed is a syntax error, whatever follows it.
pub proof fn law_unterminated_single_quote(s: Seq<char>)
    requires
        forall|i: int| 0 <= i < s.len() ==> #[trigger] s[i] != '\'',
    ensures
        tokenize_spec(seq!['\''] + s) == Err::<Seq<TokenView>, LexError>(
            LexError::UnterminatedSingleQuote,
        ),
{
    let t = seq!['\''] + s;
    assert(t.drop_first() =~= s);
    lemma_single_unterminated(s, Seq::empty());
}

proof fn lemma_double_literal(s: Seq<char>, rest: Seq<char>, cur: Seq<char>)
    requires
        forall|i: int| 0 <= i < s.len() ==> #[trigger] s[i] != '"' && s[i] != '\\',
    ensures
        lex_double(s + seq!['"'] + rest, cur) == lex(rest, cur + s),
    decreases s.len(),
{
    let t = s + seq!['"'] + rest;
    if s.len() == 0 {
        assert(t[0] == '"');
        assert(t.drop_first() =~= rest);
        assert(cur + s =~= cur);
    } else {
        assert(t[0] == s[0]);
        assert(t.drop_first() =~= s.drop_first() + seq!['"'] + rest);
        lemma_double_literal(s.drop_first(), rest, cur.push(s[0]));
        assert(cur.push(s[0]) + s.drop_first() =~= cur + s);
    }
}

/// Inside double quotes, text without `"` or `\\` is literal: quoting it gives
/// that text as one word (or nothing, for empty quotes).
pub proof fn law_double_quotes_literal(s: Seq<char>)
    requires
        forall|i: int| 0 <= i < s.len() ==> #[trigger] s[i] != '"' && s[i] != '\\',
    ensures
        tokenize_spec(seq!['"'] + s + seq!['"']) == Ok::<Seq<TokenView>, LexError>(flush(s)),
{
    let t = seq!['"'] + s + seq!['"'];
    assert(t[0] == '"');
    assert(t.drop_first() =~= s + seq!['"'] + Seq::<char>::empty());
    lemma_double_literal(s, Seq::empty(), Seq::empty());
    assert(Seq::<char>::empty() + s =~= s);
}

/// Inside double quotes, `\\"` and `\\\\` stand for `"` and `\\`.
pub proof fn law_double_quote_escapes(c: char)
    requires
        c == '"' || c == '\\',
    ensures
        tokenize_spec(seq!['"', '\\', c, '"']) == Ok::<Seq<TokenView>, LexError>(
            seq![(TokenKind::Word, seq![c])],
        ),
{
    let t = seq!['"', '\\', c, '"'];
    let e = Seq::<char>::empty();
    let u = seq!['\\', c, '"'];
    assert(t.drop_first() =~= u);
    assert(u.subrange(2, 3) =~= seq!['"']);
    assert(seq!['"'].drop_first() =~= e);
    assert(e.push(c) =~= seq![c]);
    assert(lex(t, e) == lex_double(u, e));
    assert(lex_double(u, e) == lex_double(seq!['"'], seq![c]));
    assert(lex_double(seq!['"'], seq![c]) == lex(e, seq![c]));
    assert(lex(e, seq![c]) == Ok::<Seq<TokenView>, LexError>(flush(seq![c])));
}

/// Outside quotes a backslash makes the next character, whatever it is, part of
/// the word.
pub proof fn law_backslash_escapes_any(c: char)
    ensures
        tokenize_spec(seq!['\\', c]) == Ok::<Seq<TokenView>, LexError>(
            seq![(TokenKind::Word, seq![c])],
        ),
{
    let t = seq!['\\', c];
    let e = Seq::<char>::empty();
    assert(t.subrange(2, 2) =~= e);
    assert(e.push(c) =~= seq![c]);
    assert(lex(t, e) == lex(e, seq![c]));
    assert(lex(e, seq![c]) == Ok::<Seq<TokenView>, LexError>(flush(seq![c])));
}

proof fn lemma_lex_concat(a: Seq<char>, b: Seq<char>, cur: Seq<char>)
    requires
        lex(a, cur) is Ok,
    ensures
        lex(a + seq![' '] + b, cur) == prepend(lex(a, cur)->Ok_0, lex(b, Seq::empty())),
    decreases a.len(), 1int,
{
    let t = seq![' '] + b;
    let s = a + t;
    assert(s =~= a + seq![' '] + b);
    if a.len() == 0 {
        assert(s =~= t);
        assert(t.drop_first() =~= b);
    } else {
        let c = a[0];
        assert(s[0] == c);
        assert(s.drop_first() =~= a.drop_first() + seq![' '] + b);
        if c == '\'' {
            lemma_single_concat(a.drop_first(), b, cur);
        } else if c == '"' {
            lemma_double_concat(a.drop_first(), b, cur);
        } else if c == '\\' {
            assert(a.len() > 1);
            assert(s[1] == a[1]);
            assert(s.subrange(2, s.len() as int) =~= a.subrange(2, a.len() as int) + seq![' '] + b);
            lemma_lex_concat(a.subrange(2, a.len() as int), b, cur.push(a[1]));
        } else if c == ' ' {
            let x = lex(a.drop_first(), Seq::empty());
            lemma_lex_concat(a.drop_first(), b, Seq::empty());
            lemma_prepend_assoc(flush(cur), x->Ok_0, lex(b, Seq::empty()));
        } else if c == '|' {
            let x = lex(a.drop_first(), Seq::empty());
            lemma_lex_concat(a.drop_first(), b, Seq::empty());
            lemma_prepend_assoc(
                flush(cur).push((TokenKind::Pipe, Seq::empty())),
                x->Ok_0,
                lex(b, Seq::empty()),
            );
        } else {
            if a.len() > 1 {
                assert(s[1] == a[1]);
            } else {
                assert(s[1] == ' ');
            }
            assert(starts_redirect(s) == starts_redirect(a));
            if starts_redirect(a) {
                let after = redirect_fd_len(a) + 1;
                assert(redirect_fd_len(s) == redirect_fd_len(a));
                if after < a.len() {
                    assert(s[after] == a[after]);
                } else {
                    assert(s[after] == ' ');
                }
                assert(redirect_appends(s) == redirect_appends(a));
                assert(redirect_len(s) == redirect_len(a));
                assert(redirect_kind(s) == redirect_kind(a));
                let k = redirect_len(a);
                assert(s.subrange(k, s.len() as int) =~= a.subrange(k, a.len() as int) + seq![' '] + b);
                let x = lex(a.subrange(k, a.len() as int), Seq::empty());
                lemma_lex_concat(a.subrange(k, a.len() as int), b, Seq::empty());
                lemma_prepend_assoc(
                    flush(cur).push((redirect_kind(a), Seq::empty())),
                    x->Ok_0,
                    lex(b, Seq::empty()),
                );
            } else {
                lemma_lex_concat(a.drop_first(), b, cur.push(c));
            }
        }
    }
}

proof fn lemma_single_concat(a: Seq<char>, b: Seq<char>, cur: Seq<char>)
    requires
        lex_single(a, cur) is Ok,
    ensures
        lex_single(a + seq![' '] + b, cur) == prepend(lex_single(a, cur)->Ok_0, lex(b, Seq::empty())),
    decreases a.len(), 0int,
{
    let t = seq![' '] + b;
    let s = a + t;
    assert(s =~= a + seq![' '] + b);
    assert(a.len() > 0);
    assert(s[0] == a[0]);
    assert(s.drop_first() =~= a.drop_first() + seq![' '] + b);
    if a[0] == '\'' {
        lemma_lex_concat(a.drop_first(), b, cur);
    } else {
        lemma_single_concat(a.drop_first(), b, cur.push(a[0]));
    }
}

proof fn lemma_double_concat(a: Seq<char>, b: Seq<char>, cur: Seq<char>)
    requires
        lex_double(a, cur) is Ok,
    ensures
        lex_double(a + seq![' '] + b, cur) == prepend(lex_double(a, cur)->Ok_0, lex(b, Seq::empty())),
    decreases a.len(), 0int,
{
    let t = seq![' '] + b;
    let s = a + t;
    assert(s =~= a + seq![' '] + b);
    assert(a.len() > 0);
    assert(s[0] == a[0]);
    assert(s.drop_first() =~= a.drop_first() + seq![' '] + b);
    if a.len() > 1 {
        assert(s[1] == a[1]);
    } else {
        assert(s[1] == ' ');
    }
    if a[0] == '"' {
        lemma_lex_concat(a.drop_first(), b, cur);
    } else if a[0] == '\\' && a.len() > 1 && (a[1] == '"' || a[1] == '\\') {
        assert(s.subrange(2, s.len() as int) =~= a.subrange(2, a.len() as int) + seq![' '] + b);
        lemma_double_concat(a.subrange(2, a.len() as int), b, cur.push(a[1]));
    } else {
        lemma_double_concat(a.drop_first(), b, cur.push(a[0]));
    }
}

/// Spaces split tokens: two command lines that tokenize, joined by a space,
/// give the first line's tokens followed by the second's (so a leading or
/// trailing space changes nothing).
pub proof fn law_space_joins_token_lists(a: Seq<char>, b: Seq<char>)
    requires
        tokenize_spec(a) is Ok,
        tokenize_spec(b) is Ok,
    ensures
        tokenize_spec(a + seq![' '] + b) == Ok::<Seq<TokenView>, LexError>(
            tokenize_spec(a)->Ok_0 + tokenize_spec(b)->Ok_0,
        ),
{
    lemma_lex_concat(a, b, Seq::empty());
}

} // verus!
