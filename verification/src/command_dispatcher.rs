use vstd::prelude::*;

use crate::external_command::ExternalCommand;
use crate::path_resolver::lookup_result;
use crate::redirect::{RedirectSpec, RedirectView, opt_view};
use crate::text::{contains_string, join, strings_view};
use crate::token::{Token, TokenKind};
use crate::tokenizer::{
    Tokenizer, TokenView, is_plain_word, law_plain_words_round_trip, lex_error_message, tokenize_spec,
    tokens_view, word_tokens,
};

verus! {

/// The words of a token list that name the command and its arguments: every word,
/// except that a token that is not a word is skipped together with the token
/// after it (the target of a redirection).
pub open spec fn words_of(ts: Seq<TokenView>) -> Seq<Seq<char>>
    decreases ts.len(),
{
    if ts.len() == 0 {
        Seq::empty()
    } else if ts[0].0 == TokenKind::Word {
        seq![ts[0].1] + words_of(ts.drop_first())
    } else if ts.len() < 2 {
        Seq::empty()
    } else {
        words_of(ts.subrange(2, ts.len() as int))
    }
}

/// No redirection.
pub open spec fn no_redirects() -> RedirectView {
    RedirectView { stdout_file: None, stdout_append: false, stderr_file: None, stderr_append: false }
}

/// `st` after a token of kind `kind` followed by the word `target`.
pub open spec fn apply_redirect(st: RedirectView, kind: TokenKind, target: Seq<char>) -> RedirectView {
    match kind {
        TokenKind::RedirectOut => RedirectView {
            stdout_file: Some(target),
            stdout_append: false,
            stderr_file: st.stderr_file,
            stderr_append: st.stderr_append,
        },
        TokenKind::RedirectAppend => RedirectView {
            stdout_file: Some(target),
            stdout_append: true,
            stderr_file: st.stderr_file,
            stderr_append: st.stderr_append,
        },
        TokenKind::RedirectErr => RedirectView {
            stdout_file: st.stdout_file,
            stdout_append: st.stdout_append,
            stderr_file: Some(target),
            stderr_append: false,
        },
        TokenKind::RedirectErrAppend => RedirectView {
            stdout_file: st.stdout_file,
            stdout_append: st.stdout_append,
            stderr_file: Some(target),
            stderr_append: true,
        },
        _ => st,
    }
}

/// The redirections of a token list, read from the front starting from `st`: a
/// token directly followed by a word takes that word as its target (and the word
/// is used up); of several redirections of one stream the last one counts.
pub open spec fn redirects_of(ts: Seq<TokenView>, st: RedirectView) -> RedirectView
    decreases ts.len(),
{
    if ts.len() == 0 {
        st
    } else if ts.len() >= 2 && ts[1].0 == TokenKind::Word {
        redirects_of(ts.subrange(2, ts.len() as int), apply_redirect(st, ts[0].0, ts[1].1))
    } else {
        redirects_of(ts.drop_first(), st)
    }
}

/// What to do with a command line.
pub enum Dispatch {
    /// Nothing to run.
    Nothing,
    /// Print this line and go on.
    Report(String),
    /// Run the builtin `name`.
    Builtin { name: String, args: Vec<String>, redirect: RedirectSpec },
    /// Run the program `command` of the search path.
    External { command: String, args: Vec<String>, redirect: RedirectSpec },
}

/// Decides, for each command line, which command runs with which arguments.
pub struct CommandDispatcher {
    builtins: Vec<String>,
    external_command: ExternalCommand,
}

impl CommandDispatcher {
    /// The names of the builtins.
    pub closed spec fn builtin_names(&self) -> Seq<Seq<char>> {
        strings_view(self.builtins@)
    }

    /// The runner of programs of the search path.
    pub closed spec fn external_spec(&self) -> ExternalCommand {
        self.external_command
    }

    /// A dispatcher for the builtins named `builtins` and for programs that
    /// `external_command` finds.
    pub fn new(builtins: Vec<String>, external_command: ExternalCommand) -> (r: CommandDispatcher)
        ensures
            r.builtin_names() == strings_view(builtins@),
            r.external_spec() == external_command,
    {
        CommandDispatcher { builtins, external_command }
    }

    /// Whether `name` is the name of a builtin.
    pub fn is_builtin(&self, name: &String) -> (r: bool)
        ensures
            r == self.builtin_names().contains(name@),
    {
        contains_string(self.builtins.as_slice(), name)
    }

    /// What `dispatch` answers for the command line `input` with the probe
    /// `is_executable`: see `dispatch`.
    pub open spec fn dispatched<F: Fn(&String) -> Option<String>>(
        &self,
        input: Seq<char>,
        is_executable: F,
        r: Dispatch,
    ) -> bool {
        match tokenize_spec(input) {
            Err(e) => r matches Dispatch::Report(m) && m@ == lex_error_message(e),
            Ok(ts) => {
                let words = words_of(ts);
                let red = redirects_of(ts, no_redirects());
                if words.len() == 0 {
                    r is Nothing
                } else if self.builtin_names().contains(words[0]) {
                    r matches Dispatch::Builtin { name, args, redirect } && name@ == words[0]
                        && strings_view(args@) == words.drop_first() && redirect@ == red
                } else {
                    exists|c: String, found: Option<String>|
                        c@ == words[0] && #[trigger] lookup_result(
                            is_executable,
                            self.external_spec().resolver_spec().dirs(),
                            c,
                            found,
                        ) && match found {
                            Some(_) => r matches Dispatch::External { command, args, redirect }
                                && command@ == words[0] && strings_view(args@)
                                == words.drop_first() && redirect@ == red,
                            None => r matches Dispatch::Report(m) && m@ == words[0]
                                + ": command not found"@,
                        }
                }
            },
        }
    }

    /// Decides what to do with the command line `input`: a syntax error is
    /// reported; a line without command words does nothing; the first word names
    /// a builtin, or else a program that `is_executable` finds in the search path
    /// (see `PathResolver::resolve`), or else it is reported as not found.
    pub fn dispatch<F: Fn(&String) -> Option<String>>(
        &self,
        input: &str,
        is_executable: F,
    ) -> (r: Dispatch)
        requires
            forall|f: &String| #[trigger] is_executable.requires((f,)),
        ensures
            self.dispatched(input@, is_executable, r),
    {
        let tokens = match Tokenizer::tokenize(input) {
            Ok(t) => t,
            Err(e) => {
                return Dispatch::Report(e);
            },
        };
        let redirect = Self::parse_redirects(tokens.as_slice());
        let words = Self::extract_words(tokens.as_slice());
        if words.len() == 0 {
            return Dispatch::Nothing;
        }
        let command = words[0].clone();
        let mut args: Vec<String> = Vec::new();
        let mut j: usize = 1;
        while j < words.len()
            invariant
                1 <= j <= words@.len(),
                strings_view(args@) == strings_view(words@).subrange(1, j as int),
            decreases words@.len() - j,
        {
            let ghost before = strings_view(args@);
            args.push(words[j].clone());
            j += 1;
            proof {
                assert(strings_view(args@) =~= before.push(words@[j - 1]@));
                assert(strings_view(words@).subrange(1, j as int) =~= strings_view(words@).subrange(
                    1,
                    j - 1,
                ).push(words@[j - 1]@));
            }
        }
        proof {
            assert(strings_view(words@).subrange(1, words@.len() as int) =~= strings_view(
                words@,
            ).drop_first());
        }
        if self.is_builtin(&command) {
            return Dispatch::Builtin { name: command, args, redirect };
        }
        let ghost dirs = self.external_command.resolver_spec().dirs();
        let ghost cmd = command;
        let runnable = self.external_command.can_run(&command, is_executable);
        let ghost found = choose|found: Option<String>|
            #[trigger] lookup_result(is_executable, dirs, cmd, found) && runnable == found is Some;
        let r = if runnable {
            Dispatch::External { command, args, redirect }
        } else {
            let mut message = command.clone();
            message.append(": command not found");
            Dispatch::Report(message)
        };
        proof {
            let words_v = strings_view(words@);
            let red = redirects_of(tokens_view(tokens@), no_redirects());
            assert(cmd@ == words_v[0]);
            assert(lookup_result(is_executable, self.external_spec().resolver_spec().dirs(), cmd, found));
            assert(found is Some ==> (r matches Dispatch::External { command, args, redirect }
                && command@ == words_v[0] && strings_view(args@) == words_v.drop_first()
                && redirect@ == red));
            assert(found is None ==> (r matches Dispatch::Report(m) && m@ == words_v[0]
                + ": command not found"@));
        }
        r
    }

    /// The command words of `tokens`: see `words_of`.
    pub fn extract_words(tokens: &[Token]) -> (words: Vec<String>)
        ensures
            strings_view(words@) == words_of(tokens_view(tokens@)),
    {
        let ghost ts = tokens_view(tokens@);
        let mut words: Vec<String> = Vec::new();
        let mut i: usize = 0;
        proof {
            assert(ts.subrange(0, ts.len() as int) =~= ts);
            assert(strings_view(words@) =~= Seq::empty());
        }
        while i < tokens.len()
            invariant
                i <= tokens@.len(),
                ts == tokens_view(tokens@),
                words_of(ts) == strings_view(words@) + words_of(ts.subrange(i as int, ts.len() as int)),
            decreases tokens@.len() - i,
        {
            let ghost rest = ts.subrange(i as int, ts.len() as int);
            if tokens[i].kind == TokenKind::Word {
                let ghost before = strings_view(words@);
                words.push(tokens[i].value.clone());
                i += 1;
                proof {
                    assert(rest.drop_first() =~= ts.subrange(i as int, ts.len() as int));
                    assert(strings_view(words@) =~= before.push(rest[0].1));
                    assert(before + words_of(rest) =~= strings_view(words@) + words_of(
                        rest.drop_first(),
                    ));
                }
            } else if i + 1 < tokens.len() {
                i += 2;
                proof {
                    assert(rest.subrange(2, rest.len() as int) =~= ts.subrange(i as int, ts.len() as int));
                }
            } else {
                i = tokens.len();
                proof {
                    assert(ts.subrange(i as int, ts.len() as int) =~= Seq::empty());
                    assert(strings_view(words@) + Seq::<Seq<char>>::empty() =~= strings_view(words@));
                }
            }
        }
        proof {
            assert(ts.subrange(i as int, ts.len() as int) =~= Seq::empty());
            assert(strings_view(words@) + Seq::<Seq<char>>::empty() =~= strings_view(words@));
        }
        words
    }

    /// The redirections of `tokens`: see `redirects_of`.
    pub fn parse_redirects(tokens: &[Token]) -> (r: RedirectSpec)
        ensures
            r@ == redirects_of(tokens_view(tokens@), no_redirects()),
    {
        let ghost ts = tokens_view(tokens@);
        let mut stdout_file: Option<String> = None;
        let mut stdout_append = false;
        let mut stderr_file: Option<String> = None;
        let mut stderr_append = false;
        let mut i: usize = 0;
        proof {
            assert(ts.subrange(0, ts.len() as int) =~= ts);
        }
        while i < tokens.len()
            invariant
                i <= tokens@.len(),
                ts == tokens_view(tokens@),
                redirects_of(ts, no_redirects()) == redirects_of(
                    ts.subrange(i as int, ts.len() as int),
                    RedirectView {
                        stdout_file: opt_view(stdout_file),
                        stdout_append,
                        stderr_file: opt_view(stderr_file),
                        stderr_append,
                    },
                ),
            decreases tokens@.len() - i,
        {
            let ghost rest = ts.subrange(i as int, ts.len() as int);
            let kind = tokens[i].kind;
            if i + 1 < tokens.len() && tokens[i + 1].kind == TokenKind::Word {
                let target = tokens[i + 1].value.clone();
                match kind {
                    TokenKind::RedirectOut => {
                        stdout_file = Some(target);
                        stdout_append = false;
                    },
                    TokenKind::RedirectAppend => {
                        stdout_file = Some(target);
                        stdout_append = true;
                    },
                    TokenKind::RedirectErr => {
                        stderr_file = Some(target);
                        stderr_append = false;
                    },
                    TokenKind::RedirectErrAppend => {
                        stderr_file = Some(target);
                        stderr_append = true;
                    },
                    _ => {},
                }
                i += 2;
                proof {
                    assert(rest.subrange(2, rest.len() as int) =~= ts.subrange(i as int, ts.len() as int));
                }
            } else {
                i += 1;
                proof {
                    assert(rest.drop_first() =~= ts.subrange(i as int, ts.len() as int));
                }
            }
        }
        proof {
            assert(ts.subrange(i as int, ts.len() as int) =~= Seq::empty());
        }
        RedirectSpec { stdout_file, stdout_append, stderr_file, stderr_append }
    }
}

proof fn lemma_redirects_append(ts: Seq<TokenView>, tail: Seq<TokenView>, st: RedirectView)
    requires
        tail.len() > 0,
        tail[0].0 != TokenKind::Word,
    ensures
        redirects_of(ts + tail, st) == redirects_of(tail, redirects_of(ts, st)),
    decreases ts.len(),
{
    let all = ts + tail;
    if ts.len() == 0 {
        assert(all =~= tail);
    } else if ts.len() == 1 {
        assert(all[1] == tail[0]);
        assert(all.drop_first() =~= tail);
        assert(redirects_of(ts.drop_first(), st) == st);
    } else if ts[1].0 == TokenKind::Word {
        assert(all[1] == ts[1]);
        assert(all.subrange(2, all.len() as int) =~= ts.subrange(2, ts.len() as int) + tail);
        lemma_redirects_append(ts.subrange(2, ts.len() as int), tail, apply_redirect(st, ts[0].0, ts[1].1));
    } else {
        assert(all[1] == ts[1]);
        assert(all.drop_first() =~= ts.drop_first() + tail);
        lemma_redirects_append(ts.drop_first(), tail, st);
    }
}

/// Of several redirections of a stream the last one counts: a redirection
/// operator and its target at the end of any token list set that stream.
pub proof fn law_last_redirect_wins(ts: Seq<TokenView>, op: TokenKind, target: Seq<char>)
    requires
        op != TokenKind::Word,
    ensures
        redirects_of(ts + seq![(op, Seq::<char>::empty()), (TokenKind::Word, target)], no_redirects())
            == apply_redirect(redirects_of(ts, no_redirects()), op, target),
{
    let tail = seq![(op, Seq::<char>::empty()), (TokenKind::Word, target)];
    lemma_redirects_append(ts, tail, no_redirects());
    let st = redirects_of(ts, no_redirects());
    assert(tail.subrange(2, 2) =~= Seq::<TokenView>::empty());
    assert(redirects_of(tail, st) == redirects_of(tail.subrange(2, 2), apply_redirect(st, op, target)));
}

proof fn lemma_words_after_words(ws: Seq<Seq<char>>, tail: Seq<TokenView>)
    ensures
        words_of(ws.map_values(|w: Seq<char>| (TokenKind::Word, w)) + tail) == ws + words_of(tail),
    decreases ws.len(),
{
    let wt = ws.map_values(|w: Seq<char>| (TokenKind::Word, w));
    if ws.len() == 0 {
        assert(wt + tail =~= tail);
        assert(ws + words_of(tail) =~= words_of(tail));
    } else {
        let all = wt + tail;
        assert(all[0] == (TokenKind::Word, ws[0]));
        assert(all.drop_first() =~= ws.drop_first().map_values(|w: Seq<char>| (TokenKind::Word, w)) + tail);
        lemma_words_after_words(ws.drop_first(), tail);
        assert(seq![ws[0]] + (ws.drop_first() + words_of(tail)) =~= ws + words_of(tail));
    }
}

/// A redirection operator and its target are not command words: after a
/// command and its arguments, `op target` adds no word, whatever follows.
pub proof fn law_redirect_target_not_a_word(
    ws: Seq<Seq<char>>,
    op: TokenKind,
    target: Seq<char>,
    rest: Seq<TokenView>,
)
    requires
        op != TokenKind::Word,
    ensures
        words_of(
            ws.map_values(|w: Seq<char>| (TokenKind::Word, w)) + (seq![
                (op, Seq::<char>::empty()),
                (TokenKind::Word, target),
            ] + rest),
        ) == ws + words_of(rest),
{
    let tail = seq![(op, Seq::<char>::empty()), (TokenKind::Word, target)] + rest;
    lemma_words_after_words(ws, tail);
    assert(tail.subrange(2, tail.len() as int) =~= rest);
}

/// What each redirection operator does, whatever comes before it: `>` and `1>`
/// send standard output to the target, truncating; `>>` and `1>>` append to it;
/// `2>` and `2>>` do the same for standard error; the other stream keeps what
/// the earlier tokens gave it.
pub proof fn law_redirect_operators(ts: Seq<TokenView>, op: TokenKind, target: Seq<char>)
    requires
        op != TokenKind::Word,
    ensures
        ({
            let before = redirects_of(ts, no_redirects());
            let after = redirects_of(
                ts + seq![(op, Seq::<char>::empty()), (TokenKind::Word, target)],
                no_redirects(),
            );
            &&& op == TokenKind::RedirectOut ==> after.stdout_file == Some(target)
                && !after.stdout_append && after.stderr_file == before.stderr_file
                && after.stderr_append == before.stderr_append
            &&& op == TokenKind::RedirectAppend ==> after.stdout_file == Some(target)
                && after.stdout_append && after.stderr_file == before.stderr_file
                && after.stderr_append == before.stderr_append
            &&& op == TokenKind::RedirectErr ==> after.stderr_file == Some(target)
                && !after.stderr_append && after.stdout_file == before.stdout_file
                && after.stdout_append == before.stdout_append
            &&& op == TokenKind::RedirectErrAppend ==> after.stderr_file == Some(target)
                && after.stderr_append && after.stdout_file == before.stdout_file
                && after.stdout_append == before.stdout_append
        }),
{
    law_last_redirect_wins(ts, op, target);
}

/// A pipe is no redirection: a pipe and the word after it leave both streams
/// as the earlier tokens set them.
pub proof fn law_pipe_redirects_nothing(ts: Seq<TokenView>, target: Seq<char>)
    ensures
        redirects_of(
            ts + seq![(TokenKind::Pipe, Seq::<char>::empty()), (TokenKind::Word, target)],
            no_redirects(),
        ) == redirects_of(ts, no_redirects()),
{
    law_last_redirect_wins(ts, TokenKind::Pipe, target);
}

/// A line without redirection operators redirects nothing.
pub proof fn law_no_operator_no_redirect(ts: Seq<TokenView>)
    requires
        forall|i: int|
            0 <= i < ts.len() ==> (#[trigger] ts[i]).0 == TokenKind::Word || ts[i].0
                == TokenKind::Pipe,
    ensures
        redirects_of(ts, no_redirects()) == no_redirects(),
    decreases ts.len(),
{
    lemma_no_operator_from(ts, no_redirects());
}

proof fn lemma_no_operator_from(ts: Seq<TokenView>, st: RedirectView)
    requires
        forall|i: int|
            0 <= i < ts.len() ==> (#[trigger] ts[i]).0 == TokenKind::Word || ts[i].0
                == TokenKind::Pipe,
    ensures
        redirects_of(ts, st) == st,
    decreases ts.len(),
{
    if ts.len() == 0 {
    } else if ts.len() >= 2 && ts[1].0 == TokenKind::Word {
        let rest = ts.subrange(2, ts.len() as int);
        assert forall|i: int| 0 <= i < rest.len() implies (#[trigger] rest[i]).0 == TokenKind::Word
            || rest[i].0 == TokenKind::Pipe by {
            assert(rest[i] == ts[i + 2]);
        }
        assert(ts[0].0 == TokenKind::Word || ts[0].0 == TokenKind::Pipe);
        lemma_no_operator_from(rest, st);
    } else {
        let rest = ts.drop_first();
        assert forall|i: int| 0 <= i < rest.len() implies (#[trigger] rest[i]).0 == TokenKind::Word
            || rest[i].0 == TokenKind::Pipe by {
            assert(rest[i] == ts[i + 1]);
        }
        lemma_no_operator_from(rest, st);
    }
}

/// A builtin named on a line of plain words runs with the other words as its
/// arguments and with no redirection.
pub proof fn law_plain_builtin_line<F: Fn(&String) -> Option<String>>(
    d: CommandDispatcher,
    ws: Seq<Seq<char>>,
    probe: F,
    r: Dispatch,
)
    requires
        ws.len() >= 1,
        forall|i: int| 0 <= i < ws.len() ==> is_plain_word(#[trigger] ws[i]),
        d.builtin_names().contains(ws[0]),
        d.dispatched(join(ws, " "@), probe, r),
    ensures
        r matches Dispatch::Builtin { name, args, redirect } && name@ == ws[0] && strings_view(
            args@,
        ) == ws.drop_first() && redirect@ == no_redirects(),
{
    law_plain_words_round_trip(ws);
    let ts = word_tokens(ws);
    lemma_words_after_words(ws, Seq::empty());
    assert(ws.map_values(|w: Seq<char>| (TokenKind::Word, w)) + Seq::<TokenView>::empty() =~= ts);
    assert(ws + Seq::<Seq<char>>::empty() =~= ws);
    assert forall|i: int| 0 <= i < ts.len() implies (#[trigger] ts[i]).0 == TokenKind::Word
        || ts[i].0 == TokenKind::Pipe by {}
    law_no_operator_no_redirect(ts);
}

} // verus!
