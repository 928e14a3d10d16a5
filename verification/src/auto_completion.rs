use vstd::prelude::*;

use crate::builtins::complete::CompletionSpecs;
use crate::string_set::{StringSet, strictly_sorted};
use crate::tokenizer::quote_end;
use crate::text::{
    is_space, is_whitespace, trim_start, trimmed_end_len, trimmed_start, chars_eq, chars_of, chars_start_with, join, join_strings, slice_chars, starts_with,
    string_of, strings_view, trim, trim_chars, trim_end, trim_end_char, trim_end_char_chars,
    trim_end_chars,
};

verus! {

/// Whether every one of `others`, trimmed, starts with the first `k - 1`
/// characters of `first`, trimmed.
pub open spec fn prefix_shared(first: Seq<char>, others: Seq<Seq<char>>, k: int) -> bool {
    forall|i: int| 0 <= i < others.len() ==> starts_with(trim(#[trigger] others[i]), trim(first).take(k - 1))
}

/// The largest `j` in `1..=k` for which `prefix_shared(first, others, j)` holds (or
/// `k` itself when `k` is below 1).
pub open spec fn shared_len(first: Seq<char>, others: Seq<Seq<char>>, k: int) -> int
    decreases k,
{
    if k <= 1 || prefix_shared(first, others, k) {
        k
    } else {
        shared_len(first, others, k - 1)
    }
}

/// What `longest_common_prefix` computes for the sorted matches `ms`: nothing for
/// no match; otherwise the first `k` characters of the first match, for the
/// largest `k` up to its length such that every other match, trimmed, starts with
/// the first `k - 1` characters of the first match, trimmed. (As the matches end
/// with a space or a `/` that the comparison leaves out, this is the common
/// prefix followed by the next character of the first match.)
pub open spec fn lcp_spec(ms: Seq<Seq<char>>) -> Seq<char> {
    if ms.len() == 0 {
        Seq::empty()
    } else {
        ms[0].take(shared_len(ms[0], ms.drop_first(), ms[0].len() as int))
    }
}

/// The inputs on which `longest_common_prefix` stays within its strings: with two
/// matches or more, the first is not empty and trimming takes at most one
/// character off it.
pub open spec fn lcp_defined(ms: Seq<Seq<char>>) -> bool {
    ms.len() >= 2 ==> ms[0].len() >= 1 && ms[0].len() - 1 <= trim(ms[0]).len()
}

proof fn lemma_prefix_shorter(t: Seq<char>, p: Seq<char>, a: int, b: int)
    requires
        0 <= b <= a <= p.len(),
        starts_with(t, p.take(a)),
    ensures
        starts_with(t, p.take(b)),
{
    assert(t.subrange(0, b) =~= t.subrange(0, a).take(b));
    assert(p.take(b) =~= p.take(a).take(b));
}

proof fn lemma_shared_len(first: Seq<char>, others: Seq<Seq<char>>, k: int, r: int)
    requires
        1 <= r <= k,
        prefix_shared(first, others, r),
        forall|j: int| r < j <= k ==> !#[trigger] prefix_shared(first, others, j),
    ensures
        shared_len(first, others, k) == r,
    decreases k,
{
    if k > r {
        lemma_shared_len(first, others, k - 1, r);
    }
}

/// One line that the completer offers: what is shown, and what replaces the word.
pub struct Candidate {
    pub display: String,
    pub replacement: String,
}

/// What one completion request answers.
pub struct CompletionReply {
    /// Where the replaced word starts, in characters.
    pub start: usize,
    /// The candidates offered.
    pub candidates: Vec<Candidate>,
    /// How many times the terminal bell rings.
    pub bells: usize,
    /// A listing of all matches to print on a line of its own, if any.
    pub listing: Option<String>,
}

/// A reply as the specification sees it.
pub struct ReplyView {
    pub candidates: Seq<(Seq<char>, Seq<char>)>,
    pub bells: nat,
    pub listing: Option<Seq<char>>,
}

/// The candidates' texts.
pub open spec fn candidates_view(cs: Seq<Candidate>) -> Seq<(Seq<char>, Seq<char>)> {
    cs.map_values(|c: Candidate| (c.display@, c.replacement@))
}

impl CompletionReply {
    /// The reply without its start position.
    pub open spec fn spec_reply(&self) -> ReplyView {
        ReplyView {
            candidates: candidates_view(self.candidates@),
            bells: self.bells as nat,
            listing: match self.listing {
                Some(l) => Some(l@),
                None => None,
            },
        }
    }
}

/// What the completer remembers between two requests: the word of the last
/// ambiguous request and how many times in a row it was asked.
pub struct TabView {
    pub last: Seq<char>,
    pub count: nat,
}

/// One completion request, given the sorted matches `ms` for the word `word`:
/// no match rings the bell; one match is offered; several matches are narrowed to
/// their common prefix when that adds something to the word; otherwise the first
/// request rings the bell and a second request in a row on the same word lists
/// all the matches.
pub open spec fn apply_spec(st: TabView, ms: Seq<Seq<char>>, word: Seq<char>) -> (TabView, ReplyView) {
    if ms.len() == 0 {
        (st, ReplyView { candidates: Seq::empty(), bells: 1, listing: None })
    } else if ms.len() == 1 {
        (
            TabView { last: Seq::empty(), count: 0 },
            ReplyView { candidates: seq![(ms[0], ms[0])], bells: 0, listing: None },
        )
    } else {
        let lcp = lcp_spec(ms);
        if trim_end_char(trim_end(lcp), '/') != trim_end_char(trim_end(word), '/') && lcp.len()
            > 0 {
            (st, ReplyView { candidates: seq![(trim_end(lcp), lcp)], bells: 0, listing: None })
        } else {
            let count = if st.last == word {
                st.count + 1
            } else {
                1
            };
            if count == 1 {
                (
                    TabView { last: word, count: 1 },
                    ReplyView { candidates: Seq::empty(), bells: 1, listing: None },
                )
            } else {
                (
                    TabView { last: Seq::empty(), count: 0 },
                    ReplyView {
                        candidates: seq![(word, word)],
                        bells: 0,
                        listing: Some(join(ms, "  "@)),
                    },
                )
            }
        }
    }
}

struct TabState {
    last_line: String,
    count: usize,
}

/// Completes commands, file names and registered arguments on the command line.
pub struct Completion {
    builtin_commands: Vec<String>,
    path_executables: Vec<String>,
    tab_state: TabState,
}

impl Completion {
    #[verifier::type_invariant]
    closed spec fn count_small(self) -> bool {
        self.tab_state.count <= 1
    }

    /// What the completer remembers between requests.
    pub closed spec fn tab(&self) -> TabView {
        TabView { last: self.tab_state.last_line@, count: self.tab_state.count as nat }
    }

    /// The builtin names that complete a command.
    pub closed spec fn builtin_names(&self) -> Seq<Seq<char>> {
        strings_view(self.builtin_commands@)
    }

    /// The program names that complete a command.
    pub closed spec fn executable_names(&self) -> Seq<Seq<char>> {
        strings_view(self.path_executables@)
    }

    /// A completer for the builtins `builtin_commands` and the programs
    /// `path_executables`, that remembers nothing yet.
    pub fn new(builtin_commands: Vec<String>, path_executables: Vec<String>) -> (r: Completion)
        ensures
            r.builtin_names() == strings_view(builtin_commands@),
            r.executable_names() == strings_view(path_executables@),
            r.tab() == (TabView { last: Seq::empty(), count: 0 }),
    {
        Completion {
            builtin_commands,
            path_executables,
            tab_state: TabState { last_line: String::new(), count: 0 },
        }
    }

    /// See `lcp_spec`.
    pub fn longest_common_prefix(&self, matches: &StringSet) -> (r: String)
        requires
            lcp_defined(matches@),
        ensures
            r@ == lcp_spec(matches@),
    {
        let items = matches.items();
        if items.len() == 0 {
            return String::new();
        }
        let lcp = chars_of(items[0].as_str());
        let lcp_trim = trim_chars(lcp.as_slice());
        let ghost first = items@[0]@;
        let ghost others = strings_view(items@).drop_first();
        let n = lcp.len();
        let mut len = n;
        let mut i: usize = 1;
        proof {
            assert(others.take(0) =~= Seq::<Seq<char>>::empty());
        }
        while i < items.len()
            invariant
                1 <= i <= items@.len(),
                strings_view(items@) == matches@,
                lcp_defined(matches@),
                first == matches@[0],
                others == matches@.drop_first(),
                lcp@ == first,
                lcp_trim@ == trim(first),
                n == first.len(),
                items@.len() >= 2 ==> 1 <= len <= n,
                items@.len() < 2 ==> len == n,
                prefix_shared(first, others.take(i - 1), len as int),
                forall|j: int| len < j <= n ==> !#[trigger] prefix_shared(first, others.take(i - 1), j),
            decreases items@.len() - i,
        {
            let val = trim_chars(chars_of(items[i].as_str()).as_slice());
            let ghost prev = others.take(i - 1);
            let ghost cur = others.take(i as int);
            proof {
                assert(cur =~= prev.push(items@[i as int]@));
                assert forall|j: int| len < j <= n implies !#[trigger] prefix_shared(first, cur, j) by {
                    if prefix_shared(first, cur, j) {
                        assert forall|k: int| 0 <= k < prev.len() implies starts_with(
                            trim(#[trigger] prev[k]),
                            trim(first).take(j - 1),
                        ) by {
                            assert(prev[k] == cur[k]);
                        }
                        assert(prefix_shared(first, prev, j));
                    }
                }
            }
            while !chars_start_with(val.as_slice(), slice_chars(lcp_trim.as_slice(), 0, len - 1).as_slice())
                invariant
                    1 <= len <= n,
                    n - 1 <= lcp_trim@.len(),
                    lcp_trim@ == trim(first),
                    val@ == trim(cur.last()),
                    cur == prev.push(cur.last()),
                    prefix_shared(first, prev, len as int),
                    forall|j: int| len < j <= n ==> !#[trigger] prefix_shared(first, cur, j),
                decreases len,
            {
                proof {
                    assert(lcp_trim@.subrange(0, len - 1) =~= trim(first).take(len - 1));
                    if len == 1 {
                        assert(lcp_trim@.subrange(0, 0) =~= Seq::<char>::empty());
                        assert(val@.subrange(0, 0) =~= Seq::<char>::empty());
                    }
                    assert(!prefix_shared(first, cur, len as int)) by {
                        assert(cur[cur.len() - 1] == cur.last());
                    }
                    assert(prefix_shared(first, prev, len - 1)) by {
                        assert forall|k: int| 0 <= k < prev.len() implies starts_with(
                            trim(#[trigger] prev[k]),
                            trim(first).take(len - 2),
                        ) by {
                            lemma_prefix_shorter(trim(prev[k]), trim(first), len - 1, len - 2);
                        }
                    }
                }
                len -= 1;
                if len == 0 {
                    return String::new();
                }
            }
            proof {
                assert(lcp_trim@.subrange(0, len - 1) =~= trim(first).take(len - 1));
                assert forall|k: int| 0 <= k < cur.len() implies starts_with(
                    trim(#[trigger] cur[k]),
                    trim(first).take(len - 1),
                ) by {
                    if k < prev.len() {
                        assert(cur[k] == prev[k]);
                    }
                }
                assert(others.take(i + 1 - 1) == cur);
            }
            i += 1;
        }
        proof {
            assert(others.take(i - 1) =~= others);
            if items@.len() < 2 {
                assert(others.len() == 0);
                assert(shared_len(first, others, n as int) == n);
            } else {
                lemma_shared_len(first, others, n as int, len as int);
            }
        }
        string_of(slice_chars(lcp.as_slice(), 0, len).as_slice())
    }
}

impl Completion {
    /// Answers one completion request for `current_word`, which starts at `start`,
    /// given its sorted matches: see `apply_spec`.
    pub fn apply_completion_logic(
        &mut self,
        unique_matches: &StringSet,
        start: usize,
        current_word: &str,
    ) -> (r: CompletionReply)
        requires
            lcp_defined(unique_matches@),
        ensures
            r.start == start,
            (final(self).tab(), r.spec_reply()) == apply_spec(
                old(self).tab(),
                unique_matches@,
                current_word@,
            ),
            final(self).builtin_names() == old(self).builtin_names(),
            final(self).executable_names() == old(self).executable_names(),
    {
        proof {
            use_type_invariant(&*self);
        }
        let lcp = self.longest_common_prefix(unique_matches);
        let items = unique_matches.items();
        let n = items.len();
        if n == 0 {
            let r = CompletionReply { start, candidates: Vec::new(), bells: 1, listing: None };
            assert(candidates_view(r.candidates@) =~= Seq::empty());
            return r;
        }
        if n == 1 {
            self.tab_state = TabState { last_line: String::new(), count: 0 };
            let mut candidates: Vec<Candidate> = Vec::new();
            candidates.push(
                Candidate { display: items[0].clone(), replacement: items[0].clone() },
            );
            let r = CompletionReply { start, candidates, bells: 0, listing: None };
            assert(candidates_view(r.candidates@) =~= seq![(unique_matches@[0], unique_matches@[0])]);
            return r;
        }
        let lcp_chars = chars_of(lcp.as_str());
        let word_chars = chars_of(current_word);
        let lcp_end = trim_end_chars(lcp_chars.as_slice());
        let lcp_key = trim_end_char_chars(lcp_end.as_slice(), '/');
        let word_key = trim_end_char_chars(trim_end_chars(word_chars.as_slice()).as_slice(), '/');
        if !chars_eq(lcp_key.as_slice(), word_key.as_slice()) && lcp_chars.len() > 0 {
            let mut candidates: Vec<Candidate> = Vec::new();
            candidates.push(Candidate { display: string_of(lcp_end.as_slice()), replacement: lcp });
            let r = CompletionReply { start, candidates, bells: 0, listing: None };
            assert(candidates_view(r.candidates@) =~= seq![(trim_end(lcp_spec(unique_matches@)), lcp_spec(unique_matches@))]);
            return r;
        }
        let same = chars_eq(chars_of(self.tab_state.last_line.as_str()).as_slice(), word_chars.as_slice());
        let count = if same {
            self.tab_state.count + 1
        } else {
            1
        };
        if count == 1 {
            self.tab_state = TabState { last_line: string_of(word_chars.as_slice()), count: 1 };
            let r = CompletionReply { start, candidates: Vec::new(), bells: 1, listing: None };
            assert(candidates_view(r.candidates@) =~= Seq::empty());
            r
        } else {
            self.tab_state = TabState { last_line: String::new(), count: 0 };
            let listing = join_strings(items.as_slice(), "  ");
            let mut candidates: Vec<Candidate> = Vec::new();
            candidates.push(
                Candidate {
                    display: string_of(word_chars.as_slice()),
                    replacement: string_of(word_chars.as_slice()),
                },
            );
            let r = CompletionReply { start, candidates, bells: 0, listing: Some(listing) };
            assert(candidates_view(r.candidates@) =~= seq![(current_word@, current_word@)]);
            r
        }
    }
}

/// The images under `f` of the elements of `xs` that `keep` accepts.
pub open spec fn image_set<A>(
    xs: Seq<A>,
    keep: spec_fn(A) -> bool,
    f: spec_fn(A) -> Seq<char>,
) -> Set<Seq<char>> {
    Set::new(
        |s: Seq<char>| exists|i: int| #![trigger xs[i]] 0 <= i < xs.len() && keep(xs[i]) && s == f(xs[i]),
    )
}

/// No element, no image.
pub proof fn lemma_image_set_empty<A>(xs: Seq<A>, keep: spec_fn(A) -> bool, f: spec_fn(A) -> Seq<char>)
    ensures
        image_set(xs.take(0), keep, f) == Set::<Seq<char>>::empty(),
{
    assert(image_set(xs.take(0), keep, f) =~= Set::<Seq<char>>::empty());
}

/// Taking one more element adds its image, if `keep` accepts it.
pub proof fn lemma_image_set_step<A>(
    xs: Seq<A>,
    keep: spec_fn(A) -> bool,
    f: spec_fn(A) -> Seq<char>,
    i: int,
)
    requires
        0 <= i < xs.len(),
    ensures
        image_set(xs.take(i + 1), keep, f) == if keep(xs[i]) {
            image_set(xs.take(i), keep, f).insert(f(xs[i]))
        } else {
            image_set(xs.take(i), keep, f)
        },
{
    let next = image_set(xs.take(i + 1), keep, f);
    let prev = image_set(xs.take(i), keep, f);
    let want = if keep(xs[i]) {
        prev.insert(f(xs[i]))
    } else {
        prev
    };
    assert forall|x: Seq<char>| #[trigger] next.contains(x) == want.contains(x) by {
        if next.contains(x) {
            let k = choose|k: int|
                #![trigger xs.take(i + 1)[k]]
                0 <= k < xs.take(i + 1).len() && keep(xs.take(i + 1)[k]) && x == f(xs.take(i + 1)[k]);
            if k < i {
                assert(xs.take(i)[k] == xs.take(i + 1)[k]);
            }
        }
        if prev.contains(x) {
            let k = choose|k: int|
                #![trigger xs.take(i)[k]]
                0 <= k < xs.take(i).len() && keep(xs.take(i)[k]) && x == f(xs.take(i)[k]);
            assert(xs.take(i + 1)[k] == xs.take(i)[k]);
        }
        if keep(xs[i]) && x == f(xs[i]) {
            assert(xs.take(i + 1)[i] == xs[i]);
        }
    }
    assert(next =~= want);
}

/// The command completions of `word` among `names`: each name that starts with
/// `word`, followed by a space.
pub open spec fn command_set(names: Seq<Seq<char>>, word: Seq<char>) -> Set<Seq<char>> {
    image_set(names, |n: Seq<char>| starts_with(n, word), |n: Seq<char>| n.push(' '))
}

/// The completions that a script printed as `lines`: each line, trimmed, that is
/// not empty, followed by a space.
pub open spec fn script_set(lines: Seq<Seq<char>>) -> Set<Seq<char>> {
    image_set(lines, |l: Seq<char>| trim(l).len() > 0, |l: Seq<char>| trim(l).push(' '))
}

/// Whether the entry name `name` is kept when completing `file_part`.
pub open spec fn file_wanted(file_part: Option<Seq<char>>, name: Seq<char>) -> bool {
    match file_part {
        Some(f) => starts_with(name, f),
        None => true,
    }
}

/// The file completions among the directory entries `entries` (name, whether a
/// directory): each entry whose name starts with `file_part`, if there is one,
/// written after `prefix` and followed by `/` for a directory or a space otherwise.
pub open spec fn file_set(
    prefix: Seq<char>,
    file_part: Option<Seq<char>>,
    entries: Seq<(Seq<char>, bool)>,
) -> Set<Seq<char>> {
    image_set(
        entries,
        |e: (Seq<char>, bool)| file_wanted(file_part, e.0),
        |e: (Seq<char>, bool)| file_entry(prefix, e),
    )
}

/// The completion for one directory entry.
pub open spec fn file_entry(prefix: Seq<char>, entry: (Seq<char>, bool)) -> Seq<char> {
    prefix + entry.0 + if entry.1 {
        seq!['/']
    } else {
        seq![' ']
    }
}

/// The texts of directory entries.
pub open spec fn entries_view(es: Seq<(String, bool)>) -> Seq<(Seq<char>, bool)> {
    es.map_values(|e: (String, bool)| (e.0@, e.1))
}

impl Completion {
    fn add_command_matches(set: &mut StringSet, names: &Vec<String>, word: &[char])
        ensures
            final(set)@.to_set() == old(set)@.to_set() + command_set(strings_view(names@), word@),
            strictly_sorted(final(set)@),
    {
        let ghost ns = strings_view(names@);
        let ghost base = set@.to_set();
        let mut i: usize = 0;
        proof {
            lemma_image_set_empty(ns, |n: Seq<char>| starts_with(n, word@), |n: Seq<char>| n.push(' '));
            assert(base + Set::empty() =~= base);
        }
        while i < names.len()
            invariant
                i <= names@.len(),
                ns == strings_view(names@),
                set@.to_set() == base + command_set(ns.take(i as int), word@),
            decreases names@.len() - i,
        {
            let name = chars_of(names[i].as_str());
            if chars_start_with(name.as_slice(), word) {
                let mut entry = names[i].clone();
                crate::text::push_char(&mut entry, ' ');
                set.insert(entry);
            }
            proof {
                lemma_image_set_step(ns, |n: Seq<char>| starts_with(n, word@), |n: Seq<char>| n.push(' '), i as int);
                assert(set@.to_set() =~= base + command_set(ns.take(i + 1), word@));
            }
            i += 1;
        }
        proof {
            assert(ns.take(names@.len() as int) =~= ns);
            use_type_invariant(&*set);
            StringSet::lemma_sorted(*set);
        }
    }
}

impl Completion {
    /// The sorted completions of the command word `current_word`: every builtin
    /// and every program whose name starts with it, followed by a space.
    pub fn command_matches(&self, current_word: &str) -> (r: StringSet)
        ensures
            r@.to_set() == command_set(self.builtin_names(), current_word@) + command_set(
                self.executable_names(),
                current_word@,
            ),
            strictly_sorted(r@),
    {
        let word = chars_of(current_word);
        let mut set = StringSet::new();
        proof {
            assert(set@.to_set() =~= Set::empty());
        }
        Self::add_command_matches(&mut set, &self.builtin_commands, word.as_slice());
        Self::add_command_matches(&mut set, &self.path_executables, word.as_slice());
        proof {
            assert(Set::<Seq<char>>::empty() + command_set(self.builtin_names(), current_word@)
                =~= command_set(self.builtin_names(), current_word@));
        }
        set
    }

    /// The sorted completions that a completion script printed as `lines`: see
    /// `script_set`.
    pub fn script_matches(lines: &[String]) -> (r: StringSet)
        ensures
            r@.to_set() == script_set(strings_view(lines@)),
            strictly_sorted(r@),
    {
        let ghost ls = strings_view(lines@);
        let mut set = StringSet::new();
        let mut i: usize = 0;
        proof {
            assert(set@.to_set() =~= Set::empty());
            lemma_image_set_empty(ls, |l: Seq<char>| trim(l).len() > 0, |l: Seq<char>| trim(l).push(' '));
        }
        while i < lines.len()
            invariant
                i <= lines@.len(),
                ls == strings_view(lines@),
                set@.to_set() == script_set(ls.take(i as int)),
            decreases lines@.len() - i,
        {
            let trimmed = trim_chars(chars_of(lines[i].as_str()).as_slice());
            if trimmed.len() > 0 {
                let mut entry = string_of(trimmed.as_slice());
                crate::text::push_char(&mut entry, ' ');
                set.insert(entry);
            }
            proof {
                lemma_image_set_step(ls, |l: Seq<char>| trim(l).len() > 0, |l: Seq<char>| trim(l).push(' '), i as int);
                assert(set@.to_set() =~= script_set(ls.take(i + 1)));
            }
            i += 1;
        }
        proof {
            assert(ls.take(lines@.len() as int) =~= ls);
            use_type_invariant(&set);
            StringSet::lemma_sorted(set);
        }
        set
    }

    /// The sorted completions among the directory entries `entries`: see
    /// `file_set`.
    pub fn file_matches(prefix: &str, file_part: &Option<String>, entries: &[(String, bool)]) -> (r:
        StringSet)
        ensures
            r@.to_set() == file_set(
                prefix@,
                match file_part {
                    Some(f) => Some(f@),
                    None => None,
                },
                entries_view(entries@),
            ),
            strictly_sorted(r@),
    {
        let ghost es = entries_view(entries@);
        let ghost fp = match file_part {
            Some(f) => Some(f@),
            None => None::<Seq<char>>,
        };
        let target: Option<Vec<char>> = match file_part {
            Some(f) => Some(chars_of(f.as_str())),
            None => None,
        };
        let mut set = StringSet::new();
        let mut i: usize = 0;
        proof {
            assert(set@.to_set() =~= Set::empty());
            lemma_image_set_empty(
                es,
                |e: (Seq<char>, bool)| file_wanted(fp, e.0),
                |e: (Seq<char>, bool)| file_entry(prefix@, e),
            );
        }
        while i < entries.len()
            invariant
                i <= entries@.len(),
                es == entries_view(entries@),
                match target {
                    Some(t) => fp == Some(t@),
                    None => fp is None,
                },
                set@.to_set() == file_set(prefix@, fp, es.take(i as int)),
            decreases entries@.len() - i,
        {
            let name = &entries[i].0;
            let wanted = match &target {
                Some(t) => chars_start_with(chars_of(name.as_str()).as_slice(), t.as_slice()),
                None => true,
            };
            if wanted {
                let mut entry = prefix.to_string();
                entry.append(name.as_str());
                if entries[i].1 {
                    crate::text::push_char(&mut entry, '/');
                } else {
                    crate::text::push_char(&mut entry, ' ');
                }
                assert(entry@ =~= file_entry(prefix@, es[i as int]));
                set.insert(entry);
            }
            proof {
                assert(wanted == file_wanted(fp, es[i as int].0));
                lemma_image_set_step(
                    es,
                    |e: (Seq<char>, bool)| file_wanted(fp, e.0),
                    |e: (Seq<char>, bool)| file_entry(prefix@, e),
                    i as int,
                );
                assert(set@.to_set() =~= file_set(prefix@, fp, es.take(i + 1)));
            }
            i += 1;
        }
        proof {
            assert(es.take(entries@.len() as int) =~= es);
            use_type_invariant(&set);
            StringSet::lemma_sorted(set);
        }
        set
    }
}

/// The index just after the last white space in `s`, or 0 if there is none.
pub open spec fn after_last_space(s: Seq<char>) -> int
    decreases s.len(),
{
    if s.len() == 0 {
        0
    } else if is_space(s.last()) {
        s.len() as int
    } else {
        after_last_space(s.drop_last())
    }
}

/// The number of characters before the first white space of `s` (all of them if
/// there is none).
pub open spec fn word_len(s: Seq<char>) -> int
    decreases s.len(),
{
    if s.len() == 0 || is_space(s[0]) {
        0
    } else {
        1 + word_len(s.drop_first())
    }
}

/// The first white-space separated word of `s` (empty if there is none).
pub open spec fn first_word(s: Seq<char>) -> Seq<char> {
    trim_start(s).take(word_len(trim_start(s)))
}

/// The last white-space separated word of `s` (empty if there is none).
pub open spec fn last_word(s: Seq<char>) -> Seq<char> {
    trim_end(s).skip(after_last_space(trim_end(s)))
}

/// Where the cursor stands on the command line, for completion.
pub struct LineContext {
    /// Where the word under the cursor starts (in characters).
    pub start: usize,
    /// The word under the cursor, up to the cursor.
    pub current_word: String,
    /// Whether that word is the command word (nothing but white space before it).
    pub is_command: bool,
    /// The command word: the first word before the current one, or the current
    /// word if there is none.
    pub command_name: String,
    /// The word just before the current one, or nothing.
    pub previous_word: String,
}

/// What `analyze` finds on `line` with the cursor at `pos`: nothing on a blank
/// line; otherwise the word that ends at the cursor and starts after the last white
/// space before it, and the words before it.
pub open spec fn line_context_ok(line: Seq<char>, pos: int, c: LineContext) -> bool {
    let start = after_last_space(line.take(pos));
    let before = line.take(start);
    let has_words = trim(before).len() > 0;
    &&& c.start == start
    &&& c.current_word@ == line.subrange(start, pos)
    &&& c.is_command == !has_words
    &&& c.command_name@ == if has_words {
        first_word(before)
    } else {
        line.subrange(start, pos)
    }
    &&& c.previous_word@ == if has_words {
        last_word(before)
    } else {
        Seq::empty()
    }
}

/// The index just after the last white space in `v[..end]`, or 0.
fn after_last_space_index(v: &[char], end: usize) -> (r: usize)
    requires
        end <= v@.len(),
    ensures
        r == after_last_space(v@.take(end as int)),
        r <= end,
{
    let mut s = end;
    while s > 0 && !is_whitespace(v[s - 1])
        invariant
            s <= end <= v@.len(),
            after_last_space(v@.take(end as int)) == after_last_space(v@.take(s as int)),
        decreases s,
    {
        assert(v@.take(s as int).drop_last() =~= v@.take(s - 1));
        s -= 1;
    }
    s
}

impl Completion {
    /// Finds the word under the cursor at `pos` (in characters) on `line`: see
    /// `line_context_ok`.
    pub fn analyze(line: &str, pos: usize) -> (r: Option<LineContext>)
        requires
            trim(line@).len() == 0 || pos <= line@.len(),
        ensures
            r is None <==> trim(line@).len() == 0,
            r matches Some(c) ==> line_context_ok(line@, pos as int, c),
    {
        let v = chars_of(line);
        if trim_chars(v.as_slice()).len() == 0 {
            return None;
        }
        assert(pos <= v@.len());
        let start = after_last_space_index(v.as_slice(), pos);
        let before = slice_chars(v.as_slice(), 0, start);
        let current_word = string_of(slice_chars(v.as_slice(), start, pos).as_slice());
        assert(before@ =~= line@.take(start as int));
        let has_words = trim_chars(before.as_slice()).len() > 0;
        let (command_name, previous_word) = if has_words {
            let e = trimmed_end_len(before.as_slice());
            let b = trimmed_start(before.as_slice(), before.len());
            assert(before@.subrange(0, before@.len() as int) =~= before@);
            let mut w = b;
            assert(before@.subrange(b as int, before@.len() as int).take(0) =~= Seq::<char>::empty());
            while w < before.len() && !is_whitespace(before[w])
                invariant
                    b <= w <= before@.len(),
                    word_len(before@.subrange(b as int, before@.len() as int)) == (w - b) + word_len(
                        before@.subrange(w as int, before@.len() as int),
                    ),
                decreases before@.len() - w,
            {
                assert(before@.subrange(w as int, before@.len() as int).drop_first() =~= before@.subrange(
                    w + 1,
                    before@.len() as int,
                ));
                w += 1;
            }
            assert(word_len(before@.subrange(w as int, before@.len() as int)) == 0);
            assert(before@.subrange(b as int, before@.len() as int).take(w - b) =~= before@.subrange(
                b as int,
                w as int,
            ));
            let first = string_of(slice_chars(before.as_slice(), b, w).as_slice());
            let ls = after_last_space_index(before.as_slice(), e);
            assert(before@.subrange(0, e as int) =~= before@.take(e as int));
            assert(before@.take(e as int).skip(ls as int) =~= before@.subrange(ls as int, e as int));
            let last = string_of(slice_chars(before.as_slice(), ls, e).as_slice());
            (first, last)
        } else {
            (string_of(slice_chars(v.as_slice(), start, pos).as_slice()), String::new())
        };
        Some(LineContext { start, current_word, is_command: !has_words, command_name, previous_word })
    }
}

/// What a directory listing for completing a file name is made of.
pub struct ListingPlan {
    /// The directory to list, taken from the working directory (an absolute path
    /// stands for itself); `None` for the working directory itself.
    pub dir: Option<String>,
    /// What each completion starts with.
    pub prefix: String,
    /// The start of the names to keep, if they are filtered.
    pub file_part: Option<String>,
}

/// The parent of the path `text`, as `std::path::Path::parent` computes it.
pub uninterp spec fn path_parent(text: Seq<char>) -> Option<Seq<char>>;

/// The last component of the path `text`, as `std::path::Path::file_name`
/// computes it.
pub uninterp spec fn path_file_name(text: Seq<char>) -> Option<Seq<char>>;

/// The parent of the path `text`.
///
/// Trusted: calls `std::path::Path::parent`; the contract only names its result
/// (`path_parent`), a function of `text` alone. A path made from a `&str` is valid
/// UTF-8, so the lossless conversion keeps every character.
#[verifier::external_body]
fn parent_of(text: &str) -> (r: Option<String>)
    ensures
        opt_text(r) == path_parent(text@),
{
    match std::path::Path::new(text).parent() {
        Some(p) => Some(p.to_string_lossy().into_owned()),
        None => None,
    }
}

/// The last component of the path `text`.
///
/// Trusted: calls `std::path::Path::file_name`; the contract only names its
/// result (`path_file_name`), a function of `text` alone.
#[verifier::external_body]
fn file_name_of(text: &str) -> (r: Option<String>)
    ensures
        opt_text(r) == path_file_name(text@),
{
    match std::path::Path::new(text).file_name() {
        Some(f) => Some(f.to_string_lossy().into_owned()),
        None => None,
    }
}

/// The text of an optional string.
pub open spec fn opt_text(o: Option<String>) -> Option<Seq<char>> {
    match o {
        Some(s) => Some(s@),
        None => None,
    }
}

/// A plan as the specification sees it: directory, prefix, file part.
pub type PlanView = (Option<Seq<char>>, Seq<char>, Option<Seq<char>>);

/// The plan's texts.
pub open spec fn plan_view(p: ListingPlan) -> PlanView {
    (opt_text(p.dir), p.prefix@, opt_text(p.file_part))
}

/// Whether `s` ends with a path separator (`/` or `\`).
pub open spec fn ends_with_separator(s: Seq<char>) -> bool {
    s.len() > 0 && (s.last() == '/' || s.last() == '\\')
}

/// The listing for completing the file name `text`, given the parent and the last
/// component of `text` as paths: a text that ends with a separator lists that
/// directory whole; otherwise the parent, if not empty, is listed and written
/// before each name (with a `/` after it if it ends with no separator), and the
/// names are filtered by the last component.
pub open spec fn plan_spec(
    text: Seq<char>,
    parent: Option<Seq<char>>,
    file_name: Option<Seq<char>>,
) -> PlanView {
    if ends_with_separator(text) {
        (Some(text), text, None)
    } else {
        match parent {
            Some(p) if p.len() > 0 => (
                Some(p),
                if ends_with_separator(p) {
                    p
                } else {
                    p.push('/')
                },
                file_name,
            ),
            _ => (None, Seq::empty(), file_name),
        }
    }
}

/// Whether `v` ends with a path separator.
fn ends_with_sep(v: &[char]) -> (r: bool)
    ensures
        r == ends_with_separator(v@),
{
    v.len() > 0 && (v[v.len() - 1] == '/' || v[v.len() - 1] == '\\')
}

impl ListingPlan {
    /// The listing for `text`, given `parent` and `file_name`, the parent and the
    /// last component of `text` as paths: see `plan_spec`.
    pub fn from_parts(text: &str, parent: Option<String>, file_name: Option<String>) -> (r: ListingPlan)
        ensures
            plan_view(r) == plan_spec(text@, opt_text(parent), opt_text(file_name)),
    {
        let t = chars_of(text);
        if ends_with_sep(t.as_slice()) {
            return ListingPlan { dir: Some(text.to_string()), prefix: text.to_string(), file_part: None };
        }
        match parent {
            Some(p) => {
                let pc = chars_of(p.as_str());
                if pc.len() > 0 {
                    let mut prefix = p.clone();
                    if !ends_with_sep(pc.as_slice()) {
                        crate::text::push_char(&mut prefix, '/');
                    }
                    ListingPlan { dir: Some(p), prefix, file_part: file_name }
                } else {
                    ListingPlan { dir: None, prefix: String::new(), file_part: file_name }
                }
            },
            None => ListingPlan { dir: None, prefix: String::new(), file_part: file_name },
        }
    }

    /// The listing for completing the file name `text`: see `plan_spec`, applied
    /// to the parent and last component of `text` as `std::path::Path` computes
    /// them.
    pub fn for_text(text: &str) -> (r: ListingPlan)
        ensures
            plan_view(r) == plan_spec(text@, path_parent(text@), path_file_name(text@)),
    {
        let t = chars_of(text);
        if ends_with_sep(t.as_slice()) {
            return Self::from_parts(text, None, None);
        }
        let parent = parent_of(text);
        let file_name = file_name_of(text);
        Self::from_parts(text, parent, file_name)
    }
}

/// The text that `String::from_utf8_lossy` makes of `bytes` (invalid sequences
/// become U+FFFD).
pub uninterp spec fn utf8_lossy(bytes: Seq<u8>) -> Seq<char>;

/// The text of `bytes`, decoded as UTF-8 with invalid sequences replaced.
///
/// Trusted: calls `String::from_utf8_lossy`; the contract only names its result
/// (`utf8_lossy`), a function of `bytes` alone.
#[verifier::external_body]
fn decode_lossy(bytes: &[u8]) -> (r: String)
    ensures
        r@ == utf8_lossy(bytes@),
{
    String::from_utf8_lossy(bytes).into_owned()
}

/// A line without the `\r` of a `\r\n` ending.
pub open spec fn strip_cr(l: Seq<char>) -> Seq<char> {
    if l.len() > 0 && l.last() == '\r' {
        l.drop_last()
    } else {
        l
    }
}

/// The lines of `s`, as `str::lines` splits them: at each `\n`, dropping a `\r`
/// just before it; a last line without `\n` is kept as it is, and an empty text
/// has no line.
pub open spec fn lines_of(s: Seq<char>) -> Seq<Seq<char>>
    decreases s.len(),
{
    if s.len() == 0 {
        Seq::empty()
    } else {
        let i = quote_end(s, '\n');
        proof {
            lemma_quote_end_bound(s, '\n');
        }
        if i < s.len() {
            seq![strip_cr(s.take(i))] + lines_of(s.skip(i + 1))
        } else {
            seq![s]
        }
    }
}

/// `quote_end` is the index of the first `q`, or the length.
pub proof fn lemma_quote_end_bound(s: Seq<char>, q: char)
    ensures
        0 <= quote_end(s, q) <= s.len(),
        quote_end(s, q) < s.len() ==> s[quote_end(s, q)] == q,
        forall|k: int| 0 <= k < quote_end(s, q) ==> s[k] != q,
    decreases s.len(),
{
    if s.len() > 0 && s[0] != q {
        lemma_quote_end_bound(s.drop_first(), q);
        assert forall|k: int| 0 <= k < quote_end(s, q) implies s[k] != q by {
            if k > 0 {
                assert(s[k] == s.drop_first()[k - 1]);
            }
        }
    }
}

/// Splits `s` into lines: see `lines_of`.
pub fn text_lines(s: &[char]) -> (r: Vec<String>)
    ensures
        strings_view(r@) == lines_of(s@),
{
    let mut r: Vec<String> = Vec::new();
    let mut start: usize = 0;
    assert(s@.subrange(0, s@.len() as int) =~= s@);
    while start < s.len()
        invariant
            start <= s@.len(),
            lines_of(s@) == strings_view(r@) + lines_of(s@.subrange(start as int, s@.len() as int)),
        decreases s@.len() - start,
    {
        let ghost rest = s@.subrange(start as int, s@.len() as int);
        let mut j = start;
        while j < s.len() && s[j] != '\n'
            invariant
                start <= j <= s@.len(),
                rest == s@.subrange(start as int, s@.len() as int),
                quote_end(rest, '\n') == (j - start) + quote_end(
                    s@.subrange(j as int, s@.len() as int),
                    '\n',
                ),
            decreases s@.len() - j,
        {
            assert(s@.subrange(j as int, s@.len() as int).drop_first() =~= s@.subrange(
                j + 1,
                s@.len() as int,
            ));
            j += 1;
        }
        proof {
            lemma_quote_end_bound(rest, '\n');
            assert(rest.take(j - start) =~= s@.subrange(start as int, j as int));
        }
        let ghost before = strings_view(r@);
        if j < s.len() {
            let mut e = j;
            if e > start && s[e - 1] == '\r' {
                e -= 1;
            }
            proof {
                assert(strip_cr(s@.subrange(start as int, j as int)) =~= s@.subrange(
                    start as int,
                    e as int,
                ));
                assert(rest.skip(j - start + 1) =~= s@.subrange(j + 1, s@.len() as int));
            }
            r.push(string_of(slice_chars(s, start, e).as_slice()));
            start = j + 1;
        } else {
            proof {
                assert(rest =~= s@.subrange(start as int, j as int));
            }
            r.push(string_of(slice_chars(s, start, j).as_slice()));
            start = j;
            proof {
                assert(s@.subrange(start as int, s@.len() as int) =~= Seq::<char>::empty());
                assert(lines_of(s@.subrange(start as int, s@.len() as int)) =~= Seq::<Seq<char>>::empty());
            }
        }
        proof {
            assert(strings_view(r@) =~= before.push(r@[r@.len() - 1]@));
        }
    }
    proof {
        assert(s@.subrange(start as int, s@.len() as int) =~= Seq::<char>::empty());
        assert(strings_view(r@) + Seq::<Seq<char>>::empty() =~= strings_view(r@));
    }
    r
}

/// The lines that a completion script printed as `bytes`: the text decoded as
/// UTF-8 (see `utf8_lossy`), split into lines.
pub fn script_output_lines(bytes: &[u8]) -> (r: Vec<String>)
    ensures
        strings_view(r@) == lines_of(utf8_lossy(bytes@)),
{
    let text = decode_lossy(bytes);
    text_lines(chars_of(text.as_str()).as_slice())
}

/// A request to run the completion script registered for a command.
pub struct ScriptRequest {
    /// The script to run.
    pub script: String,
    /// The whole command line.
    pub line: String,
    /// The cursor position (in characters).
    pub pos: usize,
    /// The command word.
    pub command: String,
    /// The word under the cursor.
    pub word: String,
    /// The word before it, or nothing.
    pub previous: String,
}

/// What listing a directory gave.
pub enum DirListing {
    /// The directory does not exist.
    Missing,
    /// The directory could not be read.
    Unreadable,
    /// The entries: name, and whether each is a directory.
    Entries(Vec<(String, bool)>),
}

/// The script request for the line `line` with the cursor at `pos`, in the
/// context `c`, with the registered scripts `specs`.
pub open spec fn script_request_ok(
    q: ScriptRequest,
    specs: Map<Seq<char>, Seq<char>>,
    line: Seq<char>,
    pos: int,
    c: LineContext,
) -> bool {
    &&& q.script@ == specs[c.command_name@]
    &&& q.line@ == line
    &&& q.pos == pos
    &&& q.command@ == c.command_name@
    &&& q.word@ == c.current_word@
    &&& q.previous@ == c.previous_word@
}

/// Whether some line of `lines` is not blank.
pub open spec fn has_text(lines: Seq<Seq<char>>) -> bool {
    exists|i: int| 0 <= i < lines.len() && trim(#[trigger] lines[i]).len() > 0
}

/// The matches when no script completes the word: commands for the command word,
/// files otherwise (`extra` bells ring when the directory to list is missing).
pub open spec fn fallback_ok<L: Fn(&ListingPlan) -> DirListing>(
    builtins: Seq<Seq<char>>,
    executables: Seq<Seq<char>>,
    list_dir: L,
    c: LineContext,
    ms: Seq<Seq<char>>,
    extra: nat,
) -> bool {
    if c.is_command {
        ms.to_set() == command_set(builtins, c.current_word@) + command_set(
            executables,
            c.current_word@,
        ) && extra == 0
    } else {
        exists|p: ListingPlan, res: DirListing|
            plan_view(p) == plan_spec(
                c.current_word@,
                path_parent(c.current_word@),
                path_file_name(c.current_word@),
            ) && #[trigger] call_ensures(list_dir, (&p,), res) && match res {
                DirListing::Missing => ms.len() == 0 && extra == 1,
                DirListing::Unreadable => ms.len() == 0 && extra == 0,
                DirListing::Entries(es) => ms.to_set() == file_set(
                    p.prefix@,
                    opt_text(p.file_part),
                    entries_view(es@),
                ) && extra == 0,
            }
    }
}

/// The reply to a request, given its sorted matches `ms`: as `apply_spec` says,
/// with `extra` more bells; when the matches are outside what
/// `longest_common_prefix` handles, nothing is offered and the state is kept.
pub open spec fn reply_ok(
    st: TabView,
    ms: Seq<Seq<char>>,
    start: int,
    word: Seq<char>,
    extra: nat,
    r: CompletionReply,
    new_st: TabView,
) -> bool {
    &&& r.start == start
    &&& if lcp_defined(ms) {
        let (t, v) = apply_spec(st, ms, word);
        new_st == t && r.spec_reply() == ReplyView {
            candidates: v.candidates,
            bells: v.bells + extra,
            listing: v.listing,
        }
    } else {
        new_st == st && r.spec_reply() == ReplyView {
            candidates: Seq::empty(),
            bells: extra,
            listing: None,
        }
    }
}

/// Whether the sorted matches `ms` may come from completing in context `c`: from
/// the registered script, when there is one and it prints something; otherwise
/// from the commands or the files.
pub open spec fn matches_ok<S: Fn(&ScriptRequest) -> Vec<u8>, L: Fn(&ListingPlan) -> DirListing>(
    builtins: Seq<Seq<char>>,
    executables: Seq<Seq<char>>,
    specs: Map<Seq<char>, Seq<char>>,
    line: Seq<char>,
    pos: int,
    run_script: S,
    list_dir: L,
    c: LineContext,
    ms: Seq<Seq<char>>,
    extra: nat,
) -> bool {
    &&& strictly_sorted(ms)
    &&& if specs.contains_key(c.command_name@) {
        exists|q: ScriptRequest, out: Vec<u8>|
            script_request_ok(q, specs, line, pos, c) && #[trigger] call_ensures(
                run_script,
                (&q,),
                out,
            ) && if has_text(lines_of(utf8_lossy(out@))) {
                ms.to_set() == script_set(lines_of(utf8_lossy(out@))) && extra == 0
            } else {
                fallback_ok(builtins, executables, list_dir, c, ms, extra)
            }
    } else {
        fallback_ok(builtins, executables, list_dir, c, ms, extra)
    }
}

/// Whether `lcp_defined` holds of the set.
fn lcp_defined_for(set: &StringSet) -> (r: bool)
    ensures
        r == lcp_defined(set@),
{
    let items = set.items();
    if items.len() < 2 {
        return true;
    }
    let first = chars_of(items[0].as_str());
    let t = trim_chars(first.as_slice());
    first.len() >= 1 && first.len() - 1 <= t.len()
}

impl Completion {
    fn reply_from(&mut self, set: &StringSet, start: usize, word: &str, extra: usize) -> (r: CompletionReply)
        requires
            extra <= 1,
        ensures
            reply_ok(old(self).tab(), set@, start as int, word@, extra as nat, r, final(self).tab()),
            final(self).builtin_names() == old(self).builtin_names(),
            final(self).executable_names() == old(self).executable_names(),
    {
        if !lcp_defined_for(set) {
            let r = CompletionReply { start, candidates: Vec::new(), bells: extra, listing: None };
            assert(candidates_view(r.candidates@) =~= Seq::empty());
            return r;
        }
        let mut r = self.apply_completion_logic(set, start, word);
        r.bells = r.bells + extra;
        r
    }

    /// Completes the word under the cursor at `pos` (in characters) on `line`,
    /// with the registered scripts `specs`: `run_script` runs a completion script
    /// and gives what it printed (split into lines, see `script_output_lines`), `list_dir` lists a directory. A blank line
    /// gets nothing; otherwise the matches come from the registered script, when
    /// there is one and it prints something, else from the commands (for the
    /// command word) or the files, and the reply is made from them (see
    /// `matches_ok` and `reply_ok`).
    pub fn complete<S: Fn(&ScriptRequest) -> Vec<u8>, L: Fn(&ListingPlan) -> DirListing>(
        &mut self,
        line: &str,
        pos: usize,
        specs: &CompletionSpecs,
        run_script: S,
        list_dir: L,
    ) -> (r: CompletionReply)
        requires
            trim(line@).len() == 0 || pos <= line@.len(),
            forall|q: &ScriptRequest| #[trigger] run_script.requires((q,)),
            forall|p: &ListingPlan| #[trigger] list_dir.requires((p,)),
        ensures
            final(self).builtin_names() == old(self).builtin_names(),
            final(self).executable_names() == old(self).executable_names(),
            trim(line@).len() == 0 ==> r.start == 0 && r.spec_reply() == (ReplyView {
                candidates: Seq::empty(),
                bells: 0,
                listing: None,
            }) && final(self).tab() == old(self).tab(),
            trim(line@).len() > 0 ==> exists|c: LineContext, ms: Seq<Seq<char>>, extra: nat|
                line_context_ok(line@, pos as int, c) && #[trigger] matches_ok(
                    old(self).builtin_names(),
                    old(self).executable_names(),
                    specs@,
                    line@,
                    pos as int,
                    run_script,
                    list_dir,
                    c,
                    ms,
                    extra,
                ) && reply_ok(
                    old(self).tab(),
                    ms,
                    c.start as int,
                    c.current_word@,
                    extra,
                    r,
                    final(self).tab(),
                ),
    {
        let c = match Self::analyze(line, pos) {
            None => {
                let r = CompletionReply { start: 0, candidates: Vec::new(), bells: 0, listing: None };
                assert(candidates_view(r.candidates@) =~= Seq::empty());
                return r;
            },
            Some(c) => c,
        };
        let ghost b = self.builtin_names();
        let ghost e = self.executable_names();
        if let Some(script) = specs.get(&c.command_name) {
            let q = ScriptRequest {
                script,
                line: line.to_string(),
                pos,
                command: c.command_name.clone(),
                word: c.current_word.clone(),
                previous: c.previous_word.clone(),
            };
            let out = run_script(&q);
            let lines = script_output_lines(out.as_slice());
            let set = Self::script_matches(lines.as_slice());
            if set.len() > 0 {
                proof {
                    let x = set@[0];
                    assert(set@.to_set().contains(x));
                    let i = choose|i: int|
                        0 <= i < strings_view(lines@).len() && trim(strings_view(lines@)[i]).len()
                            > 0 && x == #[trigger] trim(strings_view(lines@)[i]).push(' ');
                    assert(has_text(strings_view(lines@)));
                }
                let r = self.reply_from(&set, c.start, c.current_word.as_str(), 0);
                proof {
                    assert(script_request_ok(q, specs@, line@, pos as int, c));
                    assert(call_ensures(run_script, (&q,), out));
                    assert(matches_ok(b, e, specs@, line@, pos as int, run_script, list_dir, c, set@, 0));
                }
                return r;
            }
            proof {
                assert(!has_text(strings_view(lines@))) by {
                    if has_text(strings_view(lines@)) {
                        let i = choose|i: int|
                            0 <= i < strings_view(lines@).len() && trim(#[trigger] strings_view(lines@)[i]).len() > 0;
                        assert(script_set(strings_view(lines@)).contains(trim(strings_view(lines@)[i]).push(' ')));
                        assert(set@.to_set().contains(trim(strings_view(lines@)[i]).push(' ')));
                    }
                }
            }
            let (set, extra) = self.fallback(&c, list_dir);
            let r = self.reply_from(&set, c.start, c.current_word.as_str(), extra);
            proof {
                assert(script_request_ok(q, specs@, line@, pos as int, c));
                assert(call_ensures(run_script, (&q,), out));
                assert(matches_ok(b, e, specs@, line@, pos as int, run_script, list_dir, c, set@, extra as nat));
            }
            return r;
        }
        let (set, extra) = self.fallback(&c, list_dir);
        let r = self.reply_from(&set, c.start, c.current_word.as_str(), extra);
        proof {
            assert(matches_ok(b, e, specs@, line@, pos as int, run_script, list_dir, c, set@, extra as nat));
        }
        r
    }

    fn fallback<L: Fn(&ListingPlan) -> DirListing>(&self, c: &LineContext, list_dir: L) -> (r: (StringSet, usize))
        requires
            forall|p: &ListingPlan| #[trigger] list_dir.requires((p,)),
        ensures
            r.1 <= 1,
            strictly_sorted(r.0@),
            fallback_ok(self.builtin_names(), self.executable_names(), list_dir, *c, r.0@, r.1 as nat),
    {
        if c.is_command {
            return (self.command_matches(c.current_word.as_str()), 0);
        }
        let plan = ListingPlan::for_text(c.current_word.as_str());
        let res = list_dir(&plan);
        let ghost gres = res;
        let r = match res {
            DirListing::Missing => (StringSet::new(), 1),
            DirListing::Unreadable => (StringSet::new(), 0),
            DirListing::Entries(es) => {
                let set = Self::file_matches(plan.prefix.as_str(), &plan.file_part, es.as_slice());
                (set, 0)
            },
        };
        proof {
            assert(call_ensures(list_dir, (&plan,), gres));
            if gres is Missing || gres is Unreadable {
                assert(strictly_sorted(r.0@));
            }
        }
        r
    }
}

/// When several matches share nothing beyond the word typed, the first request
/// rings the bell and offers nothing, a second request in a row on the same
/// word lists all the matches, separated by two spaces, keeps the word as it is,
/// and starts afresh, so that a third request rings the bell again.
pub proof fn law_second_tab_lists_matches(st: TabView, ms: Seq<Seq<char>>, word: Seq<char>)
    requires
        ms.len() >= 2,
        trim_end_char(trim_end(lcp_spec(ms)), '/') == trim_end_char(trim_end(word), '/')
            || lcp_spec(ms).len() == 0,
        st.last != word || st.count == 0,
    ensures
        ({
            let (st1, r1) = apply_spec(st, ms, word);
            let (st2, r2) = apply_spec(st1, ms, word);
            let (st3, r3) = apply_spec(st2, ms, word);
            &&& r1 == ReplyView { candidates: Seq::empty(), bells: 1, listing: None }
            &&& r2 == ReplyView {
                candidates: seq![(word, word)],
                bells: 0,
                listing: Some(join(ms, "  "@)),
            }
            &&& st2 == TabView { last: Seq::empty(), count: 0 }
            &&& r3 == ReplyView { candidates: Seq::empty(), bells: 1, listing: None }
            &&& st3 == TabView { last: word, count: 1 }
        }),
{
}

/// A single match is offered as it is, and the completer starts afresh.
pub proof fn law_single_match_completes(st: TabView, m: Seq<char>, word: Seq<char>)
    ensures
        apply_spec(st, seq![m], word) == (
            TabView { last: Seq::empty(), count: 0 },
            ReplyView { candidates: seq![(m, m)], bells: 0, listing: None },
        ),
{
}

/// No match rings the bell, offers nothing and changes nothing.
pub proof fn law_no_match_rings(st: TabView, word: Seq<char>)
    ensures
        apply_spec(st, Seq::empty(), word) == (
            st,
            ReplyView { candidates: Seq::empty(), bells: 1, listing: None },
        ),
{
}

proof fn lemma_shared_len_bounds(first: Seq<char>, others: Seq<Seq<char>>, k: int)
    requires
        k >= 0,
    ensures
        0 <= shared_len(first, others, k) <= k,
        k >= 1 ==> shared_len(first, others, k) >= 1,
    decreases k,
{
    if k > 1 && !prefix_shared(first, others, k) {
        lemma_shared_len_bounds(first, others, k - 1);
    }
}

/// What `longest_common_prefix` gives is a prefix of the first (smallest) match,
/// not empty when that match is not.
pub proof fn law_lcp_prefix_of_first(ms: Seq<Seq<char>>)
    requires
        ms.len() > 0,
    ensures
        starts_with(ms[0], lcp_spec(ms)),
        ms[0].len() > 0 ==> lcp_spec(ms).len() > 0,
{
    lemma_shared_len_bounds(ms[0], ms.drop_first(), ms[0].len() as int);
    let k = shared_len(ms[0], ms.drop_first(), ms[0].len() as int);
    assert(ms[0].subrange(0, k) =~= ms[0].take(k));
}

proof fn lemma_shared_len_max(first: Seq<char>, others: Seq<Seq<char>>, k: int)
    requires
        k >= 1,
    ensures
        1 <= shared_len(first, others, k) <= k,
        prefix_shared(first, others, shared_len(first, others, k)),
        forall|j: int|
            shared_len(first, others, k) < j <= k ==> !#[trigger] prefix_shared(first, others, j),
    decreases k,
{
    if k == 1 {
        assert forall|i: int| 0 <= i < others.len() implies starts_with(
            trim(#[trigger] others[i]),
            trim(first).take(0),
        ) by {
            assert(trim(others[i]).subrange(0, 0) =~= trim(first).take(0));
        }
    } else if !prefix_shared(first, others, k) {
        lemma_shared_len_max(first, others, k - 1);
    }
}

/// What `longest_common_prefix` gives, said directly: for two matches or more,
/// the first `k` characters of the first match, where `k` is the largest length
/// up to that match's own for which every other match, trimmed, starts with the
/// first `k - 1` characters of the first match, trimmed.
pub proof fn law_lcp_largest_shared_length(ms: Seq<Seq<char>>)
    requires
        ms.len() >= 1,
        ms[0].len() >= 1,
    ensures
        exists|k: int|
            1 <= k <= ms[0].len() && lcp_spec(ms) == ms[0].take(k) && #[trigger] prefix_shared(
                ms[0],
                ms.drop_first(),
                k,
            ) && forall|j: int| k < j <= ms[0].len() ==> !#[trigger] prefix_shared(ms[0], ms.drop_first(), j),
{
    lemma_shared_len_max(ms[0], ms.drop_first(), ms[0].len() as int);
}

/// Completing a file name that does not end with a separator and has no parent
/// (or an empty one, like `notes` or an empty word) lists the working directory,
/// writes nothing before the names, and keeps those that start with the last
/// component of the name.
pub proof fn law_plan_without_parent(
    text: Seq<char>,
    parent: Option<Seq<char>>,
    file_name: Option<Seq<char>>,
)
    requires
        !ends_with_separator(text),
        parent is None || parent->0.len() == 0,
    ensures
        plan_spec(text, parent, file_name) == (None::<Seq<char>>, Seq::<char>::empty(), file_name),
{
}

/// Completing a file name under a non-empty parent lists that parent, writes the
/// parent (ended by one separator) before each name, and keeps the names that
/// start with the last component.
pub proof fn law_plan_with_parent(text: Seq<char>, parent: Seq<char>, file_name: Option<Seq<char>>)
    requires
        !ends_with_separator(text),
        parent.len() > 0,
    ensures
        ({
            let (dir, prefix, part) = plan_spec(text, Some(parent), file_name);
            &&& dir == Some(parent)
            &&& ends_with_separator(parent) ==> prefix == parent
            &&& !ends_with_separator(parent) ==> prefix == parent.push('/')
            &&& part == file_name
        }),
{
}

/// Completing a name that ends with a separator lists that directory whole and
/// writes the name before each entry.
pub proof fn law_plan_of_directory(text: Seq<char>, parent: Option<Seq<char>>, file_name: Option<
    Seq<char>,
>)
    requires
        ends_with_separator(text),
    ensures
        plan_spec(text, parent, file_name) == (Some(text), text, None::<Seq<char>>),
{
}

/// Matches as the completer makes them (a name without white space at either
/// end, followed by one space or `/`) are always within what
/// `longest_common_prefix` handles, so several of them are answered as
/// `apply_spec` says and never left without a reply.
pub proof fn law_completions_are_handled(ms: Seq<Seq<char>>, w: Seq<char>, c: char)
    requires
        ms.len() >= 1,
        w.len() > 0,
        !is_space(w[0]),
        !is_space(w.last()),
        c == ' ' || c == '/',
        ms[0] == w.push(c),
    ensures
        lcp_defined(ms),
        trim(ms[0]).len() == ms[0].len() - if c == ' ' {
            1int
        } else {
            0int
        },
{
    let m = w.push(c);
    assert(m.drop_last() =~= w);
    assert(trim_end(w) == w);
    if c == ' ' {
        assert(trim_end(m) == trim_end(w));
        assert(trim_start(w) == w);
    } else {
        assert(trim_end(m) == m);
        assert(m[0] == w[0]);
        assert(trim_start(m) == m);
    }
}

/// The list of all matches is printed only on the second request in a row on
/// the same word: then it lists every match, offers the word unchanged and rings
/// no bell. In particular narrowing to the common prefix never prints it.
pub proof fn law_listing_only_on_second_request(st: TabView, ms: Seq<Seq<char>>, word: Seq<char>)
    ensures
        ({
            let (st1, r) = apply_spec(st, ms, word);
            r.listing is Some ==> {
                &&& ms.len() >= 2
                &&& st.last == word
                &&& st.count >= 1
                &&& r.listing == Some(join(ms, "  "@))
                &&& r.candidates == seq![(word, word)]
                &&& r.bells == 0
                &&& st1 == TabView { last: Seq::empty(), count: 0 }
            }
        }),
{
}

/// Narrowing several matches to their common prefix offers that prefix, prints
/// nothing, rings no bell and keeps what the completer remembers.
pub proof fn law_narrowing_prints_nothing(st: TabView, ms: Seq<Seq<char>>, word: Seq<char>)
    requires
        ms.len() >= 2,
        lcp_spec(ms).len() > 0,
        trim_end_char(trim_end(lcp_spec(ms)), '/') != trim_end_char(trim_end(word), '/'),
    ensures
        apply_spec(st, ms, word) == (
            st,
            ReplyView {
                candidates: seq![(trim_end(lcp_spec(ms)), lcp_spec(ms))],
                bells: 0,
                listing: None,
            },
        ),
{
}

/// Every command completion is a name that starts with the word typed, followed
/// by a space, and every such name is completed.
pub proof fn law_command_matches_extend_the_word(names: Seq<Seq<char>>, word: Seq<char>, s: Seq<char>)
    ensures
        command_set(names, word).contains(s) ==> s.len() > 0 && s.last() == ' ' && starts_with(
            s.drop_last(),
            word,
        ) && names.contains(s.drop_last()),
        forall|i: int|
            0 <= i < names.len() && starts_with(names[i], word) ==> command_set(names, word).contains(
                #[trigger] names[i].push(' '),
            ),
{
    if command_set(names, word).contains(s) {
        let i = choose|i: int| #![trigger names[i]] 0 <= i < names.len() && starts_with(names[i], word) && s == names[i].push(' ');
        assert(s.drop_last() =~= names[i]);
    }
}

/// Every file completion starts with the directory prefix and ends with `/` for a
/// directory or a space for anything else; every entry kept gives one.
pub proof fn law_file_matches_shape(
    prefix: Seq<char>,
    file_part: Option<Seq<char>>,
    entries: Seq<(Seq<char>, bool)>,
    s: Seq<char>,
)
    ensures
        file_set(prefix, file_part, entries).contains(s) ==> starts_with(s, prefix) && exists|i: int|
            0 <= i < entries.len() && file_wanted(file_part, #[trigger] entries[i].0) && s == prefix
                + entries[i].0 + if entries[i].1 {
                seq!['/']
            } else {
                seq![' ']
            },
{
    if file_set(prefix, file_part, entries).contains(s) {
        let i = choose|i: int|
            #![trigger entries[i]]
            0 <= i < entries.len() && file_wanted(file_part, entries[i].0) && s == file_entry(prefix, entries[i]);
        assert(s.subrange(0, prefix.len() as int) =~= prefix);
        assert(file_wanted(file_part, entries[i].0));
    }
}

} // verus!
