use vstd::prelude::*;

use crate::builtins::Command;
use crate::text::{chars_eq, chars_of};

verus! {

/// The completion scripts registered with `complete -C`: a map from a command
/// name to the path of the script that completes its arguments.
pub struct CompletionSpecs {
    entries: Vec<(String, String)>,
}

impl CompletionSpecs {
    /// No command appears twice.
    #[verifier::type_invariant]
    closed spec fn keys_unique(self) -> bool {
        forall|i: int, j: int|
            0 <= i < j < self.entries@.len() ==> self.entries@[i].0@ != self.entries@[j].0@
    }

    closed spec fn has_key_at(self, k: Seq<char>, i: int) -> bool {
        0 <= i < self.entries@.len() && self.entries@[i].0@ == k
    }
}

impl View for CompletionSpecs {
    type V = Map<Seq<char>, Seq<char>>;

    closed spec fn view(&self) -> Map<Seq<char>, Seq<char>> {
        Map::new(
            |k: Seq<char>| exists|i: int| self.has_key_at(k, i),
            |k: Seq<char>| self.entries@[choose|i: int| self.has_key_at(k, i)].1@,
        )
    }
}

impl CompletionSpecs {
    /// No registered script.
    pub fn new() -> (r: Self)
        ensures
            r@ == Map::<Seq<char>, Seq<char>>::empty(),
    {
        let r = CompletionSpecs { entries: Vec::new() };
        assert(r@ =~= Map::<Seq<char>, Seq<char>>::empty());
        r
    }

    /// The index of the entry for `key`, if there is one.
    fn find(&self, key: &String) -> (r: Option<usize>)
        ensures
            match r {
                Some(i) => self.has_key_at(key@, i as int),
                None => forall|i: int| !self.has_key_at(key@, i),
            },
    {
        let mut i: usize = 0;
        while i < self.entries.len()
            invariant
                i <= self.entries@.len(),
                forall|j: int| 0 <= j < i ==> self.entries@[j].0@ != key@,
            decreases self.entries@.len() - i,
        {
            if self.entries[i].0 == *key {
                return Some(i);
            }
            i += 1;
        }
        None
    }

    proof fn lemma_index(&self, k: Seq<char>, i: int)
        requires
            self.keys_unique(),
            self.has_key_at(k, i),
        ensures
            self@.contains_key(k),
            self@[k] == self.entries@[i].1@,
    {
        assert(self@.dom().contains(k));
        let j = choose|j: int| self.has_key_at(k, j);
        assert(self.has_key_at(k, j));
        if j < i {
            assert(self.entries@[j].0@ != self.entries@[i].0@);
        } else if i < j {
            assert(self.entries@[i].0@ != self.entries@[j].0@);
        }
    }

    /// The script registered for `key`, if any.
    pub fn get(&self, key: &String) -> (r: Option<String>)
        ensures
            match r {
                Some(v) => self@.contains_key(key@) && self@[key@] == v@,
                None => !self@.contains_key(key@),
            },
    {
        match self.find(key) {
            Some(i) => {
                proof {
                    use_type_invariant(self);
                    self.lemma_index(key@, i as int);
                }
                Some(self.entries[i].1.clone())
            },
            None => None,
        }
    }

    /// Whether a script is registered for `key`.
    pub fn contains_key(&self, key: &String) -> (r: bool)
        ensures
            r == self@.contains_key(key@),
    {
        self.find(key).is_some()
    }

    /// Registers `value` as the script for `key`, in place of any earlier one.
    pub fn insert(&mut self, key: String, value: String)
        ensures
            final(self)@ == old(self)@.insert(key@, value@),
    {
        proof {
            use_type_invariant(&*self);
        }
        let ghost old_self = *self;
        let idx = self.find(&key);
        let mut entries: Vec<(String, String)> = Vec::new();
        std::mem::swap(&mut entries, &mut self.entries);
        let ghost k = key@;
        match idx {
            Some(i) => {
                let ghost before = entries@;
                entries.set(i, (key, value));
                proof {
                    assert forall|j: int| 0 <= j < entries@.len() implies entries@[j].0@
                        == before[j].0@ by {}
                }
                self.entries = entries;
                proof {
                    assert forall|q: Seq<char>, j: int| self.has_key_at(q, j) == old_self.has_key_at(
                        q,
                        j,
                    ) by {}
                    assert(self@.dom() =~= old_self@.insert(k, value@).dom()) by {
                        assert forall|q: Seq<char>| #[trigger] self@.dom().contains(q) implies old_self@.dom().contains(q) by {
                            let j = choose|j: int| self.has_key_at(q, j);
                            assert(old_self.has_key_at(q, j));
                        }
                        assert forall|q: Seq<char>| #[trigger] old_self@.dom().contains(q) implies self@.dom().contains(q) by {
                            let j = choose|j: int| old_self.has_key_at(q, j);
                            assert(self.has_key_at(q, j));
                        }
                        assert(self.has_key_at(k, i as int));
                    }
                }
            },
            None => {
                let ghost before = entries@;
                entries.push((key, value));
                proof {
                    assert forall|j: int| 0 <= j < before.len() implies entries@[j] == before[j] by {}
                    assert forall|a: int, b: int| 0 <= a < b < entries@.len() implies entries@[a].0@
                        != entries@[b].0@ by {
                        if b == before.len() {
                            assert(!old_self.has_key_at(k, a));
                        }
                    }
                }
                self.entries = entries;
                proof {
                    let n = before.len() as int;
                    assert(self.has_key_at(k, n));
                    assert forall|q: Seq<char>, j: int| j < n implies self.has_key_at(q, j)
                        == old_self.has_key_at(q, j) by {}
                    assert(self@.dom() =~= old_self@.insert(k, value@).dom()) by {
                        assert forall|q: Seq<char>| #[trigger] self@.dom().contains(q) implies old_self@.insert(k, value@).dom().contains(q) by {
                            let j = choose|j: int| self.has_key_at(q, j);
                            if j < n {
                                assert(old_self.has_key_at(q, j));
                            }
                        }
                        assert forall|q: Seq<char>| #[trigger] old_self@.dom().contains(q) implies self@.dom().contains(q) by {
                            let j = choose|j: int| old_self.has_key_at(q, j);
                            assert(self.has_key_at(q, j));
                        }
                    }
                }
            },
        }
        proof {
            use_type_invariant(&*self);
            assert forall|q: Seq<char>| #[trigger] self@.contains_key(q) implies self@[q]
                == old_self@.insert(k, value@)[q] by {
                let j = choose|j: int| self.has_key_at(q, j);
                self.lemma_index(q, j);
                if q != k {
                    old_self.lemma_index(q, j);
                }
            }
            assert(self@ =~= old_self@.insert(k, value@));
        }
    }

    /// Removes the script registered for `key`, if any.
    pub fn remove(&mut self, key: &String)
        ensures
            final(self)@ == old(self)@.remove(key@),
    {
        proof {
            use_type_invariant(&*self);
        }
        let ghost old_self = *self;
        match self.find(key) {
            Some(i) => {
                let mut entries: Vec<(String, String)> = Vec::new();
                std::mem::swap(&mut entries, &mut self.entries);
                let ghost before = entries@;
                entries.remove(i);
                self.entries = entries;
                proof {
                    assert forall|q: Seq<char>| #[trigger] self@.contains_key(q)
                        == old_self@.remove(key@).contains_key(q) by {
                        if exists|j: int| old_self.has_key_at(q, j) && q != key@ {
                            let j = choose|j: int| old_self.has_key_at(q, j) && q != key@;
                            if j < i {
                                assert(self.has_key_at(q, j));
                            } else {
                                assert(j != i);
                                assert(self.has_key_at(q, j - 1));
                            }
                        }
                        if exists|j: int| self.has_key_at(q, j) {
                            let j = choose|j: int| self.has_key_at(q, j);
                            if j < i {
                                assert(old_self.has_key_at(q, j));
                                assert(q != key@);
                            } else {
                                assert(old_self.has_key_at(q, j + 1));
                                assert(q != key@);
                            }
                        }
                    }
                    use_type_invariant(&*self);
                    assert forall|q: Seq<char>| #[trigger] self@.contains_key(q) implies self@[q]
                        == old_self@.remove(key@)[q] by {
                        let j = choose|j: int| self.has_key_at(q, j);
                        self.lemma_index(q, j);
                        if j < i {
                            old_self.lemma_index(q, j);
                        } else {
                            old_self.lemma_index(q, j + 1);
                        }
                    }
                    assert(self@ =~= old_self@.remove(key@));
                }
            },
            None => {
                proof {
                    assert(self@ =~= old_self@.remove(key@));
                }
            },
        }
    }
}

/// What `complete` prints.
pub struct CompleteOutput {
    /// A line for standard output, if any.
    pub stdout: Option<String>,
    /// A line for standard error, if any.
    pub stderr: Option<String>,
}

/// `complete`: registers, shows and removes completion scripts.
pub struct CompleteCommand {
    name: String,
}

/// The text of `s`, if any.
pub open spec fn line_view(s: Option<String>) -> Option<Seq<char>> {
    match s {
        Some(l) => Some(l@),
        None => None,
    }
}

impl CompleteCommand {
    /// A `complete` builtin invoked as `name`.
    pub fn new(name: String) -> (r: Self)
        ensures
            r.command_name() == name@,
    {
        CompleteCommand { name }
    }

    /// `complete -p NAME`: prints the registration of NAME.
    fn print_completion(&self, args: &[String], specs: &CompletionSpecs) -> (out: CompleteOutput)
        ensures
            if args@.len() < 2 {
                line_view(out.stdout) == None::<Seq<char>> && line_view(out.stderr) == Some(
                    "complete: -p: missing argument"@,
                )
            } else if specs@.contains_key(args@[1]@) {
                line_view(out.stdout) == Some("complete -C '"@ + specs@[args@[1]@] + "' "@ + args@[1]@)
                    && line_view(out.stderr) == None::<Seq<char>>
            } else {
                line_view(out.stdout) == None::<Seq<char>> && line_view(out.stderr) == Some(
                    "complete: "@ + args@[1]@ + ": no completion specification"@,
                )
            },
    {
        if args.len() < 2 {
            return CompleteOutput {
                stdout: None,
                stderr: Some("complete: -p: missing argument".to_string()),
            };
        }
        match specs.get(&args[1]) {
            Some(value) => {
                let mut line = "complete -C '".to_string();
                line.append(value.as_str());
                line.append("' ");
                line.append(args[1].as_str());
                CompleteOutput { stdout: Some(line), stderr: None }
            },
            None => {
                let mut line = "complete: ".to_string();
                line.append(args[1].as_str());
                line.append(": no completion specification");
                CompleteOutput { stdout: None, stderr: Some(line) }
            },
        }
    }

    /// `complete -C SCRIPT NAME`: registers SCRIPT for NAME.
    fn register_completion(&self, args: &[String], specs: &mut CompletionSpecs) -> (err: Option<
        String,
    >)
        requires
            args@.len() != 2,
        ensures
            if args@.len() < 2 {
                line_view(err) == Some("complete: -C: missing argument"@) && final(specs)@ == old(
                    specs,
                )@
            } else {
                err is None && final(specs)@ == old(specs)@.insert(args@[2]@, args@[1]@)
            },
    {
        if args.len() < 2 {
            return Some("complete: -C: missing argument".to_string());
        }
        specs.insert(args[2].clone(), args[1].clone());
        None
    }

    /// `complete -r NAME`: removes the registration of NAME.
    fn unregister_completion(&self, args: &[String], specs: &mut CompletionSpecs) -> (err: Option<
        String,
    >)
        ensures
            if args@.len() < 2 {
                line_view(err) == Some("complete: -r: missing argument"@) && final(specs)@ == old(
                    specs,
                )@
            } else {
                err is None && final(specs)@ == old(specs)@.remove(args@[1]@)
            },
    {
        if args.len() < 2 {
            return Some("complete: -r: missing argument".to_string());
        }
        if specs.contains_key(&args[1]) {
            specs.remove(&args[1]);
        } else {
            proof {
                assert(specs@ =~= specs@.remove(args@[1]@));
            }
        }
        None
    }

    /// Runs `complete` with `args` on the registered scripts `specs`: `-p NAME`
    /// prints, `-C SCRIPT NAME` registers, `-r NAME` removes; anything else does
    /// nothing.
    pub fn execute(&self, args: &[String], specs: &mut CompletionSpecs) -> (out: CompleteOutput)
        requires
            args@.len() == 2 ==> args@[0]@ != "-C"@,
        ensures
            args@.len() == 0 ==> line_view(out.stdout) == None::<Seq<char>> && line_view(out.stderr)
                == None::<Seq<char>> && final(specs)@ == old(specs)@,
            args@.len() > 0 && args@[0]@ == "-p"@ ==> final(specs)@ == old(specs)@ && if args@.len()
                < 2 {
                line_view(out.stdout) == None::<Seq<char>> && line_view(out.stderr) == Some(
                    "complete: -p: missing argument"@,
                )
            } else if old(specs)@.contains_key(args@[1]@) {
                line_view(out.stdout) == Some(
                    "complete -C '"@ + old(specs)@[args@[1]@] + "' "@ + args@[1]@,
                ) && line_view(out.stderr) == None::<Seq<char>>
            } else {
                line_view(out.stdout) == None::<Seq<char>> && line_view(out.stderr) == Some(
                    "complete: "@ + args@[1]@ + ": no completion specification"@,
                )
            },
            args@.len() > 0 && args@[0]@ == "-C"@ ==> line_view(out.stdout) == None::<Seq<char>>
                && if args@.len() < 2 {
                line_view(out.stderr) == Some("complete: -C: missing argument"@) && final(specs)@
                    == old(specs)@
            } else {
                line_view(out.stderr) == None::<Seq<char>> && final(specs)@ == old(specs)@.insert(
                    args@[2]@,
                    args@[1]@,
                )
            },
            args@.len() > 0 && args@[0]@ == "-r"@ ==> line_view(out.stdout) == None::<Seq<char>>
                && if args@.len() < 2 {
                line_view(out.stderr) == Some("complete: -r: missing argument"@) && final(specs)@
                    == old(specs)@
            } else {
                line_view(out.stderr) == None::<Seq<char>> && final(specs)@ == old(specs)@.remove(
                    args@[1]@,
                )
            },
            args@.len() > 0 && args@[0]@ != "-p"@ && args@[0]@ != "-C"@ && args@[0]@ != "-r"@
                ==> line_view(out.stdout) == None::<Seq<char>> && line_view(out.stderr) == None::<
                Seq<char>,
            > && final(specs)@ == old(specs)@,
    {
        proof {
            reveal_strlit("-p");
            reveal_strlit("-C");
            reveal_strlit("-r");
            assert("-C"@[1] == 'C' && "-p"@[1] == 'p' && "-r"@[1] == 'r');
            assert("-C"@ != "-p"@ && "-r"@ != "-p"@ && "-r"@ != "-C"@);
        }
        if args.len() == 0 {
            return CompleteOutput { stdout: None, stderr: None };
        }
        let option = chars_of(args[0].as_str());
        if chars_eq(option.as_slice(), chars_of("-p").as_slice()) {
            self.print_completion(args, specs)
        } else if chars_eq(option.as_slice(), chars_of("-C").as_slice()) {
            let err = self.register_completion(args, specs);
            CompleteOutput { stdout: None, stderr: err }
        } else if chars_eq(option.as_slice(), chars_of("-r").as_slice()) {
            let err = self.unregister_completion(args, specs);
            CompleteOutput { stdout: None, stderr: err }
        } else {
            CompleteOutput { stdout: None, stderr: None }
        }
    }
}

impl Command for CompleteCommand {
    closed spec fn command_name(&self) -> Seq<char> {
        self.name@
    }

    fn get_name_copy(&self) -> (r: String) {
        self.name.clone()
    }
}

/// Registering a script for a command and then asking for it gives that script
/// back, and after removing it the command has none.
pub proof fn law_registered_script_is_shown(
    specs: Map<Seq<char>, Seq<char>>,
    name: Seq<char>,
    script: Seq<char>,
)
    ensures
        specs.insert(name, script).contains_key(name),
        specs.insert(name, script)[name] == script,
        !specs.insert(name, script).remove(name).contains_key(name),
{
}

} // verus!
