use vstd::prelude::*;

use crate::builtins::Command;
use crate::path_resolver::{lookup_result, PathResolver};
use crate::redirect::opt_view;
use crate::text::{contains_string, strings_view};

verus! {

/// What `type` prints for `target` after looking it up in the search path:
/// the full path found, or that nothing was found.
pub open spec fn lookup_message(target: Seq<char>, found: Option<Seq<char>>) -> Seq<char> {
    match found {
        Some(p) => target + " is "@ + p,
        None => target + ": not found"@,
    }
}

/// `type`: tells how a name would be run.
pub struct TypeCommand {
    name: String,
    builtins: Vec<String>,
    resolver: PathResolver,
}

impl TypeCommand {
    /// The names that `type` reports as builtins.
    pub closed spec fn builtin_names(&self) -> Seq<Seq<char>> {
        strings_view(self.builtins@)
    }

    /// The resolver through which `type` searches programs.
    pub closed spec fn resolver_spec(&self) -> PathResolver {
        self.resolver
    }

    /// A `type` builtin invoked as `name`, which knows the builtins `builtins`
    /// and searches programs with `resolver`.
    pub fn new(name: String, builtins: Vec<String>, resolver: PathResolver) -> (r: Self)
        ensures
            r.command_name() == name@,
            r.builtin_names() == strings_view(builtins@),
            r.resolver_spec() == resolver,
    {
        TypeCommand { name, builtins, resolver }
    }

    /// The line that `type` prints for `args`: a missing argument is reported; a
    /// builtin is named so; otherwise the first argument is looked up in the
    /// search path (see `PathResolver::resolve`) and its full path, or its
    /// absence, is reported.
    pub fn execute<F: Fn(&String) -> Option<String>>(
        &self,
        args: &[String],
        is_executable: F,
    ) -> (message: String)
        requires
            forall|f: &String| #[trigger] is_executable.requires((f,)),
        ensures
            if args@.len() == 0 {
                message@ == "type: missing argument"@
            } else if self.builtin_names().contains(args@[0]@) {
                message@ == args@[0]@ + " is a shell builtin"@
            } else {
                exists|found: Option<String>|
                    #[trigger] lookup_result(
                        is_executable,
                        self.resolver_spec().dirs(),
                        args@[0],
                        found,
                    ) && message@ == lookup_message(args@[0]@, opt_view(found))
            },
    {
        if args.len() == 0 {
            return "type: missing argument".to_string();
        }
        let target = &args[0];
        if contains_string(self.builtins.as_slice(), target) {
            let mut m = target.clone();
            m.append(" is a shell builtin");
            return m;
        }
        let found = self.resolver.resolve(target, is_executable);
        let ghost f = found;
        let message = match found {
            Some(full_path) => {
                let mut m = target.clone();
                m.append(" is ");
                m.append(full_path.as_str());
                m
            },
            None => {
                let mut m = target.clone();
                m.append(": not found");
                m
            },
        };
        assert(lookup_result(is_executable, self.resolver_spec().dirs(), args@[0], f));
        message
    }
}

impl Command for TypeCommand {
    closed spec fn command_name(&self) -> Seq<char> {
        self.name@
    }

    fn get_name_copy(&self) -> (r: String) {
        self.name.clone()
    }
}

/// `type` calls a name that is not a builtin a shell builtin only when the path
/// found for it reads `a shell builtin` (the builtins are checked first, see
/// `TypeCommand::execute`).
pub proof fn law_builtin_message_only_for_builtins(target: Seq<char>, found: Option<Seq<char>>)
    requires
        found != Some("a shell builtin"@),
    ensures
        lookup_message(target, found) != target + " is a shell builtin"@,
{
    reveal_strlit(" is ");
    reveal_strlit(": not found");
    reveal_strlit(" is a shell builtin");
    reveal_strlit("a shell builtin");
    let n = target.len() as int;
    let rhs = target + " is a shell builtin"@;
    match found {
        Some(p) => {
            let lhs = target + " is "@ + p;
            if lhs == rhs {
                assert(lhs.skip(n + 4) =~= p);
                assert(rhs.skip(n + 4) =~= "a shell builtin"@);
            }
        },
        None => {
            let lhs = target + ": not found"@;
            assert(lhs[n] == ':');
            assert(rhs[n] == ' ');
        },
    }
}

} // verus!
