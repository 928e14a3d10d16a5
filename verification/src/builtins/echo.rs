use vstd::prelude::*;

use crate::builtins::Command;
use crate::text::{join, join_strings, strings_view, trim, trim_string};

verus! {

/// `echo`: prints its arguments.
pub struct EchoCommand {
    name: String,
}

impl EchoCommand {
    /// An `echo` builtin invoked as `name`.
    pub fn new(name: String) -> (r: Self)
        ensures
            r.command_name() == name@,
    {
        EchoCommand { name }
    }

    /// The line that `echo` prints: its arguments joined by single spaces, without
    /// leading or trailing white space.
    pub fn execute(&self, args: &[String]) -> (line: String)
        ensures
            line@ == trim(join(strings_view(args@), " "@)),
    {
        let joined = join_strings(args, " ");
        trim_string(joined.as_str())
    }
}

impl Command for EchoCommand {
    closed spec fn command_name(&self) -> Seq<char> {
        self.name@
    }

    fn get_name_copy(&self) -> (r: String) {
        self.name.clone()
    }
}

} // verus!
