use vstd::prelude::*;

use crate::builtins::Command;

verus! {

/// `exit`: ends the shell.
pub struct ExitCommand {
    name: String,
}

impl ExitCommand {
    /// An `exit` builtin invoked as `name`.
    pub fn new(name: String) -> (r: Self)
        ensures
            r.command_name() == name@,
    {
        ExitCommand { name }
    }

    /// Runs `exit`: whatever the arguments, the shell stops (the result, whether
    /// the shell goes on, is `false`).
    pub fn execute(&self, args: &[String]) -> (keep_running: bool)
        ensures
            !keep_running,
    {
        false
    }
}

impl Command for ExitCommand {
    closed spec fn command_name(&self) -> Seq<char> {
        self.name@
    }

    fn get_name_copy(&self) -> (r: String) {
        self.name.clone()
    }
}

} // verus!
