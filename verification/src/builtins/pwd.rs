use vstd::prelude::*;

use crate::builtins::Command;

verus! {

/// `pwd`: prints the working directory.
pub struct PwdCommand {
    name: String,
}

impl PwdCommand {
    /// A `pwd` builtin invoked as `name`.
    pub fn new(name: String) -> (r: Self)
        ensures
            r.command_name() == name@,
    {
        PwdCommand { name }
    }
}

impl Command for PwdCommand {
    closed spec fn command_name(&self) -> Seq<char> {
        self.name@
    }

    fn get_name_copy(&self) -> (r: String) {
        self.name.clone()
    }
}

} // verus!
