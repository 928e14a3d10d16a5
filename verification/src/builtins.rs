use vstd::prelude::*;

pub mod cd_cmd;
pub mod complete;
pub mod echo;
pub mod exit;
pub mod pwd;
pub mod type_cmd;

verus! {

/// A command that the shell runs itself.
pub trait Command {
    /// The name under which the command is invoked.
    spec fn command_name(&self) -> Seq<char>;

    /// A copy of the command's name.
    fn get_name_copy(&self) -> (r: String)
        ensures
            r@ == self.command_name(),
    ;
}

} // verus!
