use vstd::prelude::*;

use crate::builtins::Command;
use crate::text::{chars_eq, chars_of, join, join_strings, strings_view};

verus! {

/// What `cd` does.
pub enum CdAction {
    /// Go to the home directory.
    ToHome,
    /// Go to this directory.
    ChangeTo(String),
    /// Stay, and print this line on standard error.
    Report(String),
}

/// `cd`: changes the working directory.
pub struct CdCommand {
    name: String,
}

impl CdCommand {
    /// A `cd` builtin invoked as `name`.
    pub fn new(name: String) -> (r: Self)
        ensures
            r.command_name() == name@,
    {
        CdCommand { name }
    }

    /// Decides what `cd` does: the target is the arguments joined by single
    /// spaces; `~` is the home directory; a target that `is_dir` accepts is gone
    /// to; any other target is reported as missing.
    pub fn execute<F: Fn(&String) -> bool>(&self, args: &[String], is_dir: F) -> (r: CdAction)
        requires
            forall|p: &String| #[trigger] is_dir.requires((p,)),
        ensures
            ({
                let path = join(strings_view(args@), " "@);
                if path == "~"@ {
                    r is ToHome
                } else {
                    exists|p: String, b: bool|
                        p@ == path && #[trigger] call_ensures(is_dir, (&p,), b) && if b {
                            r matches CdAction::ChangeTo(q) && q@ == path
                        } else {
                            r matches CdAction::Report(m) && m@ == "cd: "@ + path
                                + ": No such file or directory"@
                        }
                }
            }),
    {
        let path = join_strings(args, " ");
        let home = chars_of("~");
        if chars_eq(chars_of(path.as_str()).as_slice(), home.as_slice()) {
            return CdAction::ToHome;
        }
        let found = is_dir(&path);
        let ghost p = path;
        let r = if found {
            CdAction::ChangeTo(path)
        } else {
            let mut m = "cd: ".to_string();
            m.append(path.as_str());
            m.append(": No such file or directory");
            CdAction::Report(m)
        };
        assert(call_ensures(is_dir, (&p,), found));
        r
    }
}

impl Command for CdCommand {
    closed spec fn command_name(&self) -> Seq<char> {
        self.name@
    }

    fn get_name_copy(&self) -> (r: String) {
        self.name.clone()
    }
}

} // verus!
