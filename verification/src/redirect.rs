use vstd::prelude::*;

verus! {

/// Where the standard output and error of a command go.
pub struct RedirectSpec {
    /// The file that receives standard output, if redirected.
    pub stdout_file: Option<String>,
    /// Whether standard output is appended to that file rather than truncating it.
    pub stdout_append: bool,
    /// The file that receives standard error, if redirected.
    pub stderr_file: Option<String>,
    /// Whether standard error is appended to that file rather than truncating it.
    pub stderr_append: bool,
}

/// A redirection setting as the specification sees it.
pub struct RedirectView {
    pub stdout_file: Option<Seq<char>>,
    pub stdout_append: bool,
    pub stderr_file: Option<Seq<char>>,
    pub stderr_append: bool,
}

/// The text of an optional string.
pub open spec fn opt_view(o: Option<String>) -> Option<Seq<char>> {
    match o {
        Some(s) => Some(s@),
        None => None,
    }
}

impl View for RedirectSpec {
    type V = RedirectView;

    open spec fn view(&self) -> RedirectView {
        RedirectView {
            stdout_file: opt_view(self.stdout_file),
            stdout_append: self.stdout_append,
            stderr_file: opt_view(self.stderr_file),
            stderr_append: self.stderr_append,
        }
    }
}

} // verus!
