use vstd::prelude::*;

verus! {

/// The path of `name` in the directory `dir`, as `std::path::Path::join` makes
/// it.
pub uninterp spec fn path_join(dir: Seq<char>, name: Seq<char>) -> Seq<char>;

/// The path of `name` in the directory `dir`.
///
/// Trusted: calls `std::path::Path::join`; the contract only names its result
/// (`path_join`), a function of `dir` and `name` alone. Both are `&str`, so the
/// joined path is valid UTF-8 and the conversion keeps every character.
#[verifier::external_body]
fn join_path(dir: &String, name: &String) -> (r: String)
    ensures
        r@ == path_join(dir@, name@),
{
    std::path::Path::new(dir).join(name).to_string_lossy().into_owned()
}

/// Whether the probe, given the path of `name` in `dir`, may answer `r`.
pub open spec fn probe_gives<F: Fn(&String) -> Option<String>>(
    probe: F,
    dir: String,
    name: String,
    r: Option<String>,
) -> bool {
    exists|f: String| f@ == path_join(dir@, name@) && #[trigger] call_ensures(probe, (&f,), r)
}

/// Whether a lookup of `name` through `dirs` with the probe `probe` may end with
/// `r`: the probe is asked about the path of `name` in each directory in turn,
/// and the first directory for which it gives a path decides; `None` means that
/// it gave nothing for any directory.
pub open spec fn lookup_result<F: Fn(&String) -> Option<String>>(
    probe: F,
    dirs: Seq<String>,
    name: String,
    r: Option<String>,
) -> bool {
    match r {
        Some(p) => exists|i: int|
            0 <= i < dirs.len() && probe_gives(probe, dirs[i], name, Some(p)) && (forall|j: int|
                0 <= j < i ==> #[trigger] probe_gives(probe, dirs[j], name, None)),
        None => forall|j: int|
            0 <= j < dirs.len() ==> #[trigger] probe_gives(probe, dirs[j], name, None),
    }
}

/// Looks a command up in the directories of the search path.
#[derive(Clone)]
pub struct PathResolver {
    directories: Vec<String>,
}

impl PathResolver {
    /// The search path, in order.
    pub closed spec fn dirs(&self) -> Seq<String> {
        self.directories@
    }

    /// A resolver that searches `directories`, in order.
    pub fn new(directories: Vec<String>) -> (r: Self)
        ensures
            r.dirs() == directories@,
    {
        PathResolver { directories }
    }

    /// The directories of the search path, in order.
    pub fn directories(&self) -> (r: &Vec<String>)
        ensures
            r@ == self.dirs(),
    {
        &self.directories
    }

    /// Finds `name` in the search path: `is_executable(path)` gives the path of
    /// `name` in a directory when it is an executable file there, and the first
    /// directory for which it does wins.
    pub fn resolve<F: Fn(&String) -> Option<String>>(
        &self,
        name: &String,
        is_executable: F,
    ) -> (r: Option<String>)
        requires
            forall|f: &String| #[trigger] is_executable.requires((f,)),
        ensures
            lookup_result(is_executable, self.dirs(), *name, r),
    {
        let mut i: usize = 0;
        while i < self.directories.len()
            invariant
                i <= self.directories@.len(),
                forall|f: &String| #[trigger] is_executable.requires((f,)),
                forall|j: int|
                    0 <= j < i ==> #[trigger] probe_gives(
                        is_executable,
                        self.directories@[j],
                        *name,
                        None,
                    ),
            decreases self.directories@.len() - i,
        {
            let full = join_path(&self.directories[i], name);
            let found = is_executable(&full);
            assert(call_ensures(is_executable, (&full,), found));
            assert(probe_gives(is_executable, self.directories@[i as int], *name, found));
            match found {
                Some(p) => {
                    return Some(p);
                },
                None => {},
            }
            i += 1;
        }
        None
    }
}

} // verus!
