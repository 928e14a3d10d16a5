use vstd::prelude::*;

use crate::path_resolver::{lookup_result, PathResolver};

verus! {

/// Runs programs found in the search path.
pub struct ExternalCommand {
    resolver: PathResolver,
}

impl ExternalCommand {
    /// The resolver that finds programs.
    pub closed spec fn resolver_spec(&self) -> PathResolver {
        self.resolver
    }

    /// An external-command runner that looks programs up with `resolver`.
    pub fn new(resolver: PathResolver) -> (r: Self)
        ensures
            r.resolver_spec() == resolver,
    {
        ExternalCommand { resolver }
    }

    /// The resolver that finds programs.
    pub fn resolver(&self) -> (r: &PathResolver)
        ensures
            *r == self.resolver_spec(),
    {
        &self.resolver
    }

    /// Whether `command` names a program of the search path, so that it can be run
    /// (the program itself is started under the name as typed).
    pub fn can_run<F: Fn(&String) -> Option<String>>(
        &self,
        command: &String,
        is_executable: F,
    ) -> (r: bool)
        requires
            forall|f: &String| #[trigger] is_executable.requires((f,)),
        ensures
            exists|found: Option<String>|
                #[trigger] lookup_result(is_executable, self.resolver_spec().dirs(), *command, found)
                    && r == found is Some,
    {
        let found = self.resolver.resolve(command, is_executable);
        assert(lookup_result(is_executable, self.resolver_spec().dirs(), *command, found));
        found.is_some()
    }
}

} // verus!
