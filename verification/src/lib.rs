use vstd::prelude::*;

pub mod text;
pub mod token;
pub mod tokenizer;
pub mod redirect;
pub mod path_resolver;
pub mod external_command;
pub mod command_dispatcher;
pub mod builtins;
pub mod string_set;
pub mod auto_completion;
pub mod shell;

verus! {
} // verus!
