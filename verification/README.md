# shell

A small interactive Unix-style shell. The decisions it makes are a verified
library (`src/`, checked with Verus); the program around it (`app/main.rs`) reads
lines with `rustyline`, touches the file system and starts processes.

- `tokenizer`, `token`: splits a command line into words, pipes and
  redirections (single and double quotes, backslash escapes, `>`, `>>`, `1>`,
  `1>>`, `2>`, `2>>`), against a specification of the lexer as an automaton.
- `command_dispatcher`, `redirect`: command words and redirections of a token
  list, and what to run for a line (builtin, program of the search path, or a
  message).
- `path_resolver`, `external_command`: search-path lookup, given a probe that
  says whether a file is an executable.
- `builtins`: `exit`, `echo`, `pwd`, `cd`, `type`, `complete` and the map of
  registered completion scripts.
- `auto_completion`, `string_set`: tab completion of commands, files and script
  output, with the double-tab listing.
- `shell`: the builtin set and the read loop's decisions.
- `text`: white space, trimming, joining and comparing characters.
