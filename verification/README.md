# codecrafters_shell

A small interactive shell whose logic is a Verus-verified library.

- `src/` (verified): the tokenizer (quotes, escapes, `$name` expansion,
  redirect and pipeline operators), command parsing and pipeline splitting,
  the builtins' decisions and output (`echo`, `type`, `cd`, `complete`,
  `history`), the command history, shell variables, the completion table and
  the completer's candidates, `PATH` handling, job numbering, and how each
  command of a pipeline is wired. Laws about them are public proof functions
  named `law_*`.
- `app/main.rs`: the line editor (rustyline), files, processes, pipes and the
  environment; it hands the library plain values and writes what it returns.
- `tests/`: tests of the library on concrete values.
