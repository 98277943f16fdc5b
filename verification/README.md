# casp

Lists the sessions that coding agents leave on a machine, and lets one be
picked on a terminal.

- `src/` is the library, written and verified with Verus: sorting and limiting
  sessions, the picker's rows, keys and screen, fuzzy ranking, scopes by
  directory, relative times, and the cache of what was read out of session
  files. Its contracts are stated over sequences, maps and sets; proof
  functions named `law_..` state what holds of several functions together.
- `app/` is the program around it: the command line, the terminal, files, and
  JSON.
- `tests/` runs the library on given values.

What the library takes on trust is declared where it is used: the matcher of
`nucleo-matcher` in `src/fuzzy.rs`, the time stamps of `jiff` in `src/time.rs`,
and `String::push` and `String::pop` in `src/text.rs`.
