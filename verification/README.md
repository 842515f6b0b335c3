# combat_log_analyzer

Analysis of Star Trek Online combat logs, verified with Verus.

A combat log line holds a time, the source, the indirect source (a pet) and the
target of a value, the value's name, type and flags, and two numbers. The library
parses such lines, splits the records into combats at pauses longer than the
separation time, groups every player's damage and heals into trees (by target,
value name, indirect source and custom groups), gathers the values of every tree
into flat storage so that each branch names its values by a range, names combats by
rules on the names that occur in them, and shows numbers with their thousands
separated.

Layout:

- `src/` the verified library. `parser.rs`, `entity.rs`, `flags.rs` and `text.rs`
  read log lines; `combat.rs` holds players, combats and the analyzer; `groups.rs`
  and `values_manager.rs` the value trees and their storage; `name_manager.rs`
  interns names with their roles; `settings.rs` the matching rules; `naming.rs` the
  combat names; `value_kind.rs` what a record's numbers describe;
  `number_formatting.rs` the number display; `time.rs` and `grouping_path.rs` hold
  the calls into chrono and smallvec.
- `tests/` tests of the library on concrete logs and values.
- `app/` a command line program that reads a log file, computes the floating point
  metrics and prints a summary of every combat.
