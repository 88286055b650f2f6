# rtk — verified output condensers

A library that condenses the output of command-line tools for readers with
little room (such as coding agents), with its behaviour stated in Verus
contracts and proved.

- `src/utils.rs` — character-level text handling with specifications:
  trimming, `str::lines`, splitting, searching, decimal numbers, `usize`
  parsing, UTF-8 byte lengths, lexicographic order, `truncate`.
- `src/grep_cmd.rs` — grep/rg arguments (locating the pattern, stripping the
  grep flags that rg reads differently, the grep fallback's arguments, output
  format detection) and the grouping of `file:line:content` results by file.
- `src/curl_cmd.rs` — shortening curl responses: JSON pretty-printed through
  serde_json, plain text trimmed, both cut to a number of lines.
- `src/diff_cmd.rs` — index-by-index line comparison with its report, and
  the condensed summary of unified diffs.
- `app/` — the command runners: they start rg, grep, curl and diff, read files
  and standard input, print, and choose exit codes.
- `tests/` — the tests, run against the compiled library.
