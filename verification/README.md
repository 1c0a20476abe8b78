# db_guard

Checks lists of domain names against the Spamhaus Domain Blocklist (DBL)
and reports the verdicts in an XLSX workbook.

- `src/` is the verified library (Verus): normalization of list entries
  (`input`, with the `url` crate behind `host`), DBL query names and return
  codes (`spamhaus`), the verdict on a lookup (`checker`, `addresses`), the
  report cells, counts and order (`report`), and the start-up checks (`run`).
  `text` and `ordering` hold the character-level helpers and the
  lexicographic order of texts.
- `app/` is the command-line program: argument parsing, reading the list,
  the DNS lookups, and writing the workbook.
- `tests/` exercises the library on concrete values.
