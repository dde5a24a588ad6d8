# bw_sanitize

Reversible sanitization of Bitwarden JSON exports, and analysis and merging of
duplicate login items, written in Verus.

- `src/` is the verified library. JSON documents are held as `json::JsonValue`
  and reasoned about through their model `json::Json`.
  - `sanitize`, `restore`, `tree`: replacing sensitive strings by tokens and
    back; `restore::law_restore_undoes_sanitize` and its neighbours state the
    round trip and the stability of tokens.
  - `records`, `endpoint`, `relate`, `report`, `group`, `analyze`, `markdown`:
    reading login items, relating them by host, domain, brand and self-host
    evidence, and reporting merge candidates, password conflicts and review
    groups.
  - `merge`, `serial`, `apply`: merging items and applying the merge groups.
    A manual URI group is applied only when at least two items match it and
    all of them share one username and password; otherwise it is counted as
    unmatched.
  - `mapfile`: what the mapping file reader decides.
  - `reviews`: which credential groups are listed for review.
  - `laws`: properties that relate several functions.
- `app/` is the command-line program: argument parsing, files, and the
  conversion between `serde_json::Value` and the library's values.
- `tests/` runs the library on concrete exports.
