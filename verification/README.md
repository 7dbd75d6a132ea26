# wiki-graph

The link graph of an encyclopedia, and the races that are played on it: parse a
dump into integer articles and links, find shortest paths, set races with a par
that is the shortest route there is, judge what players claim to have walked,
and rank it.

## Layout

- `src/` is the library. It is written in [Verus](https://github.com/verus-lang/verus):
  every function states what it does in `requires` and `ensures`, and is proved to.
  The proof functions whose names begin with `law_` state what holds of the
  library as a whole.
- `tests/` are ordinary tests on concrete values.
- `app/` is the program around the library: the command line, XML and Parquet
  files, the HTTP service, and what is computed in floating point (positions on
  the map, coordinates, rate limits).

## What is believed without proof

A few functions call other crates or the standard library, and their contracts
are taken on trust. Each stands alone, is marked `external_body` (or is an
`assume_specification`), and says in its comment what is claimed:

| where | what |
|---|---|
| `src/fx.rs` | hash tables of `rustc-hash` |
| `src/unicode.rs` | upper case, lower case and character classes |
| `src/text.rs` | `String::push` |
| `src/dump.rs` | the predefined entities of `quick-xml`, characters by code |
| `src/identity.rs` | HMAC-SHA256 of `hmac` and `sha2` |
| `src/runs.rs` | quoting by `{:?}` |
| `src/duel.rs` | JSON strings of `serde_json` |
| `src/labels.rs` | JSON objects of `serde_json` |

## The program

    wiki-graph parse <dump>.xml.bz2 --out data
    wiki-graph pathfind --data data "Cat" "Philosophy"
    wiki-graph pools --data data
    wiki-graph serve --data data --state state
    wiki-graph static-export --data data --out static_site
