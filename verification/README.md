# search_semantically

Embeddable local code search: files are cut into chunks, six signals score
each chunk against a query, and a Pareto-optimal election ranks them.

The library under `src/` is verified with Verus. Each public function states
its result over a mathematical model (`Seq<char>` for text, `Seq` of chunk
values for chunk lists), and the proof functions state properties that hold
across calls.

- `text`, `util`: the character model of strings, lines, trimming, splitting,
  searching and byte-bounded truncation.
- `text_chunker`, `ts_chunker`, `chunker`: chunking of Markdown, YAML, TOML,
  JSON, plain text and Rust (through a tree-sitter parse), and splitting of
  oversized chunks.
- `query_classifier`, `metrics`: query types, tokens, full-text query
  cleaning, path and symbol matches, import-graph neighbours and the commit
  history read from `git log`.
- `scanner`, `engine`: file types, which scanned files are indexed, index
  planning, import extraction, directory filters and result selection.
- `ranker`, `format`: the integer core of the election (weights, pruning,
  votes) and the text of the results.

`app/` holds what touches the outside world or works on floating-point
scores: the SQLite store, the ONNX embedder, the directory walk, the six
score computations and the search loop that ties them together.
