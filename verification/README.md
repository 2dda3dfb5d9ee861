# any-lsp

A language-agnostic language server: `textDocument/definition` and
`textDocument/references` answered by exact text search (ripgrep for files on
disk, memory for open buffers), with a heuristic that tells declarations,
headings and prose definitions apart from plain mentions.

## Layout

- `src/` — the verified library (Verus):
  - `text.rs`: characters, UTF-8/UTF-16 lengths, whitespace, comparisons;
  - `json.rs`: the JSON values the protocol logic reads;
  - `position.rs`: URIs and paths, UTF-16 columns, the symbol under the cursor;
  - `search.rs`: whole-word matching in buffers, grep's fixed-string matcher on
    the lines of files, occurrences, the merged search result;
  - `navigation.rs`: definition scores and the ranking of definitions;
  - `server.rs`: the server's state and requests, as steps that the caller
    carries out (read a file, search the workspace) and resumes;
  - `transport.rs`: `Content-Length` framing and header parsing.
- `app/` — the executable: arguments, standard streams, the file system,
  `serde_json` and the ripgrep file walk, driving the library's steps.
- `tests/` — tests against the library, with an in-memory workspace standing
  in for the file search.
