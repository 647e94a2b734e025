# wait_for_lsp

An LSP proxy that sits between an editor client and a language server and filters
`textDocument/publishDiagnostics` notifications: it can drop them all, keep only the
diagnostics up to a severity, drop those older than the latest version the client reported
for a document, and write only the latest notification per document for each chunk read
from the server.

The library in `src/` is verified with Verus:

- `text.rs` — white space trimming, lower-casing, decimal numerals.
- `json.rs` — the JSON values the filter works on, with their mathematical view.
- `config.rs` — the `STAY_FRESH_*` settings.
- `parser.rs` — Content-Length framing: reading frames from a byte stream and writing them.
- `filter.rs` — the diagnostic filter and the map of document versions.
- `proxy.rs` — what is written for each chunk of server output, version tracking from the
  client's messages, and the exit code.

`app/` holds the program: argument parsing, the environment, the child process, the three
forwarding threads, and the conversion between `serde_json::Value` and the library's values.
