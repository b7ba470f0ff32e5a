# instant_file_search

A file-name index with an Everything-style query language, verified with
Verus.

- `src/` — the verified library: the query language (tokenizer, wildcard and
  regex terms, size/date/attribute filters, sorting, paging, aggregation), the
  in-memory index with recursive directory sizes and a bounded change log,
  the content store, the request protocol, NTFS record and USN journal
  parsing, fanotify event parsing, the change-watcher decisions, and the
  result formatting of the MCP tools. Laws over several operations are in
  `index_laws.rs`, `folder_laws.rs` and `folder_totals.rs` (directory sizes
  after a scan are the totals of the files below them).
- `app/` — the program around it: the indexer daemon (volume discovery,
  directory walk, fanotify watcher, Unix-socket server), the MCP server over
  stdio, and the benchmark timer.
- `tests/` — tests of the library.

Run `instant-file-search serve` to build the index and answer requests on
`/tmp/instant-file-search-indexer.sock`, `instant-file-search mcp` to serve
the MCP tools, `instant-file-search scan` for a one-shot scan report, and
`instant-file-search benchmark` to time queries on a synthetic index.

## Scope

The program in `app/` runs on Linux only: the Windows parts (reading NTFS
volumes, the USN journal watcher, the named-pipe server and the Everything IPC
engine) and the macOS watcher are not included, although the library parses
NTFS records, USN records and builds Everything queries. The index is kept in
memory; there is no durable SQLite storage mode, so `status` always reports
`memory` and the benchmark runs in memory only.
