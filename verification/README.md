# pulse

An event analytics store whose decisions are verified with Verus. Products send
events over HTTP, agents ask questions over MCP, and the operator can erase a
user.

- `src/` is the library. It decides who may write and read (`auth`, `ingest`),
  reads the configuration (`config`), turns incoming events into stored ones
  (`event`, `json`, `time`), frames and seals the log (`wal`, `seal`, `listing`), orders
  compaction and retention (`compactor`), orders erasure (`erase`), writes the queries
  (`query`, `mcp`) and counts funnels (`funnel`). Every function carries its
  contract; the functions named `law_…` state what holds of several of them
  together.
- `app/` is the server around it: HTTP with axum, MCP with rmcp, files, the
  clock, and DataFusion as the query engine.
- `tests/` runs the library on concrete values.

## What is taken on trust

Calls into other crates stand behind small wrappers whose contracts are
believed: instants (chrono), JSON texts and objects (serde_json), header values
(axum's `HeaderValue`), the comparison of keys (subtle), and from std
`str::to_lowercase` and `String::push`.
