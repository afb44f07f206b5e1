# yoagent

The decisions of an agent's edges, written and proved in Verus.

- `mcp`: reads the response to an MCP request out of a body as it arrives, chunk by chunk, and
  decides on sessions, statuses and charsets.
- `llm_compaction` and `compaction_llm`: compact a conversation by splicing in a summary that was
  made in the background. `compaction`, `context`, `transcript` and `types` hold what they share.
- `tools::sandbox`: resolves paths and keeps them inside allowed roots.
- `retry`: tells which provider errors are worth another attempt.
- `json`, `status`, `utf8` and `text`: values and texts, and the calls into `serde_json`,
  `reqwest` and the standard library on which the proofs rest.

`src/` is the library. It neither reads nor writes nor waits. `app/` does: it holds the transports,
the filesystem, the background tasks, and what is computed with floating point.
