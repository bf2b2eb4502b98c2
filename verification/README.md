# symposium

Symposium gives a coding agent what the crates of a workspace bring along:
skills, compiled into plugin directories the agent reads, and MCP servers,
offered through one meta-server with two tools.

`src/` decides and touches nothing. Its contracts are proved by Verus.

| module | what it decides |
| --- | --- |
| `agent_plugin` | which plugins compile to which directories, for whom, and which directories are stale |
| `agent_plugin::manifest` | the names the plugin format accepts, and the documents written |
| `mcp::resolve` | which backing servers a workspace makes available, and why others are refused |
| `mcp::catalog`, `mcp::glob` | what a query is told of their tools, and what a script can call |
| `mcp::declarations`, `mcp::schema_to_ts`, `mcp::named_types` | TypeScript declarations of tools, JSON Schemas and the types they share |
| `mcp::dispatch`, `mcp::sandbox` | what a script's calls hand over, and what its ending means |
| `mcp::server` | the two tools of the meta-server and what a call of either leads to |
| `predicate`, `predicate_cache` | gates, and when a cached predicate result is still good |
| `plugins`, `skills`, `paths` | packages and names, origin hashes, paths as text |
| `json`, `json_text`, `text` | JSON values, JSON documents, and the texts everything is made of |

`app/` is the world around it: the protocol over stdio, the JavaScript engine,
staging directories, file times and environment variables.
