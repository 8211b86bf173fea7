# fstar-mcp

An MCP server over F*'s `--ide` protocol. It keeps a verifying process and a lax companion warm for
each active file, so that a client can edit files on disk and have them checked incrementally.

The server is in two parts.

- `src/` is the library, verified with Verus: what the server decides and computes.
- `app/` is the program around it: pipes, files, the clock, signals, and the tool handlers.

## The library

| Module | What it holds |
|---|---|
| `text`, `paths`, `locations`, `order`, `json` | strings, paths of Unix and of Windows with their order, and JSON values |
| `fstar::shell`, `fstar::environment`, `fstar::config`, `fstar::discovery` | how the configuration of a file is found |
| `fstar::messages`, `fstar::protocol` | the messages of the IDE protocol |
| `fstar::process`, `fstar::solver` | one F* process: its start, its queries, its solver children |
| `session::progress`, `session::dependencies`, `session::digest` | what an edit or a changed dependency leaves valid |
| `session::check`, `session::state` | the course of a check or a lookup, and what a session remembers |
| `session::manager` | which sessions there are, whom they belong to, when they end |
| `mcp::project`, `mcp::replies`, `mcp::tools`, `mcp::transport` | the tools, their answers, and the frames on standard input |

Contracts speak of models: a type `T` has a view `TView` made of sequences and integers, and each
function states its result through spec functions on views. Public proof functions whose names
start with `law_` state what holds across functions.

What other crates compute enters through a few trusted functions, each with a comment that says
what is taken from the crate: JSON documents and what is said of wrong values in them (`serde_json`,
`serde`), digests (`sha2`), the clock and its text (`chrono`), random identifiers (`uuid`) and the
reading of protocol messages (`pmcp`).

## The program

The program reads and writes; whenever something has to be decided it hands an event to the library
and does what the library asks for. `--verbose` logs the traffic with F* on standard error.

| Variable | Default | Meaning |
|---|---:|---|
| `FSTAR_MCP_MAX_SESSIONS` | `4` | sessions at once; the least recently used idle ones make room |
| `FSTAR_MCP_IDLE_TIMEOUT` | `1800` | idle seconds before a session that no client owns is swept |
| `FSTAR_MCP_SWEEP_PERIOD` | `300` | seconds between sweeps |
