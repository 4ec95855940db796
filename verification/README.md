# relayfs

Remote shell and filesystem over a relay, with a FUSE mount and an MCP server.
The logic is a library verified with Verus; the program around it does the I/O.

- `src/` is the verified library.
  - `relay` pairs agents and bridges by a token and routes their frames.
  - `agent` plans commands and file operations and dispatches requests.
  - `bridge` matches answers to requests, keeps the upload queue and the cache
    of a mount, plans kernel requests, moves whole files, and decides who is
    let in over HTTP.
  - `rpc`, `protocol`, `socket` frame the messages; `json`, `encoding`,
    `random` hold the calls into `serde_json`, `base64` and `rand`; `text`,
    `path`, `ids` are shared.
- `app/` is the program: sockets, files, processes, FUSE and the command line.
- `tests/` runs the library.

Functions come with contracts over mathematical views of their data. What holds
across functions stands beside them as public proof functions.
