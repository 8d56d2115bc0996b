# orangu

The logic of the orangu tools — an inference server, its coordinator, the terminal client and the
file tools around them — as a library whose behaviour is stated in contracts and proved.

- `src/` is the library. Every function in it is verified but for a few wrappers: what it takes
  from other crates and from the standard library is believed, as far as each wrapper's contract
  goes, and a comment above it says what that is.
- `tests/` runs it on concrete values.
- `app/` is what stands around it: files, sockets, terminals, graphics cards, and arithmetic in
  floating point.

Numbers with a point cross the library's edge as their bit patterns, times as whole nanoseconds,
and paths as text.

| module | what it is about |
| :-- | :-- |
| `text`, `ieee`, `json`, `gguf` | characters, bit patterns, JSON values, file metadata |
| `quantize`, `blocks`, `quant` | weight types, the layout of quantized blocks, which tensor gets which type |
| `hadamard` | folded weights: what a file declares, which rotation a weight needs, what was claimed |
| `safetensors`, `lora`, `merged` | tensor files, adapters, and merged weights kept on disk |
| `image`, `latent`, `scheduler` | a picture's request, its steps, its latent, and its noise |
| `multi`, `prefill_backend`, `clock` | devices: where an operation runs, and holding a card's clock |
| `llm`, `coordinator`, `mcp` | messages, tool calls, coordinators, and the server inventory |
| `logging`, `shell_completions`, `gguf_shell`, `coordinator_shell` | where a process logs, and completion scripts |
| `session_picker`, `selection`, `graph_status` | the terminal: picking a session, selecting text, scans |
| `table`, `format` | comparison tables, sizes and waits |
