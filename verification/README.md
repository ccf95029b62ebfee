# amla-sandbox-shell

The commands of a sandboxed shell, with contracts that Verus proves.

- `src/` is the library. It holds the environment, globbing, paths, I/O handles, the job
  table, the syntax tree and every built-in command. A command that reads a stream is a
  state that is fed chunks; a command that needs the host says what is to be done next and
  is told what came of it.
- `app/` performs what the library decides: it drives streams and files, asks the host,
  runs the JavaScript engine and jq's filters, and works with floating-point numbers.
- `tests/` runs the library.

`serde_json`, `jaq`, `lexopt`, `smallvec` and `base64` are called behind declarations
whose contracts are trusted; each of them says what it claims.
