# memhack

A process-memory scanner and editor, in two parts.

- `src/` is the verified library. It holds the value encodings
  (`types`, `encoding`), the numeric comparison of memory readings
  (`numeric`), the scanning engine (`scanner`: chunk planning, first scans,
  rescans), the walk over the address space (`regions`), the value
  freezer's bookkeeping (`freezer`), address tables and their file names
  (`table`), the process list (`process`), the state behind the commands
  (`session`), and the messages and outcomes of writes (`writer`, `format`).
  The standard library's lossy text decoding, Unicode classification and
  lower-casing are used through a few trusted functions in `text`.
- `app/` is ordinary Rust around it: Win32 calls (process snapshots,
  `OpenProcess`, `VirtualQueryEx`, `ReadProcessMemory`, `WriteProcessMemory`),
  the freezer's background thread, table files on disk, the JSON copies of
  the value types, approximate matching of floating-point values, and the
  command handlers.
- `tests/` runs the library on concrete values.
