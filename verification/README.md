# spout

A local development port registry: one JSON file maps each project's
services to ports in 20000–32767, with permanent leases and a history of
released ports.

## Layout

- `src/` — the library, verified with Verus. It holds the registry model
  (`registry`, `strmap`), port allocation (`allocator`, `realloc`,
  `reproject`), compose-file handling (`compose`), project identity
  (`project`, `markers`, `paths`), stale-entry pruning (`prune`), removal
  (`rm`), every rendering (`format`, `rich`, `tui`, `error`, `commands`),
  dates (`date`) and text helpers (`text`). `laws` states the properties
  that span several registry operations.
- `app/` — the `spout` binary: argument parsing, the registry file's JSON
  and locking, the compose files' YAML, terminal prompts, the full-screen
  viewer, and the operating-system probes (port binds, file checks, git).
  It decides nothing itself.
- `tests/` — tests of the library on concrete values.

The library takes everything it cannot see for itself (whether a port is
free, whether a file exists, what git reports) as arguments or closures,
so its contracts state what it does for every answer the system gives.
