# oxideprobe

A bounded TCP connect scanner's core, verified with Verus: the
`nmap-service-probes` database parser, port specifications, choosing the
probes for an open port, and matching service responses against the probes'
signatures (through the `regex` crate).

- `src/` — the verified library (`text`, `ports`, `probe`, `signature`,
  `database`, `scan`).
- `tests/` — tests of the library.
- `app/` — the command line: downloading or reading the database and writing
  it as JSON, and the network side of scanning (connections, sending probes,
  reading banners).

The command line has two subcommands, `parse` (write the probe database as
JSON) and `scan`:

```bash
oxideprobe parse --output probes.json
oxideprobe scan --target 127.0.0.1 --ports 22,80,443,8000-8010 --probes probes.json
oxideprobe scan --target 127.0.0.1 --ports 1-1024 --no-service-detection --json
```
