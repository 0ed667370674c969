# ecooff

A Windows tool that releases chosen processes from EcoQoS power throttling.
Which processes are released is decided by a rule read from
`~/ecooff/config.toml`:

```toml
scan_interval_secs = 20
allow = ["python.exe", "node.exe", "Code.exe"]
allow_parent = ["Code.exe"]
deny = ["svchost.exe", "explorer.exe"]
```

- `allow`: processes with one of these names (compared in ASCII lower case);
- `allow_parent`: every process with such an ancestor, at any depth;
- `deny`: never released; it takes precedence over both.

## Layout

- `src/` is the verified library (Verus):
  - `text.rs`: characters, trimming, lower-casing, lines, decimal numbers;
  - `names.rs`: name sets and their lexicographic order;
  - `rule.rs`: the rule, the configuration reader and writer, the checks
    before saving, and which processes the rule releases;
  - `roundtrip.rs`: proofs that a written configuration reads back as written;
  - `ancestry.rs`: proofs of what the rule means in terms of ancestors;
  - `scan.rs`: the process table, what a scan logs and shows, the dashboard;
  - `task.rs`: the command line of the scheduled-task helper.
- `app/` is the program around it: the Tauri user interface, the scanner
  thread, the Windows calls and file access.
- `tests/` exercises the library.
