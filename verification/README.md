# tperf

Multi-server TCP/UDP bandwidth tester. One client drives N servers over a control
socket, streams 1-second metric windows back, prints them, and stores them in
SQLite. IPv4 and IPv6 are both supported.

```text
tperf server [config.toml]
tperf client [config.toml]
tperf analyze --db <file>
```

The library under `src/` is written in Verus: every function in it carries a
contract that Verus proves, and the properties that span several functions stand
beside them as public proof functions whose names begin with `law_`. The program
under `app/` is ordinary Rust around it: sockets, tasks, clocks, the database, and
floating-point rates.

| Module | What it holds |
|---|---|
| `text`, `number`, `bytes`, `order`, `rounding`, `json` | characters, numerals, big-endian numbers, the order of texts, rounding to double precision, lists as JSON |
| `address`, `netutil` | IP and socket addresses, `host:port`, the choice among addresses, waiting between attempts |
| `hostlist`, `size`, `config`, `cli` | host patterns, sizes like `100MiB`, what makes a configuration valid, the command line |
| `testplan` | the round-robin schedule, and who sends to whom |
| `proto` | messages and the frames they travel in |
| `dataplane` | payload, packet headers, sequence gaps, what sender and receiver count |
| `metrics`, `server` | counters, process samples, windows, the control session |
| `client` | the run that a client drives |
| `db`, `analyze` | what the database keeps, grouping its rows, the report |

Four things are taken on trust, each stated where it stands: `String::push`, the
`Debug` form of a text, and writing and reading a list of texts with `serde_json`.

A round of pairs is a set of disjoint pairs; over all rounds every host meets every
other host once. Four hosts play `1-2 & 3-4`, then `1-3 & 2-4`, then `1-4 & 2-3`.
