# Weft

Deterministic simulation testing: a seed decides the fate of every datagram of a
simulated network, a recorded run replays byte for byte, and a fuzzer sweeps
seeds and shrinks what it finds. This is the verified core of it, with the
programs around it.

`src/` is the library. Every function in it carries a contract over mathematical
models, and Verus proves the contracts:

| part | modules |
|---|---|
| seeds, hashes, wire format, text | `abi`, `hash`, `wire`, `text`, `json`, `bytes`, `round`, `amap` |
| the network: conditions, fates, routing, windows, the broker | `config`, `fault`, `netcore`, `window`, `broker` |
| recording: logs, rules, replay, reports | `log`, `monitor`, `recorder`, `replay`, `report` |
| fuzzing: workloads, executions, shrinking, sweeps | `workload`, `input`, `shrink`, `fuzz_config`, `fuzz` |
| scenarios and runs | `scenario`, `orchestrator`, `cluster` |
| Chord and Raft: checkers of recordings, models, oracles | `chord*`, `raft*` |
| command lines | `cli`, `run`, `run_cmd`, `replay_cmd`, `fuzz_cmd` |

What holds of several functions together is stated by the public proof functions
whose names begin with `law_`; the longer ones stand in the modules that end in
`_laws`. Some of them: what a single-host broker records replays identically
(`run_laws`), from a file that reads back as it was written (`file_laws`); the
order of arrival does not show in a windowed recording (`window_laws`,
`interleaving_laws`, `recording_laws`, `broker`); a node that answers what it received is never
late, and windows go on moving while anything is under way (`reply_laws`); a shrunk reproducer is 1-minimal
(`minimal_laws`), replays identically and still fails as the seed did
(`reproducer_laws`); the first difference of a replay is the one that is reported
(`replay`, `canon_laws`); no datagram is delivered twice (`delivery_laws`), and none is
overtaken where latency has no variance (`order_laws`); with checked pointers the
Chord ring is never lost (`chord_model_laws`); votes that survive restarts elect
at most one leader a term (`raft_laws`); the model of Chord and a snapshot of it
violate the same (`chord_agree_laws`).

The library does no I/O, knows no clock and no floating point. Loss
probabilities are the bits of a double, and exponential draws come from a
`TailSource`. A few functions of outside crates and of the standard library are
called through wrappers whose contracts are taken on trust; each says so in its
doc comment (`text`, `bytes`, `json`, `cli`, `scenario`).

`app/` holds the programs: processes, sockets, files, threads, JSON documents and
state-space searches. `tests/` runs the library.
