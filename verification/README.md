# rstorrent_engine

Runtime-independent state of a BitTorrent engine, written in Verus: every
function in `src/` carries a contract that Verus proves.

- `swarm`, `swarm_types`, `piece_picker`, `request_window`, `storage_join`:
  multi-peer request ownership, scheduling, piece activation and the join of
  block writes with piece verification.
- `streaming`: streaming demand over piece intervals.
- `upload`, `upload_scheduler`: per-peer upload admission and the choking
  schedule of a seed.
- `tracker`: tracker records, announce scheduling and retry backoff.
- `session_resources`, `session_socket`, `session_udp`, `storage_file_pool`,
  `staging`: the decisions of the session-wide services (fair storage
  executions, port succession, datagram routing and counters, the file-pool
  cache, staging ranges).
- `storage_stage_profile`, `profile_arguments`: write orders, payloads and the
  command line of the storage stage profile.

`tests/` exercises the library; `app/` is the storage stage profile program
and the asynchronous execution authority, ordinary Rust around the library.
