# nodus

The logic of Nodus, a node-based virtual audio router, as a library whose
behaviour is stated in `requires` / `ensures` contracts and proved by Verus,
with a small daemon around it.

## Layout

- `src/` — the verified library.
  - `graph` — the routing graph (nodes, routes, its invariant), snapshot
    application with cycle rejection, and the flat device-route resolution.
  - `bus` — the execution plan in which every node exists once, with the
    sinks of every output and the route chains that carry volume and mute.
  - `engine` — the engine's decisions: start/stop, redundant re-applies,
    where a route is captured, feedback guarding, chain mute, and the
    bookkeeping of routes waiting for their app and of shared captures.
  - `rpc`, `settings`, `scene` — the daemon's command vocabulary, argument
    rules, settings (stored normalised), intervals, access check, and the
    scene document with its revision.
  - `devices`, `virtual_device`, `endpoint_name`, `bridge`, `process`,
    `session` — naming heuristics, device lists, virtual endpoints and the
    selection of audio processes.
  - `device_control`, `wire`, `utf16` — the driver control channel's byte
    layout and names.
  - `ring`, `pcm` — the shared-memory ring's header and wrap-around reads and
    writes, and 16-bit PCM.
  - `icon` — CRC-32, Adler-32, stored zlib, PNG and base64 for app icons.
  - `logging` — log file names, headers (and how they read back), the
    writer's cursor and rotation, repair, which file a launch continues and
    which files pruning deletes, and calendar dates.
  - `glitch`, `wasapi`, `text` — health counters, audio formats, and the
    string helpers the rest share.
- `app/` — the daemon: HTTP and WebSocket transport, persistence, the log
  writer, process polling, and the floating-point DSP.
- `tests/` — tests of the library.
