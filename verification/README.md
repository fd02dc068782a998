# woodshed

A crash-safe, append-only log store designed for use as a Raft log backend,
written in Verus: executable Rust whose behaviour is stated in contracts and
proved.

## Layout

- `src/` is the library. It decides what a store does and leaves the files to
  its caller: every operation is a sequence of actions (read, write, sync, cut
  off, create, delete) and what follows from their outcome.
- `app/` performs those actions on real files, and gives the store its usual
  interface: `open`, `writer`, `scan`, `truncate_start`, `truncate_end`,
  `delete_dead_segments`, `write_metadata`.
- `tests/` runs the library on a directory in memory.

## Modules

| Module | What it holds |
|---|---|
| `frame` | the frame format, writing and scanning frames |
| `tlv`, `codec` | manifest records as bytes |
| `state`, `manifest` | what the records amount to, and their replay |
| `index` | the sparse index from entry ids to offsets |
| `files`, `text`, `bytes` | file names, magic prefixes, numbers as text and bytes |
| `issue`, `scan`, `recovery` | what can be wrong, finding it, repairing it |
| `action`, `store`, `open`, `reader` | the operations of a store |
| `*_laws` | what holds of them together |

## What is proved

Every function states exactly what it returns and changes. On top of that:

- a frame and a manifest record read back as they were written, and no torn
  write is taken for data (`frame_laws`, `codec_laws`, `manifest_laws`);
- a state stays in order and forgets no segment, and the index finds the nearest
  checkpoint (`state_laws`, `index`);
- the log after a write, a truncation or a deletion, with the files and the
  store in agreement again (`log_laws`, `op_laws`, `truncate_laws`,
  `truncate_end_laws`, `delete_laws`);
- a new store is empty, and a store that is opened again is the same
  (`open_laws`);
- a scan gives the entries of the log from an id on, in order, and nothing else
  (`reader_laws`);
- what a torn write leaves behind, in the manifest or in the active segment, is
  repaired without loss of a whole entry (`recovery_laws`);
- a rollback that breaks off is done or not done: the store opens, and its log
  is what it was or ends where it was to end (`crash_laws`);
- a crash that keeps of each file at least what it held when it was last synced
  loses no synced entry and no finished record (`durable_laws`);
- once a recovery has run, with approval or without, the store opens
  (`repair_laws`).

A rollback is recorded before its segment is cut off, and opening the store
completes it. Before entries follow it, a record tells that the store goes on, so
that they are not taken for what was to be cut off.

What is taken on trust is what the crates `xxhash-rust` and `yatlv` do, as
stated in `frame` and `tlv`.
