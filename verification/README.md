# cakemaster

The metadata core of a distributed object cache, written and proved in
[Verus](https://github.com/verus-lang/verus).

It keeps track of where objects live, hands out memory for them, and coordinates
writes, leases, eviction and the life of clients. Object data never passes through
it: clients register memory, ask where to write, commit, and look replicas up.

## Layout

| Path | What it holds |
| --- | --- |
| `src/segment` | Segments of memory: registration, allocation of ranges, placement of replicas, extents that shards own, offload to local disks |
| `src/client` | Client sessions, heartbeats, fencing, mounts, graceful removal and cleanup |
| `src/object` | The object catalog, writes and reads, reclamation, watermark eviction, tenants and their quotas |
| `src/protocol.rs`, `src/server.rs` | RPC frames, and what a server decides about requests and answers |
| `src/logging.rs` | Where log records go and which of them |
| `src/workload.rs` | What the benchmark programs ask for and how they condense figures |
| `tests` | Tests of the library from outside |
| `app` | The server and the benchmarks: threads, sockets, clocks, command line |

## How it is stated

Every stateful type has a view (`CatalogView`, `PoolView`, `RegistryView`, ...) and
an invariant `wf`. What an operation does is a spec function from one view to the
next, and each executable function promises exactly that. Where an outcome is not
determined, such as which range an allocator hands out, the operation is a relation
between two views. Promises that span operations are public proof functions whose
names start with `law_`.

State is changed through `&mut`. A program that shares it between threads puts it
behind a lock, as `app` does. Identifiers of pools, catalogs and managers are given
by the caller, and what is handed out (reservations, claims, handles, permits) is
given back by an explicit call.

## What is taken on trust

Calls into other crates stand behind small functions whose contracts are stated in
their doc comments: `offset-allocator` (allocation of ranges), `scc` (the name
index), `crossbeam-queue` (work queues), `regex` (patterns of names) and `logforth`
(log filters). The same holds for equality and order of `str`.
