# backup_stream

The decisions of a log-backup stream, verified with Verus:

- `src/observer.rs`: which task the endpoint is sent for an event of the store.
- `src/subscription.rs`: the regions that are being observed, kept in a
  `DashMap`.
- `src/resolver.rs`: how far a region may be resolved while its initial
  scanning and the listening to its changes run at the same time.
- `src/stream_event.rs`: the framing of events; lengths are read with `bytes`.
- `src/segments.rs`, `src/keys.rs`: key ranges and the order of keys.

Public proof functions named `law_..` state what holds of several functions
together. Functions marked `external_body` are the calls into `bytes` and
`dashmap`; their contracts are trusted.

`app/` shares the library between the threads of a store and carries its
decisions out: it sends the tasks, stops the live observation handles, and asks
the lock resolvers. What it needs from the store stands in `app/host.rs`.
