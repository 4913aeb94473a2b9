# mesh-file-share, verified scheduling core

A share side on a LAN hands large files to many browsers. The first waiting
downloader of a file gets it from the share side over HTTPS; downloaders that
already hold the file relay it to others over WebRTC, so the number of copies
grows with each round. This crate holds the share side's state and every
decision about it, each function with its contract and proof.

Layout of `src/`:

- `keyed.rs`: sequences of records found by a text key (the model of the
  maps of the state), with their lemmas.
- `types.rs`: files, downloaders, queue items, channels, events, and their
  mathematical views.
- `ids.rs`: fresh identifiers (random UUIDs).
- `state.rs`: `AppState`, its view, its well-formedness, and the small
  updates every operation is made of.
- `store.rs`: sharing and removing files, connecting and removing downloaders.
- `dispatch.rs`: the dispatcher, as a specification and as code.
- `scheduler.rs`: requests, completions, failures and departures, and the
  schedule of every queue.
- `frame.rs`, `capacity.rs`, `laws.rs`: what the operations keep and promise
  across calls (the first waiting downloader is served first, one transfer
  per file from the share side, a cap on relayed transfers, a relay is never
  given two transfers, a dispatch closes no channel and frees no relay, a
  downloader that leaves is forgotten and frees its relays, ...).

`app/` is the server around it: the HTTPS routes, the event stream, the
retry two seconds after a failed transfer, and the JSON forms of the records.
