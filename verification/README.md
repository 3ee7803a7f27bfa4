# smallstack

Small HTTP services on hyper: an application server with a router,
middleware, CORS and JSON helpers, and a static-file server with range
requests, validators and live reload.

The decisions these servers make are a library verified with Verus
(`src/`); the servers themselves, which do the I/O, are ordinary Rust
(`app/`).

## Layout

- `src/text.rs` – character-sequence specifications and helpers.
- `src/params.rs` – parameter maps, query strings, cookies, percent-encoding.
- `src/router.rs` – the segment trie that maps method and path to handlers.
- `src/headers.rs` – `HeaderMap` access and header-value rules.
- `src/cors.rs` – the CORS policy and the headers it adds.
- `src/serve.rs` – errors, state, body limits, JSON error bodies,
  server-sent-event frames, request dispatch, route groups, and the level
  a request is logged at for its status (writing the log is left to the
  application).
- `src/files.rs` – static-file errors, path resolution, content types,
  the order in which custom handlers are asked, live-reload script
  injection.
- `src/conditional.rs` – `Range`, `If-None-Match` and `If-Modified-Since`.
- `src/plan.rs` – the status, headers and body of a static-file answer.
- `src/live.rs` – live-reload requests, events and change detection.
- `src/lifecycle.rs` – the accept loop with its connection limit and
  graceful shutdown.
- `src/tls.rs` – a TLS server configuration from PEM text.
- `app/` – the servers: `serve` (application server), `static_files`
  (static-file server), `unified` (static files behind application routes).
- `tests/` – tests of the library.
