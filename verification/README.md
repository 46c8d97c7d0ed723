# ankifruit_core

The bridge between AnkiFruit's web UI and Anki's backend: an in-process
loopback HTTP server that takes `POST /_anki/<method>` protobuf calls, checks
the bearer token minted at startup, and dispatches them to the backend by
`(service index, method index)`.

- `src/` is the verified library (Verus): the token check (`auth`), token
  minting (`token`), the routing table built from the backend's service
  descriptions (`routes`), what the server answers to each request
  (`server`, `reply`), the static web UI paths (`web`), the language list the
  native shell passes (`langs`), and the dev harness's text handling
  (`devtools`). `text` holds character helpers and the std character
  functions the rest relies on.
- `app/` is the plain Rust around it: the axum server, the backend instance
  and its runtime, the C ABI for the Swift shell, and the desktop dev harness.
- `tests/` exercises the library.
