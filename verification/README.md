# socket_io_client

A Socket.IO (Engine.IO v4) client library whose protocol logic is written
in Verus and verified: the functions under `src/` carry `requires` /
`ensures` contracts that Verus proves (all but the few trusted calls into
serde_json, base64 and std listed at the end), and the properties that span
several calls are stated and proved as public `law_*` proof functions.

## Layout

- `src/` — the verified library.
  - `codec.rs` — the Socket.IO packet codec (`<type>[<n>-][<ns>,][<id>]<payload>`).
  - `socket_io_client.rs` — namespace normalisation, CONNECT / DISCONNECT
    packets, the long-polling body writer and reader, the handshake's OPEN
    packet, the WebSocket probe and the transport URLs.
  - `namespaces.rs` — `NsTable`, the per-namespace state of a client (one
    entry per namespace, kept as a type invariant): auth, handlers, ack waiters.
  - `processor.rs` — what each incoming frame does (`FrameProcessor`), and
    the laws over whole frame sequences (every ping answered, one
    `__disconnect__` per connection).
  - `outgoing.rs`, `binary_events.rs` — outgoing event / ack / binary packets
    and attachment placeholders.
  - `session.rs` — transport choice, silence limit and watchdog, reconnect
    counting, ack ids, periodic tasks.
  - `json.rs`, `binary.rs`, `text.rs` — JSON values (parsed and written by
    serde_json), base64 (by the `base64` crate), character helpers.
- `app/` — the asynchronous client around the library: HTTP long polling,
  WebSocket, timers and tasks (tokio, reqwest, tokio-tungstenite). It runs the
  loops and performs the effects that the library decides.
- `tests/` — tests of the library on concrete values.

The calls into serde_json and base64 (and one std call that collects
characters into a `String`) sit behind a few small functions marked
`#[verifier::external_body]`, whose contracts are trusted and not proved;
each one's doc comment says what it claims of the outside function.
