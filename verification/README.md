# rchat

A small WebRTC conferencing server: browsers meet in rooms, exchange
signalling messages over a WebSocket, and (in the forwarding mode) send their
audio and video to the server, which relays each track to the other peers of
the room. A terminal dashboard shows the rooms, their peers and upload rates.

The room bookkeeping, message routing and dashboard rendering are a library
verified with Verus; the networking around it is ordinary Rust.

## Layout

- `src/` — the verified library
  - `table.rs` — a keyed table without repeated keys, specified as an
    association list, with lemmas on insertion and removal
  - `mesh.rs` — the chat relay: joining, leaving, and routing a message to
    the user it names
  - `room.rs` — the forwarding unit's rooms: connected peers and the relay
    tracks each of them publishes; relay track and stream ids
  - `dashboard.rs` — the dashboard screen as text, peers sorted by user id,
    rates computed from the byte counts of the previous screen
  - `rate.rs` — rate text (`"… kbps"`, `"….… Mbps"`), with the megabit figure
    computed exactly in integers
  - `ids.rs` — short random ids taken from a UUID
  - `order.rs`, `text.rs` — text order, decimal numerals and padding
  - `signal.rs` — the signalling message values
- `app/` — the server: HTTP and WebSocket handling, the WebRTC side, and the
  dashboard loop
- `tests/` — tests of the library on concrete values

Each module states its laws as public proof functions named `law_…`.
