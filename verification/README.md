# paseo_relay_rust

A self-hosted WebSocket relay for Paseo servers and clients, meant to run behind
a reverse proxy. Version 1 sessions pair one server socket with one client
socket; version 2 sessions have a control socket, one server data socket per
connection id, and any number of client sockets per connection id.

## Layout

- `src/` is the verified library (Verus):
  - `protocol.rs`: roles, versions and the validation of the `/ws` query.
  - `peer.rs`: peer ids, generated connection ids, and what kind of peer a
    socket is.
  - `session.rs`: the routing state of a session and each change that a
    registration, a frame, a ping, a departure or a liveness check makes to
    it; every operation gives back the messages it sends, and `dispatch`
    queues them on the sockets' channels.
  - `channel.rs`: a socket's outbound channel (tokio's bounded sender), the room
    its queue has, and the records of the messages handed to it.
  - `ingress.rs`: idle timeout, message-rate limit and frame-size limit of a
    socket.
  - `config.rs`: limits, defaults and the parsing of the environment settings.
  - `json.rs`: control messages, written and read with `serde_json`.
  - `text.rs`, `assoc.rs`: string helpers and key/value lists with their lemmas.
  - `laws.rs`: properties that span several operations.
- `app/` is the program: environment, logging, the axum routes, and the
  per-socket read/write loops that feed events to the library.
- `tests/` exercises the library on concrete sessions.

## Configuration

`RELAY_BIND` (default `127.0.0.1:8787`), `RELAY_LOG` (`info`),
`RELAY_DIAGNOSTICS` (`false`), `RELAY_INITIAL_NUDGE_MS` (`10000`),
`RELAY_SECOND_NUDGE_MS` (`5000`), `RELAY_MAX_FRAME_BYTES` (`65536`),
`RELAY_MAX_CLIENTS_PER_CONNECTION` (`8`), `RELAY_MAX_SOCKETS_PER_SESSION`
(`64`), `RELAY_MAX_OUTBOUND_QUEUE_MESSAGES` (`256`), `RELAY_IDLE_TIMEOUT_MS`
(`120000`), `RELAY_MAX_MESSAGES_PER_WINDOW` (`240`),
`RELAY_RATE_LIMIT_WINDOW_MS` (`10000`).
