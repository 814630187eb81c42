# pylon

The connection, fan-out and webhook core of a Pusher-compatible WebSocket server,
verified with Verus.

## What is verified

`src/` is the library. Apart from small wrappers around other crates and the standard
library, every function in it has a contract that Verus proves.

- `transport::conn`: the outbound queue of a connection. It is bounded in bytes,
  evicts its oldest frames first, drops stale frames under sustained delay, and
  resumes partial writes without splicing the peer's stream.
- `transport::buffer`, `transport::frame`, `transport::handshake`: byte buffers,
  WebSocket framing and the upgrade.
- `transport::pump`, `transport::rest`: how plain and TLS streams are read and
  flushed, as state machines that take the outcome of each call.
- `transport::tls`: feeding a TLS session and taking its plaintext out, in memory.
- `transport::timer`: idle pings, pong timeouts, lifetimes and handshake deadlines.
- `transport::fanout`: the bounded hand-off of broadcasts to the workers.
- `transport::worker`: the connection table with its exact byte totals, admission,
  inbound messages, the subscription index, delivery under memory pressure, and the
  decisions of the event loop.
- `user`: who is signed in, and who watches whom.
- `ws`: the rate limit on client events, and signing in.
- `webhook`: batching, signing, target checks and retries of webhooks.
- `json`, `ordered`, `text`: JSON text, ordered keys and strings.

Public proof functions state what holds across several calls, for example that
delivery leaves other channels alone, that releasing a session undoes its admission,
or what the timer wheel gives out after any history of calls.

Where a result comes from another crate, a small function with a stated contract
makes the call. Its doc comment says what is claimed of that crate.

## What is not

`app/` is ordinary Rust around the library: sockets, TLS sessions, the event loop,
the REST plane and HTTP delivery. It carries out what the library decides and hands
the outcomes back.

`tests/` runs the library on concrete values.
