# stric

Symmetric QUIC transport and mesh-flow messaging, with its logic verified
by Verus.

- `src/` is the verified library: topic pattern matching, the mesh
  topology graph and its shortest-path forwarding trees, the Kademlia-style
  routing table, length-prefixed framing, the message registry, session
  garbage collection and backoff, the connection registries, the keep-alive
  pool's bookkeeping, the byte-rate limiter's decisions, and the flow node's
  handshake, subscription and publication decisions. Public proof functions
  named `law_*` state the properties that hold across operations.
- `tests/` exercises the library on concrete values.
- `app/` is the asynchronous shell: `quinn` endpoints and streams, tasks and
  timers, the `governor` token bucket, and the Tower integration. It calls the
  library for every decision on plain values.
