# krusty_club

A simulated network of drones that carry a chat between clients by way of servers, with a
controller that crashes, spawns and connects drones while the network runs.

- `src/` is the verified library: packets and fragments, drones, two makes of clients, the
  servers, the simulation controller, configurations and their shapes, and the state behind
  the windows. Each handler takes state and input and posts what is to be sent to an outbox;
  its contract says what the state and the outbox are afterwards.
- `src/laws.rs`, `src/delivery.rs` and the `law_` functions beside the types state what holds
  across handlers: messages arrive as they were written, floods are spread once, a permitted
  crash leaves every client with a server.
- `app/` runs the library: threads and channels, the clock, configuration files, and the
  windows.
- `tests/` runs the library on concrete networks.

Packet drop rates are kept as the bits of an `f32`; the dice are thrown in `app/`.
