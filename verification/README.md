# pong

A two-player Pong game played over QUIC: a server hosts games two players at a
time, simulates them and broadcasts their state; clients show the game and send
their paddle commands.

- `src/` is the library, verified with Verus: the frame encoding and its
  parser, the buffer that turns stream bytes into frames, the ball's movement
  and bounces, scoring and paddle movement, the seating handshake, and what
  clients and server do with each frame.
- `app/` holds the programs around it (`pong server`, `pong client`,
  `pong create-cert`, `pong test-quinn`): QUIC streams, tasks and timers, the
  window, and the floating point interpolation of the ball's movement.
- `tests/` runs the library on concrete games and frames.
