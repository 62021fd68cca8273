# moonshine_core

Core of a game-streaming host, written in Rust and proved with Verus.

- `src/crypto.rs`: the control stream's cached AES-128-GCM cipher, and AES-128-CBC. The ciphers
  themselves come from `aes-gcm`, `aes` and `cbc`.
- `src/video/config.rs`: what a video stream is configured with and what its client negotiated.
- `src/video/rate.rs`: the target send rate.
- `src/video/pacer.rs`: which shards of a frame go out in which send, and when.
- `src/video/pacing_laws.rs`: what holds of every schedule.
- `src/video/start.rs`, `src/video/transmit.rs`, `src/video/control.rs`: the decisions of the tasks
  that start a stream, drive a send and handle packets.
- `app/`: sockets, tasks, the settings file and the log.
- `tests/`: tests of the library on concrete values.
