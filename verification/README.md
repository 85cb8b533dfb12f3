# zlmediakit

A media server's HTTP and MP4 layers, written in Rust and proved with Verus:
MP4 and fragmented MP4 muxing and demuxing, DASH manifests, video on demand,
WebSocket framing, request routing, file serving, the management interface and
the HTTP pull client.

- `src/` is the library. Every function states what it returns or changes in a
  contract over mathematical models, and Verus proves it. Properties that span
  several functions are the public proof functions whose names begin with
  `law_`.
  - `bytes`, `text`, `order`, `media`: numbers in byte order, text, sorting,
    frames and tracks.
  - `mp4`: boxes, sample tables, muxers, demuxers, recorders, recordings as
    streams, manifests. `roundtrip` and `fragment_roundtrip` prove that what is
    written is read back.
  - `http`: requests and responses, playback, files, recordings, the management
    interface, upstream servers.
- `app/` is ordinary Rust around the library: sockets, files, tasks, and the
  services that streams come from (`app/host.rs`).
- `tests/` runs the compiled library.

What other crates and the standard library compute is called through a few
trusted functions, each with a comment that says what is taken on trust:
`sha1`, `base64`, `chrono`, `serde_json`, and parts of `std`.

Frame rates are whole numbers and durations are milliseconds in the library;
seconds as floating-point numbers occur only in `app/`.
