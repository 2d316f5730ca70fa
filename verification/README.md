# loft_net

Networking for programs that poll, in verified Rust: an HTTP and WebSocket server, WebSocket and
HTTP clients, SSH sessions, and a host for signed WebAssembly plugins. Verus proves what the
functions in `src/` promise; sockets, threads, the clock and the C interface are in `app/`.

## Layout

| module | what it holds |
|---|---|
| `text` | text as a sequence of characters: trimming, splitting, decimal numbers |
| `sha1`, `base64` | the digest and the encoding of the WebSocket handshake |
| `frame` | WebSocket frames, masked and plain |
| `handshake` | the opening handshake, on both sides |
| `http` | reading a request off the wire, writing a response |
| `tls` | certificates: the configuration of a server, the roots of a client |
| `server`, `slots` | the state of a server: listeners, connections, the event pump |
| `ws_client` | sessions that reconnect, and groups of them |
| `web`, `browser` | HTTP responses, binary buffers, and the bridge to a host page |
| `session` | SSH sessions and what has arrived for them |
| `plugin`, `counter` | how a plugin is admitted and driven, and the reference plugin |

`app/` is the `load-plugin` program, with the native functions of loft programs beside it.

## How the parts work together

A function of the library that needs something from outside returns what is to be done next (write
these bytes, open a connection, read a frame), and another one takes in what came of it. So a caller
runs a loop, and the library decides.

What the library has from other crates (Ed25519, wasmtime, rustls) stands behind a few functions
whose contracts are believed and not proved. Each says in its comment what it claims.
