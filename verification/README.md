# lan_mouse_clipboard

Clipboard sharing between the hosts of a lan-mouse setup, as a verified library
and the ordinary Rust around it.

- `src/` is the library. It decides: what an item is and how large, how it is
  framed and parsed, which changes are broadcast or applied, which peers are
  dialed, dropped and kept, which backends are used and what they run, which
  certificates are let in, and how pointer and keyboard events become requests
  to the compositor. Every function has a contract that Verus proves; the
  functions named `law_...` state what holds across several of them.
- `app/` does: sockets, TLS, processes, timers and the Wayland connection. It
  waits for events, hands them to the library and carries out what comes back.
- `tests/` runs the library on concrete values.

What the library takes from elsewhere without proof is small and marked
`external_body`: SHA-256 (`hash.rs`), UTF-8 conversion of the standard library
(`text.rs`), PEM parsing (`transport.rs`) and the generation of self-signed
certificates (`test_util.rs`).
