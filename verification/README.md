# sxdpi

The verified core of SxDPI, a desktop proxy that helps connections through
deep packet inspection: it splits the first data of each connection into
delayed TCP writes, sends a decoy ClientHello with a low time-to-live that
the DPI sees and the server never gets (the data takes its place in the
stream), manipulates the Host header of plain HTTP requests,
resolves names over DNS-over-HTTPS, and routes the system's traffic through
itself.

- `src/` is the library, checked by Verus:
  - `http.rs` reads the first data of a client connection (CONNECT, plain
    HTTP, or neither), finds where a CONNECT goes, and rewrites a plain HTTP
    request for the origin server.
  - `dpi_engine.rs` holds the engine's state machine, its errors, and the
    send plans of the bypass modes.
  - `shutdown.rs` holds the signal that ends a run of the engine.
  - `dns.rs` normalises host names, turns DNS-over-HTTPS answers into
    distinct addresses, caches resolutions and orders the resolvers.
  - `system_proxy.rs` computes the registry, WinHTTP, gsettings and
    autostart changes.
  - `alternative_engine.rs` describes the external alternative engine.
  - `settings.rs` and `text.rs` hold the settings and the character-level
    helpers.
- `app/` runs it: sockets, the proxy loop, HTTP queries, files, processes and
  the Win32 calls. It serves until standard input ends or reads "quit".
- `tests/` exercises the library on concrete values.
