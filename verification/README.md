# flowcase-guac

A WebSocket-to-guacd bridge with a verified core.

- `src/` is the library, verified with Verus: Guacamole instructions
  (`instruction`), their reassembly from a stream (`reader`), the handshake with
  guacd (`handshake`), connection tokens (`token`), the decisions of the bridge
  (`bridge`), the command line's key (`cli`) and the addresses (`settings`). The
  `*_laws` modules state what holds across calls: what is encoded is parsed back,
  how a stream is cut into chunks does not matter to the instructions read from
  it nor to the text that the browser gets, when a handshake succeeds, and that
  valid text from guacd reaches the browser byte for byte.
- `app/` is the program around it: the HTTP server, sockets, files and the
  environment.
- `tests/` run the library.
