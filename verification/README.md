# gkd

A multi-connection TCP accelerator: the data of one connection travels as
numbered packets over several TCP tunnels and is put back in order at the far
end.

- `src/` is the library, verified with Verus: the packet wire format
  (`packet`, `wire`), the tunnel handshake (`tunnel`), packet numbering on the
  sending side (`send`), the reordering of arriving packets (`reorder`), the
  receive buffer of a connection (`recv`) and the routing decisions of a peer
  (`route`), with the laws that tie them together.
- `app/` is the async networking around it (async-std tasks, channels, TCP
  streams, the `Read`/`Write` impls of a connection), which hands the library
  plain values.
- `tests/` runs the library on concrete values.
