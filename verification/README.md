# pocketmine

The verified core of a Minecraft: Bedrock server, written in Verus.

- `src/` — the library; every function carries a contract that Verus proves.
  - `binary`: a byte stream with a read cursor and the integer and string encodings.
  - `color`, `math`: colours, axes and block-face directions.
  - `nbt`: NBT tag trees, their little-endian encoding, and the round-trip laws.
  - `raklib`: the RakNet transport: addresses, packets, acknowledgements, frames and
    datagrams (with round-trip laws), the reliability layers of a connection, the
    connection itself (pings, timeouts, graceful close), offline handshakes, and the
    server's decisions on what it receives (blocked addresses, packets per tick, bandwidth).
  - `log`: log levels and the lines loggers write; `text`: decimal numbers for messages.
- `tests/` — tests of the library on concrete values.
- `app/` — the program around it: loggers that print, the process-wide logger,
  floating-point geometry, the readable form of NBT trees, and the UDP socket loop.

Times given to the reliability layers, connections and the server are milliseconds on a
clock the caller keeps; datagrams to send, events and packets received are handed back in
vectors.
