# mdns

Streams that arrive as mDNS service records, verified with Verus.

- `src/` is the library: what a node binds, asks, announces and takes. Every
  function states what it returns, and the laws that relate them are proof
  functions whose names begin with `law_`.
  - `text`: characters, lines, names and numbers
  - `hex`, `txt`: bytes in hex, TXT strings as lines
  - `address`, `message`, `service`: addresses, DNS messages, DNS-SD services
  - `transport`: a node on the link
  - `loopback`: a Stream taken chunk by chunk
  - `laws`: what holds across modules
- `tests/` runs the library.
- `app/` holds the sockets and the DNS codec around it.

Four facts of std are believed rather than proved: what `String::push`,
`String::from_utf8_lossy`, `str::from_utf8` and the `Debug` form of a string
do, each stated where it is used.
