# Cortado

A tunnel that takes all traffic of a host to a SOCKS5 proxy, for Linux, macOS
and Windows. A TUN interface captures the traffic, a network stack in user
space terminates the flows, and each of them is relayed to the proxy:
connections by CONNECT, datagrams by UDP ASSOCIATE, and name queries over
pooled connections.

The rules of the tunnel are a library whose functions carry contracts that
Verus proves. The program around it does what touches the system.

## The library, `src/`

- `addr`, `ipv6`: addresses, and their texts
- `bytes`, `text`, `scan`, `time`: octets, characters, lines and words, spans of
  time
- `config`: the configuration, and what makes it valid; `lib.rs` says which file
  is read and which is written
- `net`: networks, and which destinations go direct
- `socks`: the exchanges with the proxy, and the framing of datagrams
- `dns`: the pool of connections to name servers
- `udp`: the sessions of datagrams
- `tunnel`: starting, counting, reporting and reloading
- `reload`: what a changed configuration asks for
- `tune`: the limits that suit a host
- `stats`, `metrics`, `logging`: counters, their rendering, log messages
- `platform`: changes to routes and name servers, and what system commands
  print, for each system

Each public function states what it returns or changes. Public proof functions
state what holds of several of them together: that taking the tunnel down
restores the routing table, that a datagram reads back as it was framed, that a
reload leads to the routes of the new configuration.

What comes from other crates and from the standard library without a proof is
marked where it stands: `arc_swap` in `reload`, `String::from_utf8_lossy` in
`platform/output`, `str::to_lowercase` in `tunnel`, `String::push` in `text`.

## The program, `app/`

`cortado init` writes a default configuration, `cortado run` starts the tunnel.
Files, sockets, devices, processes, signals and tasks are handled here; every
decision is asked of the library.

## Tests

`tests/` runs the library on concrete values.
