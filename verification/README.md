# raynet

An overlay network. Endpoints carry sessions over KCP, in messages that only they can read;
relays pass on the envelopes around them, one channel of a route plan after the other. The
core is a synchronous state machine: a shell hands it events and carries out its actions.

`src/` is the library. Every function in it states what it does, and Verus proves it; the few
that call outside crates say what they rely on.

| module | what it holds |
| --- | --- |
| `octets`, `text`, `ordered`, `entropy` | bytes, texts, ordered walks over maps, random bytes |
| `crypto`, `random` | AEGIS and BLAKE3, and the random stream of a core |
| `wire`, `packet`, `sequence`, `limits` | envelopes and messages, transport packets, replay windows |
| `kcp` | the reliable transport of a session |
| `routing` | route planning on a graph of channels |
| `machine`, `relay`, `endpoint` | what core and shell hand to each other, and the two cores |
| `hop` | hop by hop packets with explicit lengths, sealed under a coarse clock, and their relay |
| `tunnel` | sessions between endpoints over sealed datagrams |
| `config`, `shell`, `probe`, `proxy` | what the runtime shell decides: configuration, clocks, channels, SOCKS5 |
| `sim` | a simulated network in virtual time |

The laws are the public proof functions whose names begin with `law_`.

`tests/` runs the library. `app/` is the program around it: sockets, timers, files and
command line. It runs a relay or an endpoint, or, as `raynet tunnel`, a node of the tunnel.
