# redpine

Redpine is a connection-oriented UDP messaging library for real-time applications. It delivers
reliable and unreliable packets between a server and its clients, with congestion control, a
handshake which keeps no state for clients that have not proven their address, and an event-driven
interface.

The protocol lives in `src/` and is verified with Verus. It does no input or output: it takes frames
and points in time, and produces frames, timers and events.

| Module        | Contents                                                                      |
| ------------- | ----------------------------------------------------------------------------- |
| `id`, `bits`  | Serial numbers which wrap around; bit histories                               |
| `buffer`      | Fragmentation, reassembly and reordering of both channels                     |
| `frame`       | The frame format, with its checksum                                           |
| `endpoint`    | One end of a connection: segments, congestion control, channel priorities     |
| `host`        | What an endpoint asks of its surroundings                                     |
| `connection`  | An endpoint together with its timer, outgoing frames and events               |
| `client`      | The client's side of the handshake and of a connection                        |
| `server`      | The server's side: handshake codes, the table of peers, the peers themselves  |
| `laws`        | What holds between a client and a server                                      |
| `link`        | A simpler connection which sends within a fixed window                        |
| `timer_queue` | Timers which are tested in turn                                               |
| `timer_wheel` | A hierarchical timer wheel                                                    |
| `wait`        | How long to go on waiting for an event                                        |

Contracts are stated over mathematical models: every stateful type has a view (`TxState`,
`EndpointState`, `ServerState`, ...), and each operation is a function or a relation on views.
Properties which span several operations are public proof functions whose names begin with `law_`.

What is taken on trust: random values (`rand`), the SipHash function (`siphasher`), and two
conversions of the standard library. Each is a small function marked `external_body`, with a
comment that says what is assumed of it.

`app/` holds sockets, clocks, locks and the floating point estimate of round trip times. `tests/`
runs the library, among other things over a simulated network.
