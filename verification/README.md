# netflector

A reflector of discovery and wake-up traffic between network segments: mDNS, SSDP (with DIAL),
WS-Discovery, Wake-on-LAN and plain UDP. The library holds the rules and is verified with Verus;
the program around it opens sockets and runs the event loop.

## Layout

- `src/config`: the configuration, from a TOML document and its schema to checked entries, and which
  entries would relay one datagram twice.
- `src/net`: addresses, MAC addresses, the HTTP framing of the DIAL proxy, and the classifiers of the
  discovery protocols.
- `src/interface`: what the kernel's routing messages say of interfaces and their addresses.
- `src/dispatch`: the packet dispatcher as a state machine, with its interface table, group
  memberships, counters, egress and proxy bookkeeping.
- `src/logging`, `src/memory_report`, `src/cli`, `src/startup`: log records and their rate limit, the
  memory diagnostic, the command line, and what is done once at the start.
- `app`: `main`, the sockets and the loop that performs what the dispatcher asks for.

Contracts speak of sequences and numbers: each module gives the spec functions its `ensures` use, and
the properties that span calls are public proof functions named `law_*`.

What is taken on trust is small: `String::push`, the TOML parser (its result has a name,
`toml_parsed`) with what serde says of a value of the wrong kind (`toml_refused`), and the maximum
level of the `log` crate.
