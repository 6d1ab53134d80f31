# binda

BINDA is a name service without a registrar. Anyone may register a free
domain name and keep it for as long as their host answers a liveness probe
within a minute. Nodes spread registrations by gossip and settle conflicting
claims by a rule that no node decides on its own.

The library under `src/` is written in Rust and verified with
[Verus](https://github.com/verus-lang/verus): what each function does is
stated in its contract, over plain mathematical values, and proved. What
holds of the service as a whole is stated in the proof functions whose names
begin with `law_`.

## Layout

- `domain`, `punycode`, `dns`: names, their ASCII form for other systems, and
  the native lookup protocol, in which labels are plain UTF-8.
- `client`, `client_api`, `json`, `api`: who a client is, what it signs, and
  what comes of its requests.
- `token`, `collision`, `liveness`, `store`: the registrations, who holds
  them, and for how long.
- `gossip`, `peers`, `node`: what nodes tell each other, and when they
  believe it.
- `fcrdns`, `ntp`: what is asked of the public DNS and of time servers, and
  what is made of the answers.
- `resolver`, `wire`, `rate_limit`, `zone`, `args`, `address`: plain queries,
  framing, throttling, zones, the command line and addresses.
- `text`, `bytes`, `table`: what the others are built from.

`app/` is the daemon: sockets, threads, JSON and TOML, and the arithmetic of
token buckets. It is ordinary Rust around the library.

## What is trusted

Verus takes the contracts of a few functions on faith, each of which calls
into another crate or the standard library: signatures (`client`), random
numbers (`token`, `collision`, `fcrdns`, `peers`), JSON strings (`json`), the
JSON codec's error and its text (`wire`), the clock (`liveness`), and some
text primitives (`text`, `bytes`, `punycode`, `fcrdns`). The comment above
each says what is claimed of it.
