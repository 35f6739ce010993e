# oxidns

Building blocks of a DNS policy engine, verified with Verus.

- `src/netlink.rs`, `src/netlink_laws.rs`: reading netlink message buffers.
- `src/v2ray/`: reading V2Ray `geosite.dat` and `geoip.dat` rule files. `wire`, `field` and
  `decode` read the bytes, `parser` streams entries, `rules` turns them into rule text;
  `encoding`, `laws`, `agreement` and `kinds` state what holds of whole files.
- `src/upstream/bootstrap.rs`, `src/upstream/sharing.rs`: finding the address of an upstream
  server, with any number of callers at a time and one query.
- `src/upstream/pool.rs`, `src/upstream/pipeline.rs`, `src/upstream/pool_laws.rs`: the pool of
  connections to an upstream server.
- `src/client_ip_from_ecs.rs`: taking the client's address from a client subnet option.
- `src/text.rs`, `src/addr.rs`, `src/proto.rs`, `src/error.rs`: the values that these share.
- `app/`: the asynchronous side, which carries the library's decisions out.

What is believed of other crates and of the standard library stands at the functions marked
`external_body` and the `assume_specification`, each with the claim in words. Two types of other
crates are declared: `prost`'s `DecodeError` in `v2ray/field.rs`, and `arc_swap`'s `ArcSwap`, held
in `SharedConnections` in `upstream/pipeline.rs`.
