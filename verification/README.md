# l4

The core of an XDP layer-4 load balancer, verified with Verus.

Traffic to the configured listen ports is screened, hashed with Maglev consistent
hashing, and rewritten towards a backend; everything else is left to the host. A
control plane discovers backends, health-checks them, builds the Maglev table in
a standby buffer and switches the data plane over to it in one step.

## Layout

`src/` is the verified library:

| Module | Contents |
|---|---|
| `common` | types and constants shared by control plane and data plane |
| `prime`, `maglev` | the table size is prime; permutations, table construction, even distribution |
| `checksum`, `packet` | incremental checksums; header parsing, flow hash, frame rewriting |
| `abuse` | packets in a sliding window, thresholds, blacklist |
| `tables`, `forward` | the data plane's tables; what happens to one frame |
| `enforcement` | the abuse limits under any traffic |
| `config` | configuration values and their defaults |
| `text`, `net`, `backend` | text splitting and numbers; addresses, endpoints, MACs; backend lists |
| `discovery`, `health` | static, Docker and DNS discovery; which backends answered |
| `dataplane`, `handover` | the control plane's writes; what they do to traffic |
| `metrics`, `host` | the metrics endpoint; interface, attach mode, config watching |
| `reload` | one reload as a state machine of actions and events |

`app/` is the daemon around it: it reads the YAML file, talks to the kernel maps,
Docker, DNS and the network, and carries out the actions the library asks for.
`app/xdp.rs` runs the data plane's decisions over the kernel's maps.

`tests/` runs the library on concrete values.

## What is proved

Each function states what it returns. The laws that span functions are public
proof functions, among them:

- every slot of the Maglev table has an owner, and the slots are shared out evenly;
- a rewritten frame keeps valid checksums and changes nothing but its destination;
- frames that do not go to a listen port are passed untouched;
- whatever other traffic there is, a source is blacklisted by a packet exactly if with
  it more of its packets than allowed came within the last window, and stays so for
  the configured time;
- until its very last write a reload changes nothing the data plane sees, and that
  write installs the whole of the new table, whatever traffic comes in between the
  writes;
- a port update that fails is on record, and the next one that succeeds leaves
  exactly the ports it asks for;
- only backends that were discovered and answered their probe get traffic, and the
  order in which they are listed does not affect the table.

Taken on trust are the hash function `xxh3_64_with_seed`, `Duration::from_millis`,
`String::push` and `String::from_utf8_lossy`; the comments on these items say what
is assumed of them.
