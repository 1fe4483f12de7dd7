# ocid-core

The verified core of `ocid`, a local-first, peer-to-peer alternative to a
central OCI registry: every node runs a loopback OCI registry, and peers
exchange signed, content-addressed releases directly, replicating what their
local policy asks for.

`src/` is a Verus library; every function in it carries a contract that Verus
proves. It holds:

| module | what it decides |
|---|---|
| `text`, `json`, `seqs`, `order` | characters, numbers, hex, JSON string escaping, lexicographic order and sorting |
| `identity` | publisher keys (hex, base32, `did:key`), signing and verification |
| `hash`, `oci` | BLAKE3 and sha256 digests, manifests, image names and tags, image references and their resolution through aliases |
| `config` | retention modes, windows, the seeding policy and its edits |
| `release` | release records, their canonical JSON and signatures |
| `replication` | what a node fetches, keeps, prunes and garbage-collects |
| `peers`, `topic` | the known-peer list and the gossip topics a node joins |
| `registry`, `metrics` | routing of `/v2/` requests, byte ranges, push checks, label sets |
| `paths`, `index` | the on-disk layout and which record paths are allowed |
| `api`, `cli`, `tui`, `dashboard`, `sse` | control API bodies, the event stream framing, the command-line client's and the dashboard's decisions |

`app/` is the command-line client `ocictl` around the library: flags, files,
HTTP and printing. `tests/` exercises the library on concrete values.
