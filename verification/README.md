# plecto

The verified core of a request proxy. Everything under `src/` is checked by Verus; `app/` is the
ordinary Rust round it (locks, tasks, sockets), and `tests/` runs the library.

| Module | What it holds |
| --- | --- |
| `upstream` | the live set of upstreams: reconciling it to a manifest, instance health, rotation |
| `maglev`, `hash`, `prime` | the consistent-hashing table, the stable hash under it, the test of its size |
| `rng` | unbiased bounded draws for picking instances at random |
| `ratelimit`, `bucket`, `clock` | the rate limiter of a route, token-bucket arithmetic, the wall clock |
| `health` | which instances to probe when, what a probe asks for, what its outcome means |
| `headers`, `respond` | header fields as text and on the wire, and the responses built from them |
| `control`, `snapshot`, `shared` | the live configuration, and a configuration pinned for one request |
| `manifest`, `lowering`, `error` | what the operator declares, and how it is checked and handed on |
| `body` | counting a body that arrives in chunks |

The public functions state their results over plain mathematical values. Of those that read the
clock or draw a seed, the contract says what holds of every outcome, and a function beside them that
takes the instant as an argument is exact. What holds of several functions together is stated by the
public proof functions whose names start with `lemma_`.

Calls into other crates and into parts of the standard library stand behind small wrappers and
specifications that are believed, not proved. The doc comment of each one says what is claimed of
the call.
