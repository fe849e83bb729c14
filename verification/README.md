# inseam-plugins

The rules behind inseam's first-party plugins, verified with Verus: what a
sweep decides about every source it sees, how a source's subtree is planned
and bounded, how a vocabulary is mined, matched, clustered and grounded, what
each rung of the discovery ladder serves, how results from several nodes are
merged, how requests are routed and relayed, who is admitted to a network, and
how two nodes exchange their logs.

- `src/` is the library. `sweep/` holds the sweep and its vocabulary pass,
  `operations/` the ladder and the owner's operations, `routing/`, `roster/`
  and `sync/` the network, `transforms/` the chunker and the directory
  transform, `settings.rs` the settings document. `text.rs`, `order.rs` and
  `seam.rs` are shared.
- `tests/` runs the library.
- `app/` is the ordinary Rust around it: the services that read, write, wait
  and talk, and the arithmetic that needs floating point.

Functions whose names begin with `law_` state what holds across several
operations, such as that a source completes only in the batch that holds the
last of its rows, or that an expelled peer is never admitted.
