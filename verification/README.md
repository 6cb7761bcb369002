# quake_subnets

The subnets of a test network, derived from the subnets that each node of a
manifest lists: an index and an address block for each subnet, the subnets that
two nodes share, and whether the nodes bridge all subnets into one network.

- `src/` is the library, verified with Verus.
  - `subnets.rs` holds `Subnets` and its methods.
  - `merger.rs` merges the components of a network.
  - `manifest.rs` and `topology.rs` say what the results are.
  - `laws.rs` states what holds of every manifest.
  - `entries.rs` models ordered maps, `decimal.rs` writes numbers.
  - `index_map.rs` holds what is taken on trust from the `indexmap` crate.
- `tests/` runs the library on examples.
- `app/` serializes subnets and turns failures into reports and panics.
