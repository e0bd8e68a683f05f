# markov-blanket, verified

Markov blankets, d-separation and agent boundaries on directed graphical models, with the
graph logic proved correct in Verus.

- `src/` — the verified library:
  - `graph.rs`: nodes, edges, parents, children, neighbours.
  - `blanket.rs`: the Markov blanket of a node and of a set of nodes, and the blanket check.
  - `conditional_independence.rs`: d-separation by a Bayes-ball search, minimal separating
    sets, separated pairs, combinations.
  - `boundary.rs`: agent boundaries (internal / blanket / external), the optimal boundary,
    boundary validation.
  - `permeability.rs`: reachability, the paths along which information flow is summed, and
    simple paths between two nodes.
  - `inference.rs`: the keyed belief store.
  - `sorted.rs`: strictly increasing vectors used as sets.
- `app/` — the real-valued side (edge weights, flows, factors, belief updates, divergences),
  built on the library.
- `tests/` — tests of the library.
