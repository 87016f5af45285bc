# flow

Exact network-flow solvers whose published results carry checked
certificates, written in Verus.

`src/` is the verified library:

- `ids`, `model`: node and edge identities, and flow networks in canonical
  identity order.
- `flows`, `residual`, `certificate`: the mathematical model of flows, cuts
  and costs, residual closures, and solver-independent certificates of
  maximum flow (a saturated cut) and minimum cost (feasible potentials),
  with the duality lemmas that make them sound.
- `feasibility`: feasible flows under lower bounds, and, when there is
  none, a checked refutation: a node set whose edges cannot carry what its
  required divergences demand.
- `augmenting`, `max_flow`: Edmonds–Karp.
- `min_cost`, `potential_dijkstra`: successive shortest paths with
  Bellman–Ford, and with feasible potentials and Dijkstra.
- `mean_cycle`, `mean_certificate`: minimum-mean cycle cancellation, a
  certificate (an attaining cycle and shifted potentials) for the least
  mean of a residual cycle, and traced residual cycles of negative cost,
  which show that a flow is not of least cost.
- `network_simplex`: primal network simplex, plain and with tree-path
  residual values.
- `ratio_cycle`: the bounded exact undirected minimum-ratio-cycle primitive,
  proved to return the least ratio over all signed simple cycles.
- `ratio_cycle_mcf`: the exact feasible face of the bounded ratio-cycle
  min-cost-flow primitive (admission, every feasible integral flow, fixed
  coordinates, exact optimum).
- `interior_point`, `matching_flow`: the exact side of the bounded
  interior-point maximum-flow method on unit-capacity networks (admission,
  target cut, bipartite and working reductions, perfect matchings, integral
  recovery and its certificate, trace checks), and the theorem that a
  perfect `b`-matching of the reduction encodes a feasible flow of the
  target value.
- `trace`: reversible execution traces, with replay laws.

`app/` drives the floating-point central path of the interior-point method
around the verified library.  `tests/` exercises the library from outside.
