# repartition_classes

Splits the pupils of a primary school into classes of one level or two
levels, and proposes several plans. The library is written in Verus: every
function carries a contract that the verifier proves.

- `src/config.rs`: the school's configuration (levels, pupils' names, plan
  parameters) and its checks.
- `src/dinic.rs`: Dinic's maximum-flow algorithm, with a proof that the flow
  it returns is maximum (a saturated cut separates source and sink).
- `src/flow.rs`: `feasible_assignment`, the integral assignment of the pupils
  to a composition of classes, read off a maximum flow; with a minimum class
  size, the answer is that flow's placement when it meets the minimum.
- `src/search.rs`: the compositions a class may have, the pruned depth-first
  search, the random draws and the keys that tell plans apart.
- `src/report.rs`: the label and the detail of a class in the printed plans.
- `src/roster.rs`: the lists of pupils' names cut, in order, into the classes.
- `src/strings.rs`, `src/sums.rs`: the order on names, sorting and joining;
  finite sums.
- `app/main.rs`: the command line, the TOML file, the floating-point scores
  and the printing.
