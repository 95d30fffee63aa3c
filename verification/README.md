# ech-k8s

A toolkit for Kubernetes operators that reconcile their resources along a graph of dependencies.
Its logic is verified with Verus.

- `src/` is the library `ech_k8s`: graphs and their scheduling, the status of a workflow, the
  steps of a reconciliation and of a cleanup, leadership, requests and what their answers mean,
  stores, names and labels. It neither waits nor sends; functions take in what happened and say
  what is to be done next. What each one does stands in its contract, and what holds of several
  of them together stands in public proof functions.
- `app/` is the runtime `ech_k8s_runtime` around it: it connects to the cluster, watches
  resources, holds the lease, answers health probes and runs the reconcilers of a workflow.
- `tests/` runs the library, with the crates that it calls.

| Promise | Where it is proved |
| --- | --- |
| A node is reconciled only after everything that it depends on is ready, and at most once. | `workflow::laws` |
| A graph is refused if and only if a dependency is missing or leads back to itself; a cycle is reported at a node that lies on one. | `workflow::scheduler` |
| The outcome of a run depends on what the nodes report, not on the order of a round. | `workflow::laws` |
| A node is ready after a run if and only if it and everything that it depends on report so. | `workflow::laws` |
| The status of a run does not show in what order nodes were declared, or how often a dependency was named. | `workflow::declaration` |
| Where nodes are declared after what they depend on, each is cleaned up once, before everything that it depends on. A node that is named before it is declared is cleaned up twice. | `workflow::laws` |
| A resource is left alone exactly when every node of its workflow is ready. | `operator` |
| At most one task runs, only under the lease, and none after an exit. | `leader` |
| A prune deletes exactly what is listed and not desired. | `resources` |
| A store gives back what was put into it. | `store` |
| The selector of a component matches its labels. | `component` |
| What is derived for a component gives it its instance name, and a label for every value. | `derive` |

The calls into outside crates that the proofs rest on stand behind small functions whose doc
comments say what is claimed of the crate.
