# hugr_taso

A superoptimiser for quantum circuits. It knows classes of small circuits that do the same
(ECCs), and searches for a cheap circuit by replacing parts of a circuit by others of the same
class, again and again.

The library under `src/` is verified with Verus:

- `search` is the state of a search: the queue of circuits by cost, the circuits that were
  seen, the best one, and what each worker is doing. `main_loop` is the order of events around
  it, and `worker` is what a worker does with each message.
- `rep_set` holds the classes, and `compile` makes tables of rewrite rules of them.
- `qtz_circuit`, `plan`, `wiring` and `ecc_set` read circuits: the names of operations and
  wires, the graph that they stand for, how it is built, and the classes of a file. `gates`
  defines the operations. `dataflow` says what the `hugr` crate does with such a graph, and
  `queue` what the `priority_queue` crate does.
- `get_files` and `best_log` hold names of files, the course of a download, and the log.

`app/` is the program around it: threads and channels, files, downloads, and the calls of
`portmatching` and `hugr` that match and replace patterns.

    hugr_taso compile_eccs   compiles the rewrite rules of five operations and three qubits
    hugr_taso optimise       optimises data/nam_circs/grover_5_hugr.json for an hour
    hugr_taso                optimises a small circuit
