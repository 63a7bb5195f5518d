# veryl_analysis

Checks of a hardware description, written in Rust and verified with Verus.

- `type_dag` is the graph of dependencies between symbols. Declarations and uses of symbols are added
  to it and then applied: every dependency ends in the graph or is reported as a cycle, unless a
  symbol uses what it owns or may use itself. The graph gives the symbols in topological order, what
  each symbol depends on, and a text to read.
- `check_embed_include` holds the rules for embedded and included text.
- `cmd_check` and `check_run` are the check command: which reports are kept, and when a run stops.

The graph itself is the one of `daggy`; `dag` and `node_map` state what is taken for granted of
`daggy`, `petgraph` and `bimap`. `dag_view` is the model of the state, with what each step makes of it.
`laws`, `dag_growth`, `dag_ranking`, `report_laws` and the laws at the end of `check_run`, `check_embed_include` and
`type_dag::dump` state what holds of the whole.

`app` reads files, keeps the graph of a thread, and drives a run of the check command.
