# lmflow

A dataflow engine. A graph is described by a configuration: nodes with kernels,
ports that connect them, executors that they run on. Packets enter at the graph
inputs, kernels turn them into other packets, and the host reads the graph
outputs.

The library in `src/` is verified with Verus. It holds everything that decides
or computes:

- configurations: `config`, `load`, `expand`, `supported`, `host`;
- plans of graphs and what is said about them: `plan`, `preflight`, `topology`,
  `cycle`, `report`, `dot`, `summary`, and their laws in `plan_laws`;
- the engine, as a state machine that asks for kernel calls: `wiring`,
  `typing`, `lifecycle`, `run_state`, `graph`, `schedule`, `engine`, `api`,
  `inspect`;
- what the engine promises: `laws` (claims), `delivery` (who gets what),
  `accounting` (counts), `ending` (a graph comes to its end), `ownership` (which
  packets a graph holds) and `clearing` (nothing is kept too long);
- executors and buffers: `executor`, `buffer`;
- what kernels see: `context`, `options`, `packet`, `runtime`, `builtin`;
- the boundary to other languages: `boundary`, `crossing`, `handles`, `answers`,
  `calls`;
- the ground: `text`, `text_map`, `status`, `port`, `diagnostic`, `timestamp`,
  `yaml`.

The engine never calls a kernel itself. `Graph::pump_step` says which kernel is
to be called, the host calls it and hands its status back to
`Graph::resume_step`. Whatever a kernel returns, the laws hold. Nor does it look
into a payload: a packet carries a number, and `Graph::holds` says whether a
payload is still in use.

`app/` is the command `lmflow check-config`, with the reading of YAML files, and
a host that runs graphs. `tests/` runs the library.
