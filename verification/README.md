# emry

Training observability, verified with Verus: a run's events go through a
lock-free ring to logs, observers, anomaly detection, a terminal dashboard and a
web dashboard, and watching a run never slows it down.

- `src/base`: events, metric names, the event ring and the event bus, text,
  paths, floating-point values by their bits.
- `src/engine`: starting and feeding a run, the worker and the pipeline,
  processors, anomaly detection.
- `src/store`: the log queue, run metadata, listing and reading runs, CSV and
  table exports.
- `src/ingest`: the frame format of the sidecar socket, following a metrics file.
- `src/tui`: the terminal dashboard's state, charts and panes.
- `src/web`: the web dashboard's state, projects, tokens and roles.
- `src/cli`: what each command does, and the reports it prints.
- `app`: the program around the library: files, sockets, threads, the terminal,
  the web server, serialisation and floating-point arithmetic.

Arithmetic on floating-point numbers is handed to the library as closures; its
contracts speak of whatever function such a closure computes. Values themselves
are compared and tested by their bits.
