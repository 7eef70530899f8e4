# apollo-core

The decision logic of the Apollo agent platform — scheduling, governance,
crash intelligence, orchestration, model routing, fleet coordination and
launch resolution — written in Verus and proved against its contracts.

## Layout

- `src/` — the verified library. Each module states its behaviour as
  `requires` / `ensures` over spec functions and views:
  - `cron`, `calendar`, `scheduler` — five-field cron expressions, the next
    fire time of a schedule, and the job records a scheduler keeps;
  - `policy`, `arch_selector` — tenant policies, workflow DAG analysis,
    governance checks and the recommended execution configuration;
  - `health`, `alerting` — the crash window, crash patterns, the restart
    budget, alert rules and signed webhook payloads;
  - `orchestration`, `views` — blueprints, groups, workflow runs and what
    the command line shows of them;
  - `memory`, `messaging`, `tracing`, `secrets` — agent memory with expiry,
    the topic bus, trace spans, and sealed tenant secrets;
  - `model_router`, `fleet`, `node_ops`, `instances`, `runtime_registry`,
    `fetch`, `operator`, `display`, `layout` — routing, the hub's fleet,
    request admission, process bookkeeping, launch resolution, agent
    sources, the Kubernetes reconcile plan, terminal text and file paths.
- `tests/` — executable tests of the library.
- `app/` — the I/O around it: JSON files, HTTP, token decoding, the command
  line, and the floating-point scores (health, architecture, search) that
  the library leaves to its callers.
