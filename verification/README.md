# js_arc

A Send + Sync handle for JavaScript values. The values live on one thread,
inside a server; handles send closures to that server and get back ids.

- `src/` is the verified core, generic over the stored value type `V` and the
  reply handle `N`:
  - `plan.rs`: where the values a job hands back are saved (`SavePlan`, the
    spec function `saved`) and lemmas about saving;
  - `command.rs`: the commands the server takes and the actions it answers;
  - `server.rs`: `JsArcServer`, its mathematical state `ServerState` (values,
    id counters, pending background jobs, the job in flight and the ids
    answered so far), its well-formedness, and `step` / `finish`, which carry
    out one command; no other command is taken while a job is in flight;
  - `laws.rs`: properties that hold across commands and over whole runs.
- `app/` instantiates the server with `wasm_bindgen::JsValue`, carries the
  closures and channels (`async_channel`, `wasm_bindgen_futures`), and defines
  `JsArc` with its operators, plus a browser example.
- `tests/` drives the server through the documented scenarios with integers.
