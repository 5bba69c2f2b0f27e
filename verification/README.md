# schubert

Quantitative access control via Schubert calculus, verified with Verus.

A capability is a Schubert condition (a partition) on a Grassmannian
Gr(k, n). A principal's namespace holds the conditions it was granted; an
access check intersects the conditions that a request needs and reports
how many configurations survive (granted), that none do (impossible), that
too many conditions were asked for (denied), or how many dimensions remain
free (under-constrained).

## Layout

- `src/` — the verified library. Every function carries a `requires` /
  `ensures` contract proved by Verus; the intersection counts come from the
  `amari-enumerative` engine through the trusted wrappers in `src/engine.rs`,
  whose contracts name the engine's results.
  - `controller.rs`, `principal.rs`, `capability.rs`, `decision.rs`: the
    access controller and its model.
  - `laws.rs`: the controller's laws as proof functions (grant/revoke,
    idempotence, path agreement, order independence); `law_check.rs`:
    the same laws checked at run time on a live controller.
  - `crdt.rs`: replicated grant/revoke state with version vectors and merge.
  - `crypto.rs`: signed capability and grant tokens (Ed25519).
  - `routing.rs`, `multi.rs`, `composition.rs`: routes, domains and
    composition of controllers.
  - `policy.rs`, `snapshot.rs`: declarative policies and controller
    snapshots; `stability.rs`: the namespace views stability analysis
    compares.
  - `auth.rs`, `explore.rs`, `discover.rs`, `recommend.rs`: request
    authentication, the command evaluator, the API catalogue and the
    configuration recommender.
- `tests/` — tests run against the compiled library.
- `app/` — the command-line program and the parts that need I/O,
  serialisation, floating point or outside traits.
