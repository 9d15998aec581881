# bowl

An incremental evaluation engine for stateful programs that are not games, as a
verified library. Callers insert facts about entities. Systems derive more facts
from rows of them. Queries read settled results. Every system invocation is
remembered with the component revisions that it observed, so that an unchanged
row is passed over and an affected one runs again.

```text
base facts -> snapshots -> memoized systems -> buffered facts -> fixed point
                                                                  |
                                                       settled query results
```

What the functions in `src/` do is stated in their contracts and proved. What the
bodies of systems and the callbacks of hooks do is their own: contracts speak of it
through the relations that those state of themselves. Time is only measured in
`app/`.

A query result is a snapshot that shares the cells of its components with the bowl,
and is read through it: a write in place, through a live access or by a system, shows
in results that are held. What is inserted, removed, or replaced by a changed copy
leaves them alone. For this the bowl keeps the last value that was written in place
into each cell, also when the component is gone.

## Layout

| Path | What it holds |
| --- | --- |
| `src/entity.rs`, `component.rs`, `declare.rs`, `facts.rs` | Entities, components, shapes, and a ready-made universe of components. |
| `src/model.rs`, `store.rs`, `presence.rs`, `world.rs` | The world: component stores, revisions, fingerprints, ownership, relationships. |
| `src/query.rs`, `rows.rs`, `facet.rs`, `filter.rs`, `projection.rs` | Queries, filters, and what they read. |
| `src/param.rs`, `join.rs`, `binding.rs`, `registry.rs`, `config.rs`, `system.rs`, `memo.rs` | Systems: parameters, joins, planning, memoization, hooks. |
| `src/commands.rs`, `commit.rs`, `conformance.rs` | Buffered writes and what a commit makes of them. |
| `src/evaluation.rs`, `state.rs`, `state/` | Phases, generations, epochs, preemption, settling, the engine that drives them, and the courses it can take. |
| `src/bowl.rs` | The bowl: state, systems and callers together. |
| `src/*_laws.rs` | What holds of the library as a whole. |
| `src/derive.rs`, `derive/` | The code that the derive macros generate, from token trees. |
| `src/pipeline.rs`, `pipeline/` | A small synchronous database on the same vocabulary. |
| `app/` | Asynchronous callers of a bowl, and the entry points of the derive macros. |
| `tests/` | Scenarios. |

A program stores values of one universe type, which says for each value what
component type it belongs to, how it is fingerprinted, and which other entity it
points at. `src/facts.rs` has one that covers every kind of component.
