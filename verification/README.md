# cutflow

A verified core for managing the productions of an animation studio: the
projects of a studio, and for each project its cuts, its participants, its
assets and the tasks that work on them.

- `src/production.rs`: the registry of projects, each reachable by its key,
  its server identifier and its drive identifier; a project's participants,
  and the hand-over of asset tickets between the asset pool and the tasks.
- `src/production/cut.rs`: the film's cuts in a layered order (a split cut
  becomes a level of its own), their paths and how a path is written
  (`c005B-3`).
- `src/production/task.rs`, `asset.rs`, `workflow.rs`: tasks, assets and
  the workflow types they belong to.
- `src/production/slot.rs`: the slot maps that hold cuts, assets, tasks and
  projects, behind wrappers whose contracts state what each call does.
- `src/util/iter.rs`: the layered sequence, its depth-first walk and the
  paths of its elements.
- `app/`: the program around the library: the shared, revisioned registry
  on an async runtime, and the serde forms of the identifiers.

Every function in `src/` is proved by Verus against its contract, except
the trusted items that call the outside crates and std: the wrappers
marked `#[verifier::external_body]` (the slot map and bimap calls,
interning, `String::push`, and comparing dates and strings), whose
contracts are believed as they stand, and the declarations of the outside
types. The laws that relate several operations stand in `src/` as public
proof functions.
