# bevy_bhtn

A Hierarchical Task Network planner for Bevy, written and proved in Verus.

- `src/` is the planner: recording and baking task networks, forward search with
  backtracking, look-ahead, cost bounds and pauses, backward planning, Monte Carlo
  tree search, adversarial search, the agents' turns, and the conditions, effects
  and operators of domain files. Every function states what it returns, and Verus
  checks it. `src/lib.rs` says which laws hold across functions, and where.
- `tests/` runs the library on concrete domains.
- `app/` connects it to a Bevy world: components and closures as the planning
  model, the driver system, reflection, assets, and what is floating point.

A task is a function that declares, on a builder, either branches of subtasks or
preconditions and effects. The library knows tasks, goals and component types by
number, and bodies through the trait `PlanModel`; `field_model` is a model of named
fields, and `app/model.rs` one of Bevy components.

Scores are fixed-point numbers, `SCORE_ONE` to the whole. Costs are not negative,
and a sum that no longer fits is infinite.

What the library calls outside itself, and what it takes for granted of it:
`ustr` interns names, `smallvec` holds member orders, and `bevy_reflect`'s type
registry finds types by path. These calls stand in `names.rs`, `order.rs` and
`values.rs`.
