//! A Hierarchical Task Network planner.
//!
//! A domain is a graph of tasks. A compound task decomposes by one of its
//! branches into members, a primitive task has preconditions and effects, and a
//! goal task names desired effects. Task functions declare the graph on the
//! builders of [`tasks`]; [`building`] records, validates and bakes it into the
//! flat arrays of [`domain`]; the planners search those.
//!
//! # Planners
//!
//! - [`planner`] decomposes forward, depth first, with backtracking,
//!   branch-and-bound over step costs, and a look-ahead that prunes dead ends
//!   and pins inevitable branches.
//! - [`back_planner`] chains backward from a goal.
//! - [`mcts`] grows a Monte Carlo search tree, and plugs into the forward
//!   planner as a strategy.
//! - [`ahtn`] plays two sides of a game against each other.
//! - [`ecs`] decides what an agent does with its plan, turn by turn.
//!
//! # What is proved
//!
//! Each function states what it returns. Across functions:
//!
//! - [`soundness`]: every answer of the forward search is a run of the network,
//!   executable step by step, and a resumed plan goes on where it paused.
//! - [`completeness`]: where a search that exhausts its space finds no plan,
//!   there is no run; the plan of a cost-bounded search is a cheapest run.
//! - [`priority`]: the depth-first search answers with the first run in its own
//!   order, which in declared order is the one with the least record; equal costs
//!   keep the first plan, and the look-ahead changes no answer.
//! - [`guarantees`]: the same of the plans that the planner returns.
//! - [`pruning`]: what the inferred summaries say holds of every run, and the
//!   look-ahead refutes and pins nothing that a run could disprove.
//! - [`strategies`]: without costs the cost-bounded search answers what the
//!   depth-first one does, and a fail-fast search always answers.
//! - [`sharing`]: a shared task runs at most once per plan.
//! - [`insertion`]: task insertion adds plans, takes none away, and leaves pauses
//!   where they were.
//! - [`mcts`], [`back_planner`], [`ahtn`]: their plans can be executed, reach
//!   the goal, and have the minimax value, respectively; the same state yields the
//!   same plan of a tree search.
//! - [`rollback`]: undoing restores the state.
//!
//! # State
//!
//! The planners work on a scratchpad of component values ([`state`]). What the
//! components are, and the bodies of preconditions, effects and scores, is the
//! domain author's: [`model::PlanModel`] is what the planners know of them.
//! [`field_model`] is such a model, for the named fields of a domain file, whose
//! conditions, effects and operators are in [`conditions`], [`effects`] and
//! [`operators`], and whose tasks [`dsl`] reads.

pub mod ahtn;
pub mod asset_loader;
pub mod back_planner;
pub mod building;
pub mod completeness;
pub mod conditions;
pub mod domain;
pub mod dsl;
pub mod ecs;
pub mod effects;
pub mod error;
pub mod field_model;
pub mod gtn;
pub mod guarantees;
pub mod insertion;
pub mod lookahead;
pub mod mcts;
pub mod model;
pub mod names;
pub mod operators;
pub mod order;
pub mod planner;
pub mod priority;
pub mod pruning;
pub mod ranking;
pub mod recording;
pub mod refinement;
pub mod rollback;
pub mod search;
pub mod selection;
pub mod sharing;
pub mod soundness;
pub mod state;
pub mod strategies;
pub mod summaries;
pub mod tasks;
pub mod text;
pub mod values;
