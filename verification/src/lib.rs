//! A library for declaring a directed acyclic graph of named tasks with
//! dependency edges, validating it, and driving its execution so that a task
//! runs only after all of its dependencies have completed successfully.
//!
//! A [`Graph`] accumulates named nodes and edges; [`Graph::froze`] validates
//! it (detecting cycles with a dependency-counting topological pass) and
//! produces an immutable [`FrozenGraph`] with a synthetic root whose children
//! are exactly the zero-dependency nodes. A [`Scheduler`] built on the frozen
//! graph exposes the run protocol: a per-run [`RunState`] of remaining
//! dependency counters, advanced one completion event at a time. All counter
//! bookkeeping is verified here; actually spawning tasks and collecting their
//! completion events is left to the embedding program.
#![verifier::loop_isolation(false)]

mod error;
mod graph;
mod scheduler;

pub use error::Error;
pub use graph::{
    acyclic, has_name, in_queue, is_edge, lemma_pending_bounds, lemma_pending_subset,
    lemma_trapped, name_index, ok_within, pending_count, resolvable, ring_names, ring_of,
    roots_of, FrozenGraph, Graph, Node,
};
pub use scheduler::{
    lemma_dispatch_after_parents, lemma_dispatch_once, lemma_progress, ready_list_ok,
    CompletionEvent, RunState, RunningNode, Scheduler, Step,
};
