//! A glitch-free reactive dataflow engine: cells, streams, combinators and
//! a transactional propagation sweep over one registry of nodes.
//!
//! Every node of one [`FrpContext`] holds a value of the same type `V`, and every
//! derived node computes it with a rule of the same type `F`, applied to the
//! values of its inputs in order. Writes to sinks mark their descendants dirty;
//! when the outermost transaction closes, the sweep visits each dirty node once,
//! every node after the dirty nodes it depends on, and reports in a [`Sweep`] the
//! notifications owed to observers and every switch whose selector changed. The
//! host runs the observer callbacks and rebuilds those switches inside one
//! transaction with `resume_switch` and `end_switch`; `end_switch` marks the switch
//! and its dependents dirty, so closing that transaction recomputes them from the
//! new branch. A switch begun while another switch's branch is being built is owned
//! by that branch, and `end_switch` hands construction back to it. A loop is closed
//! with `cell_loop` once the cell that defines the placeholder is built.

mod toposort;
pub mod graph;
pub mod handles;
pub mod combinators;
pub mod propagate;
pub mod observers;
pub mod lifecycle;
pub mod laws;

pub use graph::{FrpContext, Node};
pub use handles::{Cell, CellSink, CellTrait, Stream, StreamSink, StreamTrait};
pub use propagate::{Notification, Sweep};
