//! Bidirectional multi-criteria shortest-path search over a contracted
//! (shortcut-augmented) directed graph.
//!
//! Edge costs are fixed-dimension vectors of non-negative integers; a
//! caller-supplied weight vector reduces each cost vector to a single
//! ordering scalar by a saturating dot product. The engine runs two
//! simultaneous Dijkstra relaxations (forward from the source, backward
//! from the target) over one shared priority queue, records the best
//! meeting node, and unpacks the resulting shortcut path into original
//! edges.

pub mod costs;
pub mod dijkstra;
pub mod graph;
pub mod routing;
pub mod state;
pub mod user;
