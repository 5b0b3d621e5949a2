//! A lazy, memoizing dataflow graph over opaque scalar values.
//!
//! Nodes live in an arena and are addressed by index; dependency edges point
//! from dependents to dependencies (toward smaller indices), while
//! invalidation notifications travel the opposite way through per-node
//! publishers. A computed node memoizes its value in a one-slot cache that is
//! cleared, exactly once per clean-to-dirty transition, when any transitive
//! dependency changes.

pub mod compgraph;
