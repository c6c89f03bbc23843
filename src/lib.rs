//! Per-tick move selection for a snake-like agent on a bounded square grid:
//! obstacle modelling, A* shortest-path search toward food, and conversion
//! of the first step into a direction code.

pub mod grid;
pub mod obstacles;
pub mod search;
pub mod decision;
pub mod heuristic;
pub mod laws;
