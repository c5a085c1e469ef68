//! Reverse-mode graph walking: from an output node back to its inputs, each
//! backward step is handed out exactly once.
pub mod node;
pub mod step;
pub mod traversal;

pub use node::{NodeID, Parent};
pub use step::{Step, StepNode};
pub use traversal::{BreadthFirstSearch, TraversalItem};
