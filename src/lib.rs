//! A constraint-based box-layout engine.
//!
//! A tree of sizing rules ([`Constraint`]) is solved into a rectangle
//! ([`Frame`]) for every node. Children are laid out along the main axis of
//! their parent's [`Direction`] with exact, proportional or shrink-to-fit
//! sizing; frames are cached until the tree is mutated again.

pub mod declarative;
pub mod frames;
pub mod geometry;
pub mod layout;
pub mod solver;
pub mod tree;

pub use geometry::{
    Align, Constraint, Content, Direction, Fill, FillType, Frame, Padding, RelativeFill,
    RelativeFrame, RelativePadding,
};
pub use tree::{ConstraintKey, Node, Tree};
pub use solver::Solver;
pub use declarative::DeclarativeNode;
