//! A world made of independently shaped two-dimensional surface patches
//! ("branches") wired together at their edges into a tree, across which a
//! point can travel continuously as if the patches formed one seamless
//! surface.
//!
//! All geometry is carried by exact rational numbers, so every coordinate
//! computation is exact and every stated property is proved rather than
//! approximate.

pub mod branch_id;
pub mod connection;
pub mod error;
pub mod interval;
pub mod line;
pub mod logical;
pub mod movable;
pub mod player;
pub mod point;
pub mod position;
pub mod rat;
pub mod tree;
pub mod tree_branch;
pub mod tree_builder;
pub mod visual;
