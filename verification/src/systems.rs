//! Game systems, written over plain values so that each rule can be stated
//! and proved without reference to a particular entity store or renderer.

pub mod combat;
pub mod tooltips;
