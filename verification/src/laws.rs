//! What holds of every decode.
//!
//! - `tree`: every state of a decode is a tree with a beam within its
//!   capacity.
//! - `order`: the beam of every state is a min-heap of nodes above zero
//!   probability.
//! - `model`: a language model that weighs nothing changes nothing.
//! - `rows`: an item is decoded in a batch as it is alone.
//! - `repeats`: a repeated label costs a time step more.
//! - `first`: after one time step the label of the greatest total comes out.

pub mod first;
pub mod model;
pub mod order;
pub mod repeats;
pub mod rows;
pub mod tree;
