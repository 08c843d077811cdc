//! Prefix beam search over the output of a CTC model.
//!
//! A CTC model gives, for each time step of an item, a score for each class,
//! one of the classes being the blank. The decoder finds for each item of a
//! batch a sequence of labels of high probability: it keeps a beam of label
//! prefixes in a prefix tree and moves their probabilities forward step by
//! step, with or without a bigram language model over the labels.
//!
//! - `log_space`: the numbers of a decode, held by their order.
//! - `arith`: the arithmetic on them, which the caller hands in.
//! - `heap`: the order of the beam.
//! - `beam_list`: the prefix tree and the beam over it.
//! - `search`: what each step of a decode gives, as functions on lists.
//! - `output`: the layout of what a decode returns.
//! - `decoder`: the decoder.
//! - `laws`: what holds of every state of a decode.

#![allow(non_snake_case)]

pub mod arith;
pub mod beam_list;
pub mod decoder;
pub mod heap;
pub mod laws;
pub mod log_space;
pub mod output;
pub mod search;
