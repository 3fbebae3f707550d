//! Ringil: the swarm-side logic of an autonomous drone node, with its
//! contracts proved by Verus.
//!
//! - [`config`]: settings of a node that carry no real numbers.
//! - [`frame`]: the swarm frame and its priority classes.
//! - [`buffer`]: a bounded, priority-aware frame buffer.
//! - [`builder`]: fluent construction of frames.
//! - [`node`]: the key space that frames are published under and the
//!   subscriptions that receive them.
//! - [`crypto`]: authenticated encryption of frame payloads.
//! - [`embedding`]: compact encodings of feature embeddings.
//! - [`events`]: object classes reported by perception.
//! - [`tracking`]: ByteTrack bookkeeping and greedy association.
//! - [`pipeline`]: which events a frame yields and how flight answers them.
//! - [`detection`]: the face detector's anchor grid and non-maximum
//!   suppression.
pub mod config;
pub mod frame;
pub mod buffer;
pub mod builder;
pub mod node;
pub mod events;
pub mod crypto;
pub mod embedding;
pub mod tracking;
pub mod pipeline;
pub mod detection;
