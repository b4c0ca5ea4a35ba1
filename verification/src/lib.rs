//! The core of HeavyKeeper, which finds Top-K elephant flows with high precision
//! and a low memory footprint: the queue that tracks the largest counts, and the
//! reader for serialized sketches.
//!
//! HeavyKeeper is described in the paper "HeavyKeeper: An Accurate Algorithm for
//! Finding Top-k Elephant Flows" by Junzhi Gong, Tong Yang, Haowei Zhang, Hao Li,
//! Steve Uhlig, Shigang Chen, Lorna Uden and Xiaoming Li.

pub mod hashing;
pub mod heap;
pub mod laws;
pub mod memory;
pub mod model;
pub mod priority_queue;
pub mod probing;
pub mod ranking;
pub mod serialization;
pub mod text;

pub use memory::Reallocator;
pub use serialization::DeserializeError;
