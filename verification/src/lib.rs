//! Cache eviction, promotion and admission policies for a two-tier
//! (DRAM + flash) key-value store, and the simulation that measures them.

pub mod fxmap;
pub mod rng;
pub mod seqs;
pub mod slots;
pub mod text;

pub mod eviction;
pub mod random;
pub mod lru;
pub mod lfu;
pub mod fifo;
pub mod s3fifo;
pub mod truelru;

pub mod admission;
pub mod promotion;

pub mod churn;
pub mod sim;
pub mod trace;
pub mod names;
