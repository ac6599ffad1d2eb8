//! Thronglets: the verified core of a shared-memory substrate for AI agents.
//!
//! Every module holds the decisions and data transformations of one part of
//! the system; reading and writing files, the network and the clock happen
//! outside, and only their results are handed in.

pub mod network_state;
pub mod clock;
pub mod crypto;
pub mod identity;
pub mod text;
pub mod trace;
pub mod learning;
pub mod workspace;
pub mod posts;
pub mod pheromone_tail;
pub mod config;
pub mod setup_support;
