//! A PARSEC node handle and its blocks, as seen through the C interface:
//! votes, gossip exchange, stable blocks and the proofs that back them.

pub mod error;
pub mod id_set;
pub mod bytes;
pub mod block;
pub mod order;
pub mod node;

