//! A single participant in a peer-to-peer broadcast protocol.
//!
//! The node accumulates integer values, tracks what each neighbour is
//! believed to know, and exchanges set-difference deltas with its peers
//! until everyone has seen every value (anti-entropy gossip).

pub mod helper;
pub mod node;
pub mod protocol;
