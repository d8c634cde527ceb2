//! Decoding of the length-prefixed "bencoding" wire format used by
//! peer-to-peer file-sharing protocols, and a fixed-width node identifier
//! with the bitwise-XOR distance metric of a distributed hash table.

pub mod decode;
pub mod grammar;
pub mod node_id;
pub mod value;
