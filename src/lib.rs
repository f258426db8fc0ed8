//! Core data structures of a block-world server: the bit-packed chunk
//! storage, the byte-range claim registry that guards writes into it, the
//! work-stealing task queues that drive those writes, and the decoder for
//! variable-length integers of the wire protocol.

pub mod bits;
pub mod chunk;
pub mod guard;
pub mod registry;
pub mod scheduler;
pub mod var_int;
pub mod worker;
