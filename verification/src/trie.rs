//! The dictionary: a prefix tree grown word by word, then packed into one
//! contiguous arena of nodes.

pub mod large;
pub mod arena;
