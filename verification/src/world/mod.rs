//! Chunks, subchunks and world generation.
//!
//! Knows nothing about the network. Chunk sections are immutable and shared, mutated
//! copy-on-write: writing a block makes a new section and swaps it in, so a section
//! handed to a serializer never changes underneath it.
pub mod chunk;
pub mod generator;
pub mod section;
pub mod world;
