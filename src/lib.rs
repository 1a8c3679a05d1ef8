//! Small text and network tools with machine-checked contracts: a round-robin
//! load balancer core, a Huffman compressor, a field cutter, a word counter
//! and a JSON reader.

pub mod bitmanipulation;
pub mod codec;
pub mod config;
pub mod cut;
pub mod decoder;
pub mod encoder;
pub mod error;
pub mod field;
pub mod header;
pub mod json;
pub mod health;
pub mod huffman;
pub mod policies;
pub mod proxy;
pub mod roundtrip;
pub mod text;
pub mod tree;
pub mod wc;
