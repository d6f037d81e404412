//! Decoder core for the two binary containers that carry Direct Stream
//! Digital (DSD) audio: the hierarchical big-endian chunk format ("DFF",
//! a DSDIFF subset) and the flat little-endian chunk format ("DSF").
//!
//! The core turns an in-memory byte stream into negotiated stream
//! parameters (sample rate, channel count, total frame count, bit order)
//! and a uniform pull-based read/seek interface. Opening a file and
//! feeding its bytes to this core is left to the caller.

pub mod byte_stream;
pub mod dsd_readers;
