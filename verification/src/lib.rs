//! Safe ingestion of gzip-compressed tar archives.
//!
//! The library decompresses an uploaded payload, parses it as a tar
//! container, resolves each entry's declared path onto a destination root
//! while enforcing containment, and plans the filesystem actions for a
//! caller to perform. Every decision along that pipeline is verified;
//! only the gzip decompression itself is delegated to an outside crate
//! behind a trusted wrapper.

pub mod container;
pub mod driver;
pub mod gzip;
pub mod paths;
pub mod tree;
