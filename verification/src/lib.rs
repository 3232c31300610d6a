//! Client core for a game-service asset pipeline: a signed request protocol,
//! versioned asset-manifest resolution and merging, a persistent fetch cache
//! with content-hash deduplication, and the decision logic of a retrying,
//! concurrency-bounded bulk downloader.
//!
//! Everything here is pure logic over plain values. The surrounding binary
//! performs the network and file-system work and feeds the results back in.

pub mod api_url;
pub mod cache;
pub mod client;
pub mod codec;
pub mod crypto;
pub mod download;
pub mod enums;
pub mod envelope;
pub mod errors;
pub mod fetch;
pub mod headers;
pub mod models;
pub mod msgpack;
pub mod outside;
pub mod patchfile;
pub mod replace;
pub mod scriptpatch;
pub mod strutil;

pub use enums::AssetSize;
pub use enums::DeviceType;
