//! A small content-addressed object database: blobs, trees and commits are
//! stored under the SHA-1 digest of their framed content, compressed with zlib.

pub mod codec;
pub mod hashing;
pub mod error;
pub mod tree;
pub mod store;
pub mod snapshot;
pub mod commit;
pub mod history;
pub mod listing;
