//! A content-addressed store of loose objects: blobs, trees and commits named
//! by the SHA-1 digest of their header-prefixed bytes and kept zlib-compressed.
pub mod error;
pub mod kind;
pub mod bytes;
pub mod header;
pub mod zlib;
pub mod hash;
pub mod object;
pub mod tree;
