//! A small content-addressable object store: blobs, trees and commits, each
//! named by the SHA-1 digest of its canonical encoding.

pub mod commands;
pub mod commit;
pub mod config;
pub mod hashing;
pub mod object;
pub mod order;

pub use commands::{Commands, InitArgs};
pub use commit::{Commit, Signature, Timestamp};
pub use config::{Config, User};
pub use hashing::ObjectType;
pub use object::{Blob, Object, Tree};
