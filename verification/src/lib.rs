//! Tungsten's core: the lockfile that remembers uploaded assets, image
//! fingerprints, and the decisions that drive syncing and uploading.

pub mod assoc;
pub mod config_test;
pub mod hashing;
pub mod lockfile;
pub mod roblox;
pub mod sync;
pub mod text;
pub mod upload;
