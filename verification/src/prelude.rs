//! The items most users need.
pub use crate::error::{DHTError, Result};
pub use crate::types::{DHTOptions, FileInfo, NetMode, TorrentInfo};
