use vstd::prelude::*;

pub mod indexer;
pub mod reader;
pub mod window;
pub mod search;
pub mod preview;
pub mod models;

pub use preview::LargeFilePreview;
pub use models::{FileInfo, PingRequest, PingResponse};

verus! {

/// Largest number of bytes of one line that is kept.
pub const MAX_LINE_BYTES: usize = 6291456;

} // verus!
