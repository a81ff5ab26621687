//! Light-client data-availability sampling: deterministic placement of blob
//! rows into storage segments, the decisions of the segment downloader and of
//! the paginated metadata reader, and the planning and checking of samples.

pub mod types;
pub mod allocation;
pub mod sampling;
pub mod downloader;
pub mod kv_reader;
