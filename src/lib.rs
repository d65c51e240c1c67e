//! Change detection and markup transcoding for a polled news feed.
//!
//! The library holds the parts of the feed relay that decide and compute:
//! snapshot comparison, the bracket-markup transcoder, message composition
//! and the split of a message into size-bounded chunks.
mod text;
pub mod scan;
pub mod markup;
pub mod snapshot;
pub mod cycle;
pub mod chunks;
