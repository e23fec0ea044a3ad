//! Ranks the open issues of a repository by their positive-reaction count.
//!
//! The library holds the pure logic of the tool: parsing the pagination
//! link header, the page-walking state machine that collects open issues,
//! counting positive reactions, and producing the sorted, truncated
//! ranking. Network transport, credential loading and terminal output live
//! outside the library and hand it plain values.

pub mod link_header;
pub mod model;
pub mod ranking;
pub mod urls;
pub mod walker;
