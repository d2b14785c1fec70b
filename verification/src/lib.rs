//! A verified core for a minimal static file server.
//!
//! The library holds the request-path resolution rules (normalization,
//! traversal guard, hidden-file policy, index-file and directory-listing
//! choice), the conditional-request logic (ETag, Last-Modified), the
//! directory-listing renderer, and the command-line configuration
//! validation. Everything here is specified and verified; the process
//! around it (argument intake, sockets, file reads) stays outside.

pub mod cond;
pub mod config;
pub mod listing;
pub mod mime;
pub mod reqpath;
pub mod util;
