//! The decisions of a service that scans a stream of posts for keywords and imports
//! the posts that match.
//!
//! A connection delivers chunks of bytes, which [`stream`] cuts into messages;
//! [`connection`] says when to connect again. [`sse`] parses a message, [`keywords`]
//! finds the antennas that a post matches, and [`rate_limit`] and [`limits`] decide
//! which of the matches count. [`posts`] puts these together, from a message to the
//! request that imports its post. [`api`], [`config`] and [`metrics`] hold the texts
//! and numbers around them, [`text`] the work on characters, and [`clock`] the time.
//!
//! The modules whose names end in `laws` state what holds across functions and calls.

pub mod api;
pub mod clock;
pub mod config;
pub mod connection;
pub mod keyword_laws;
pub mod keywords;
pub mod limit_laws;
pub mod limits;
pub mod metrics;
pub mod post_laws;
pub mod posts;
pub mod rate_limit;
pub mod rate_limit_laws;
pub mod sse;
pub mod stream;
pub mod stream_laws;
pub mod text;
pub mod text_laws;
