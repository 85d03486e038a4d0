//! Plain data exchanged with a match server.
pub mod parse;
pub mod request;
