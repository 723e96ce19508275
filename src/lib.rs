//! A small in-memory key-value server core: a parser for multi-bulk request
//! frames, a store whose entries may carry an expiry instant, and the encoding
//! of reply frames.
pub mod command;
pub mod parse;
pub mod reply;
pub mod request;
pub mod store;
pub mod text;
