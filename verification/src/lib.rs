//! A minimal, verified HTTP/1.1 request dealer.
//!
//! The library parses raw request text into a structured request, matches it
//! against an ordered route table (last matching route wins), and serializes
//! structured responses back to wire text.  Listening sockets, worker threads
//! and the business handlers themselves live outside the library and consume
//! these verified pieces.

pub mod form;
pub mod text;
pub mod web_dealer;
