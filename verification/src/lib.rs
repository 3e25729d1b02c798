//! Price-time priority matching engine for a single instrument.

pub mod arena;
pub mod bench;
pub mod binary;
pub mod bits;
pub mod book_laws;
pub mod decode_laws;
pub mod generator;
pub mod half;
pub mod http;
pub mod http_laws;
pub mod laws;
pub mod layout_laws;
pub mod levels;
pub mod matching;
pub mod matching_laws;
pub mod model;
pub mod orderbook;
pub mod parser_laws;
pub mod replay;
pub mod request_laws;
pub mod service;
pub mod service_laws;
pub mod text;
pub mod trace_laws;
pub mod types;
pub mod wire;
pub mod wire_laws;
