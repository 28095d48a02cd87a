//! Text operations on JSON that never fail: pretty-print, compact, sort into canonical
//! order, unwrap JSON embedded in strings, and encode or decode a string literal. The
//! documents are read and written by an outside JSON library; what is done to them in
//! between is verified here.

pub mod broker;
pub mod codec;
pub mod embedded;
pub mod json;
pub mod keys;
pub mod laws;
pub mod lists;
pub mod logging;
pub mod message;
pub mod order;
pub mod outside;
pub mod sorter;
pub mod text;
pub mod value;
