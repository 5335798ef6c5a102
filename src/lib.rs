//! A content-addressed store of blob and tree objects: their canonical
//! encoding, their SHA-1 addresses, their compressed loose form and the
//! parser that reads them back.

pub mod hex;
pub mod numtext;
pub mod cursor;
pub mod codec;
pub mod object;
pub mod decode;
pub mod store;
pub mod args;
