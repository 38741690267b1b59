//! A streaming parser for `multipart/*` request bodies.
//!
//! A [`parser::MultiPartParser`] is fed a body in chunks. Small parts are kept
//! in memory; larger ones are handed to temporary files. The parser opens no
//! file itself: it asks its caller to (see [`multipart::FileRequest`]) and goes
//! on when the caller has answered.

pub mod contents;
pub mod display;
pub mod documents;
pub mod ending;
pub mod fields;
pub mod finding;
pub mod headers;
pub mod laws;
pub mod lines;
pub mod machine;
pub mod multipart;
pub mod parser;
pub mod reasons;
pub mod search;
pub mod showing;
pub mod streaming;
pub mod text;
pub mod wire;
