//! Proxy subscription links: decoding, encoding, deduplication and renaming.
pub mod base64;
pub mod json;
pub mod nodes;
pub mod percent;
pub mod protocol;
pub mod sub;
pub mod text;
