//! Decoding and encoding of a collaborator's identity and networking
//! profile, held as a flat key/value table in TOML text.
//!
//! The decoder reads a generic tree value (strings, integers, arrays and
//! tables) and turns it into a fully validated [`record::CollaboratorRecord`];
//! the encoder writes such a record back as canonical text.

pub mod batch;
pub mod decode;
pub mod document;
pub mod encode;
pub mod hex;
pub mod ipv4;
pub mod ipv6;
pub mod laws;
pub mod record;
pub mod text;
pub mod tree;
