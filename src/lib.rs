//! Wire framing and WML parsing for the Wesnoth multiplayer protocol.
//!
//! After a four-byte handshake, each direction of a connection carries
//! frames: a big-endian `u32` length, then that many bytes of gzip. The
//! payloads are WML documents, parsed here into a tree whose strings are
//! keys into the document's buffer.
pub mod doc;
pub mod effects;
pub mod error;
pub mod fidelity;
pub mod frame;
pub mod gzip;
pub mod handshake;
pub mod inspect;
pub mod lex;
pub mod wml;

pub use doc::{Doc, DocProcessor};
pub use error::Error;
pub use frame::{ReadStep, Reader, Writer};
pub use handshake::{client_handshake, server_handshake};
