//! Codecs, framing and sample generation for comparing wire formats on the
//! same game messages.
//!
//! The Fomoxa and plain Cap'n Proto codecs are stated over byte-level
//! specifications, and the round trips between them are proved; canonical
//! Cap'n Proto bytes come from the `capnp` crate, and their round trip rests
//! on what that crate is trusted to guarantee.

pub mod bytes;
pub mod text;
pub mod format;
pub mod messages;
pub mod fomoxa;
pub mod capnproto;
pub mod pair;
pub mod samples;
pub mod tcp;
pub mod measure;
