//! The decisions of a mail filter that encrypts outbound mail with S/MIME
//! and keeps the certificates of inbound signed mail: the session of a
//! message from its sender to its end, the MIME containers it reads and
//! writes, and the certificates it looks up.

pub mod address;
pub mod buffer;
pub mod encoding;
pub mod milter_callbacks;
pub mod mime_parser;
pub mod round_trip;
pub mod smime;
pub mod text;
pub mod wrap;
