//! Verified core of minipacked: the container header format, the chunked
//! authenticated-encryption stream, argument and prompt handling, and the
//! path rules applied while packing and unpacking.

pub mod constants;
pub mod error;
pub mod format;
pub mod crypto;
pub mod text;
pub mod args;
pub mod archive;
pub mod prompt;
pub mod cli;
pub mod stream;
