//! Storage formats.

pub mod binary_codec;
pub mod binary_decode;
pub mod record_extent;
pub mod record_log;
pub mod replay;
pub mod binary_laws;
pub mod binary_log;
pub mod binary_recovery;
pub mod codec_laws;
