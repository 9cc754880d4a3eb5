//! A sans-I/O, incremental parser for `multipart/form-data` request bodies
//! (RFC 7578 / RFC 2046).
//!
//! The caller feeds arbitrary byte chunks as they arrive; the parser keeps a
//! sliding window over the input, detects boundary delimiters even when they
//! straddle two chunks, tokenizes header lines, and assembles field and file
//! records.  It performs no I/O of its own, so the same core works inside
//! blocking servers, async servers, or test harnesses.

pub mod bytes_util;
pub mod chunking;
pub mod errors;
pub mod form_data;
pub mod headers;
pub mod laws;
pub mod multipart;
pub mod strutil;

pub use errors::MultipartError;
pub use form_data::BytesWrapper;
pub use form_data::FormData;
pub use form_data::FormDataView;
pub use headers::HeaderMap;
pub use headers::parse_options_header;
pub use multipart::MultipartParser;
pub use multipart::MultipartPart;
pub use multipart::MultipartState;
