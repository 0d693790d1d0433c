//! Matchers for multipart/form-data HTTP request bodies.
//!
//! The core is a verified multipart parser: it extracts the subtype and
//! boundary token from a `Content-Type` header value, splits a raw body
//! into the byte ranges delimited by the boundary marker, and splits each
//! part into a header block and a body block, from which the `name`,
//! `filename` and `Content-Type` fields are read.
pub mod ascii;
pub mod content_type;
pub mod laws;
pub mod matchers;
pub mod part;
pub mod request;
pub mod roundtrip;
pub mod segment;

pub use content_type::MultipartContentType;
pub use matchers::ContainsPart;
pub use matchers::NumberOfPartsMatcher;
pub use part::EncodingError;
pub use part::Part;
pub use request::RequestData;
pub use request::RequestUtils;
