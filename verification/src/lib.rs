//! Access planning over encoded integer columns: a page format, the decoders it
//! carries, the facts that may be derived about them, and the plans those facts
//! allow.
pub mod access_compiler;
pub mod study;
