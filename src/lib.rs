//! Finding groups of byte-identical regular files: a directory walk that
//! counts each physical file once, then a staged narrowing of candidates by
//! size, by fingerprint and, on request, by full content.
pub mod grouping;
pub mod walk;
pub mod stages;
pub mod options;
