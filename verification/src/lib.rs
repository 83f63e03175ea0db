//! Duplicate-file detection core: content digests, digest-keyed grouping with
//! canonical ordering, and deterministic report rendering.
//!
//! The pipeline is: enumerate files (done by the caller, which owns all I/O),
//! hash each file's bytes through [`digest::ContentHasher`], fold the
//! successfully hashed files into a [`table::DigestTable`], and render the
//! groups of two or more identical files with [`render::render_report`].

pub mod bytes;
pub mod digest;
pub mod render;
pub mod table;
