//! Recovery of an embedded resource bundle (name table, directory tree and
//! data blobs) from the raw bytes of a compiled executable.
//!
//! The bundle's regions are found from structural evidence alone: name tables
//! by a scan for UTF-16 text with matching hashes ([`name`]), trees by
//! validating candidate offsets against a name table ([`tree`]), and the blob
//! region by the chain of record sizes ([`tree::find_blob_offsets`]) or by the
//! instructions that load its address ([`blob`]). [`extract`] turns a tree
//! into the directories and files to write.
pub mod blob;
pub mod bytes;
pub mod executable;
pub mod extract;
pub mod hash;
pub mod inflate;
pub mod locate;
pub mod name;
pub mod ranges;
pub mod text;
pub mod tree;
