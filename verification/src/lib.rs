//! A content-addressed object store in the on-disk format of the `git`
//! version control tool: byte-exact serialization of blob, tree and commit
//! objects, content-addressed naming by a 160-bit digest, lookup by full or
//! partial identifier, and construction of tree objects in canonical order.
//!
//! The store itself is pure computation over bytes; reading and writing the
//! repository directory is left to the caller, who stores each object's
//! compressed bytes at the path its identifier names.
pub mod bytesx;
pub mod commit;
pub mod errors;
pub mod ext;
pub mod hexnum;
pub mod ids;
pub mod laws;
pub mod object;
pub mod strbytes;
pub mod tree;

pub use commit::CommitInfo;
pub use errors::GitError;
pub use ids::get_object_path;
pub use ids::resolve_among;
pub use ids::valid_partial_sha1_name;
pub use object::ObjectManipulator;
pub use object::ObjectWriter;
pub use object::WrittenObject;
pub use tree::sort_entries;
pub use tree::TreeEntry;
