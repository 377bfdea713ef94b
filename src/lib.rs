//! Read-only access to a block-segmented game asset archive: index records,
//! chained 520-byte data blocks, compressed entry payloads and the reference
//! tables that describe the archive's folders and files.
pub mod bytes;
pub mod compression;
pub mod filesystem;
pub mod reference_table;

pub use filesystem::{FileSystem, FsError, MainFile};
pub use reference_table::ReferenceTable;
