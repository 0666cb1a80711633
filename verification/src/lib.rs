//! An in-memory virtual filesystem: a snapshot of part of a host filesystem,
//! kept as a read-only mapping from virtual paths to files and directory markers.

pub mod error;
pub mod host;
pub mod laws;
pub mod node;
pub mod order;
pub mod path;
pub mod traverse;
pub mod vfs;

pub use error::{HostError, MapError, RelativePathError};
pub use host::{HostEntry, HostNode};
pub use node::FSNode;
pub use traverse::Event;
pub use vfs::VirtualFS;
