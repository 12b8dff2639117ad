//! Sealed, tamper-evident file storage for code that cannot trust the host
//! that keeps its bytes.
//!
//! A [`FileSession`] creates or opens one sealed file on a [`HostFs`] and
//! reads and writes its content through a cache of checked nodes. Every
//! byte that a read hands out was checked against a single root tag, and in
//! full mode the host never sees the content in the clear.
//!
//! The modules, from the leaves up:
//!
//! - [`mac`]: the keyed primitive under every tag, key and keystream block;
//! - [`cipher`]: derived keys, tags bound to a place in the tree, sealing;
//! - [`identity`]: the identity of the caller and the root secret of a file;
//! - [`path`]: the path validator;
//! - [`host`]: the untrusted host's files, as the store sees them;
//! - [`tree`]: the nodes of a sealed file and their layout on the host;
//! - [`model`]: what each operation makes of a session and of the host;
//! - [`sound`]: what every step of the model keeps true of the cache;
//! - [`cache`]: the node cache, proved to follow the model;
//! - [`session`]: the state machine behind one handle;
//! - [`honest`], [`tamper`], [`laws`]: what holds of every file: the round
//!   trip on a host that leaves the file alone, detection on one that does
//!   not, and the rules on paths, removal and flush order;
//! - [`scenarios`]: whole exchanges that a caller can run as a self-test.

pub mod cache;
pub mod cipher;
pub mod error;
pub mod honest;
pub mod host;
pub mod identity;
pub mod laws;
pub mod mac;
pub mod model;
pub mod path;
pub mod range;
pub mod scenarios;
pub mod session;
pub mod sound;
pub mod tamper;
pub mod tree;

pub use crate::cipher::ProtectionMode;
pub use crate::error::FsError;
pub use crate::host::HostFs;
pub use crate::identity::IdentityContext;
pub use crate::model::SessionState;
pub use crate::scenarios::{
    test_fs, test_fs_untrusted_fs_feature_enabled, test_sgxfs, test_sgxfs_integrity_only,
};
pub use crate::session::{remove, FileSession};
