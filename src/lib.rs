//! Synchronisation engine for an encrypted password database that is shared
//! through a remote room.
//!
//! - `fields`, `codec`, `crypto`: the encrypted container and its framed fields.
//! - `stream`: fields grouped into a header and records.
//! - `base`, `diff`: fingerprints of snapshots, changesets between them, and
//!   their application; `roundtrip` proves that a computed changeset rebuilds
//!   the newer snapshot.
//! - `db`: the remote base, the local changesets layered on it, and rewrites.
//! - `work`, `sync`: the single-writer work loop and producers' barriers.
//! - `lockfile`, `credentials`: the editor's lock file and the credential
//!   companion's request parsing and lookup.
//! - `timestamp`, `bytes`: server timestamps, progress markers, byte helpers.

pub mod base;
pub mod bytes;
pub mod codec;
pub mod credentials;
pub mod crypto;
pub mod db;
pub mod diff;
pub mod fields;
pub mod lockfile;
pub mod roundtrip;
pub mod stream;
pub mod sync;
pub mod timestamp;
pub mod work;
