//! Binary updates between two snapshots of an asset tree.
//!
//! A client that holds version A of a large directory of assets is brought
//! to version B by a package that holds only what separates the two:
//!
//! * [`hash`] builds the manifest of a snapshot, the hash of each file
//!   under its normalized path, and compares two manifests into a change
//!   set of added, changed and removed paths ([`differ`] says what a change
//!   set is, [`map_struct`] holds the records, [`paths`] the normal form);
//! * [`diff_files`] turns a change set and the two snapshots into a
//!   package: a literal record for each added file, and for each changed
//!   file a delta by raw subtraction ([`dds_differ`]) where both contents
//!   are textures of one layout, by the generic strategy ([`generic`])
//!   everywhere else;
//! * [`codec`] writes a package to bytes and reads it back, in the layout
//!   that [`wire`] defines;
//! * [`patch_files`] applies a package to a snapshot ([`tree`]) and reports
//!   the files that failed ([`errors`]).
//!
//! [`laws`] proves that these stages fit together: the package built from
//! two snapshots, applied to the old one, gives the new one.
//!
//! Nothing here touches the file system. Hashing, matching, patching and
//! compression are left to the crates `crypto_hash`, `hex`, `bidiff`,
//! `bsdiff` and `flate2`; what is taken on trust of each stands at the
//! function that calls it.

pub mod bytes;
pub mod codec;
pub mod dds_differ;
pub mod diff_files;
pub mod differ;
pub mod errors;
pub mod generic;
pub mod hash;
pub mod laws;
pub mod map_struct;
pub mod package;
pub mod patch_files;
pub mod paths;
pub mod tree;
pub mod wire;
