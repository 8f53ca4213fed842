//! The package: the deltas and the removals of one update.

use vstd::prelude::*;
use crate::map_struct::names_view;

verus! {

/// The format version that this library writes and reads.
pub const FORMAT_VERSION: u32 = 1;

/// How the payload of a delta record is turned into file content.
#[derive(Debug, Clone, Copy, PartialEq, Eq, Structural)]
pub enum Strategy {
    /// The payload is the content.
    Literal,
    /// The payload is the byte-wise difference of two textures of one
    /// layout; the header of the new texture is kept beside it.
    RawSubtract,
    /// The payload is a stream of segments that is replayed against the
    /// old content.
    GenericBinary,
}

/// The delta of one added or changed file.
///
/// `header` is empty unless the strategy is [`Strategy::RawSubtract`]. The
/// payload of a raw-subtraction or generic record starts with the SHA-256
/// digest of the old content that it was made from.
#[derive(Debug, Clone, PartialEq, Eq)]
pub struct DeltaRecord {
    pub relative_path: String,
    pub strategy: Strategy,
    pub payload: Vec<u8>,
    pub header: Vec<u8>,
}

/// Mathematical value of a [`DeltaRecord`].
pub ghost struct DeltaView {
    pub path: Seq<char>,
    pub strategy: Strategy,
    pub payload: Seq<u8>,
    pub header: Seq<u8>,
}

impl View for DeltaRecord {
    type V = DeltaView;

    open spec fn view(&self) -> DeltaView {
        DeltaView {
            path: self.relative_path@,
            strategy: self.strategy,
            payload: self.payload@,
            header: self.header@,
        }
    }
}

/// The records of `entries`, each taken by its view, in order.
pub open spec fn deltas_view(entries: Seq<DeltaRecord>) -> Seq<DeltaView> {
    Seq::new(entries.len(), |i: int| entries[i]@)
}

/// The paths of `entries`, in order.
pub open spec fn delta_paths(entries: Seq<DeltaView>) -> Seq<Seq<char>> {
    Seq::new(entries.len(), |i: int| entries[i].path)
}

/// One update: the deltas of the added and changed files, in order, and the
/// paths of the removed files.
#[derive(Debug, Clone, PartialEq, Eq)]
pub struct Package {
    pub format_version: u32,
    pub new_version: String,
    pub entries: Vec<DeltaRecord>,
    pub removed: Vec<String>,
}

/// Mathematical value of a [`Package`].
pub ghost struct PackageView {
    pub format_version: u32,
    pub new_version: Seq<char>,
    pub entries: Seq<DeltaView>,
    pub removed: Seq<Seq<char>>,
}

impl View for Package {
    type V = PackageView;

    open spec fn view(&self) -> PackageView {
        PackageView {
            format_version: self.format_version,
            new_version: self.new_version@,
            entries: deltas_view(self.entries@),
            removed: names_view(self.removed@),
        }
    }
}

} // verus!
