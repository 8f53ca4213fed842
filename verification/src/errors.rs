//! What can go wrong, and which failures fail a whole run.

use vstd::prelude::*;

verus! {

/// A failure of one file or of a whole input.
///
/// `IoError` and `BaseMismatch` concern the one file they name: the batch
/// they occur in goes on with its other files. The other variants say that
/// an input cannot be trusted as a whole.
#[derive(Debug, Clone, PartialEq, Eq)]
pub enum PatchError {
    /// The file at this path could not be had; the second field says why.
    IoError(String, String),
    /// A manifest lists a path twice, or holds a path that is not in
    /// normal form.
    CorruptManifest,
    /// A package does not follow the wire layout.
    CorruptPackage,
    /// A package entry carries a strategy tag that is not known.
    UnsupportedStrategy,
    /// A package was written in a format version that is not known.
    UnsupportedFormatVersion,
    /// The file at this path is not the one that the delta was made from.
    BaseMismatch(String),
}

/// Mathematical value of a [`PatchError`].
pub ghost enum ErrorView {
    IoError(Seq<char>, Seq<char>),
    CorruptManifest,
    CorruptPackage,
    UnsupportedStrategy,
    UnsupportedFormatVersion,
    BaseMismatch(Seq<char>),
}

impl View for PatchError {
    type V = ErrorView;

    open spec fn view(&self) -> ErrorView {
        match self {
            PatchError::IoError(path, cause) => ErrorView::IoError(path@, cause@),
            PatchError::CorruptManifest => ErrorView::CorruptManifest,
            PatchError::CorruptPackage => ErrorView::CorruptPackage,
            PatchError::UnsupportedStrategy => ErrorView::UnsupportedStrategy,
            PatchError::UnsupportedFormatVersion => ErrorView::UnsupportedFormatVersion,
            PatchError::BaseMismatch(path) => ErrorView::BaseMismatch(path@),
        }
    }
}

/// The cause reported for a path that a snapshot does not hold.
pub open spec fn cause_missing() -> Seq<char> {
    "missing file"@
}

/// The cause reported for a walked entry that is no regular file.
pub open spec fn cause_not_regular() -> Seq<char> {
    "not a regular file"@
}

/// The cause reported for a regular file whose content could not be read.
pub open spec fn cause_unreadable() -> Seq<char> {
    "unreadable file"@
}

/// The cause reported for a file whose normalized path was met before.
pub open spec fn cause_duplicate() -> Seq<char> {
    "duplicate path"@
}

/// The errors of `report`, each taken by its view, in order.
pub open spec fn report_view(report: Seq<PatchError>) -> Seq<ErrorView> {
    Seq::new(report.len(), |i: int| report[i]@)
}

impl ErrorView {
    /// A skipped file: reported as a warning, never failing the run.
    pub open spec fn is_soft(self) -> bool {
        self is IoError
    }
}

/// Some error of the report is more than a skipped file.
pub open spec fn fails_run(report: Seq<ErrorView>) -> bool {
    exists|i: int| 0 <= i < report.len() && !(#[trigger] report[i]).is_soft()
}

impl PatchError {
    /// Whether this error is a skipped file, which is reported as a warning
    /// and does not fail the run it occurred in.
    pub fn is_soft(&self) -> (soft: bool)
        ensures
            soft == self@.is_soft(),
    {
        match self {
            PatchError::IoError(_, _) => true,
            _ => false,
        }
    }
}

/// Decides the status of a finished run from its report: the run has failed
/// when the report holds a structural error or a base mismatch, and has
/// succeeded when it holds nothing but skipped files.
pub fn run_failed(report: &Vec<PatchError>) -> (failed: bool)
    ensures
        failed == fails_run(report_view(report@)),
{
    let mut i: usize = 0;
    while i < report.len()
        invariant
            i <= report.len(),
            forall|k: int| 0 <= k < i ==> (#[trigger] report_view(report@)[k]).is_soft(),
        decreases report.len() - i,
    {
        if !report[i].is_soft() {
            assert(!report_view(report@)[i as int].is_soft());
            return true;
        }
        i += 1;
    }
    false
}

} // verus!
