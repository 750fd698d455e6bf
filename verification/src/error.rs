//! Why a run can stop.

use crate::paths::PathParts;
use vstd::prelude::*;

verus! {

/// The reasons a run stops before the pages are assembled.
#[derive(Debug)]
pub enum Error {
    /// The source does not exist (its absolute path).
    SourceMissing(PathParts),
    /// The source is neither a `.zip` archive nor a folder.
    UnsupportedSource,
    /// The output name, trimmed, is empty, holds a path separator or is more
    /// than one path component, or the output would be the source or a
    /// folder above it. That last check reads the paths lexically (`.`
    /// dropped, `..` resolved in the text, symbolic links not followed).
    InvalidOutputName,
    /// The cover is not a file (its absolute path).
    CoverMissing(PathParts),
    /// The cover is not an image in a supported format.
    UnsupportedCover,
    /// No `.zip` archive of a chapter was found.
    NoChapters,
    /// The chapters hold no image in a supported format.
    NoImages,
    /// The source archive could not be opened.
    Archive { path: PathParts, message: String },
    /// A file-system operation failed.
    Io(String),
    /// The run was cancelled.
    Cancelled,
}

pub enum ErrorView {
    SourceMissing(Seq<Seq<char>>),
    UnsupportedSource,
    InvalidOutputName,
    CoverMissing(Seq<Seq<char>>),
    UnsupportedCover,
    NoChapters,
    NoImages,
    Archive { path: Seq<Seq<char>>, message: Seq<char> },
    Io(Seq<char>),
    Cancelled,
}

impl View for Error {
    type V = ErrorView;

    open spec fn view(&self) -> ErrorView {
        match self {
            Error::SourceMissing(p) => ErrorView::SourceMissing(p@),
            Error::UnsupportedSource => ErrorView::UnsupportedSource,
            Error::InvalidOutputName => ErrorView::InvalidOutputName,
            Error::CoverMissing(p) => ErrorView::CoverMissing(p@),
            Error::UnsupportedCover => ErrorView::UnsupportedCover,
            Error::NoChapters => ErrorView::NoChapters,
            Error::NoImages => ErrorView::NoImages,
            Error::Archive { path, message } => ErrorView::Archive {
                path: path@,
                message: message@,
            },
            Error::Io(m) => ErrorView::Io(m@),
            Error::Cancelled => ErrorView::Cancelled,
        }
    }
}

} // verus!
