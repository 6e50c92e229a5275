//! The failures that assembly reports.

use vstd::prelude::*;
use crate::token::Label;
use crate::token::LabelView;
use crate::token::Site;
use crate::token::label_views;

verus! {

/// Why assembly failed.
#[derive(Debug, Clone, PartialEq, Eq)]
pub enum Error {
    /// A token that cannot stand where it stands.
    UnexpectedToken { site: Site },
    /// The tokens end where more are wanted; `site` is the group that ends,
    /// and there is none where the whole description does.
    UnexpectedEnd { site: Option<Site> },
    /// A hex or binary literal whose digits do not fill whole bytes, or that
    /// holds a character that is no digit of its base.
    MalformedDigitLiteral { site: Site },
    /// An integer literal without a type suffix that is neither hex nor binary.
    MissingSuffix { site: Site },
    /// A suffix that names no integer type.
    InvalidSuffix { site: Site },
    /// Decimal digits that are empty or hold a character that is no digit.
    InvalidDigits,
    /// A value that does not fit the width and signedness asked for.
    OutOfRange,
    /// A second definition of a label; `original` is where it was first defined.
    DuplicateLabel { label: String, site: Site, original: Site },
    /// A deferred write that asks for a label that was never defined.
    UndefinedLabel { label: String, site: Site },
    /// Every label that was used and never defined, each with the site of its
    /// first use, in increasing order of the names.
    UndefinedLabels { uses: Vec<Label> },
    /// A call whose name is none of the offset queries.
    UnknownCall { site: Site },
    /// A directive whose name is not known.
    UnknownDirective { site: Site },
    /// A mode change that names no mode.
    UnknownMode { site: Site },
    /// A byte-order mode other than `le`, `be` and `ne`.
    InvalidEndianMode { site: Site },
    /// An alignment that is no power of two.
    InvalidAlignment { site: Site },
    /// A repeat count with a suffix, or that is no number a `usize` holds.
    InvalidRepeatCount { site: Site },
}

/// The mathematical form of an [`Error`].
pub enum ErrorView {
    UnexpectedToken { site: Site },
    UnexpectedEnd { site: Option<Site> },
    MalformedDigitLiteral { site: Site },
    MissingSuffix { site: Site },
    InvalidSuffix { site: Site },
    InvalidDigits,
    OutOfRange,
    DuplicateLabel { label: Seq<char>, site: Site, original: Site },
    UndefinedLabel { label: Seq<char>, site: Site },
    UndefinedLabels { uses: Seq<LabelView> },
    UnknownCall { site: Site },
    UnknownDirective { site: Site },
    UnknownMode { site: Site },
    InvalidEndianMode { site: Site },
    InvalidAlignment { site: Site },
    InvalidRepeatCount { site: Site },
}

impl View for Error {
    type V = ErrorView;

    open spec fn view(&self) -> ErrorView {
        match *self {
            Error::UnexpectedToken { site } => ErrorView::UnexpectedToken { site },
            Error::UnexpectedEnd { site } => ErrorView::UnexpectedEnd { site },
            Error::MalformedDigitLiteral { site } => ErrorView::MalformedDigitLiteral { site },
            Error::MissingSuffix { site } => ErrorView::MissingSuffix { site },
            Error::InvalidSuffix { site } => ErrorView::InvalidSuffix { site },
            Error::InvalidDigits => ErrorView::InvalidDigits,
            Error::OutOfRange => ErrorView::OutOfRange,
            Error::DuplicateLabel { label, site, original } => ErrorView::DuplicateLabel {
                label: label@,
                site,
                original,
            },
            Error::UndefinedLabel { label, site } => ErrorView::UndefinedLabel { label: label@, site },
            Error::UndefinedLabels { uses } => ErrorView::UndefinedLabels { uses: label_views(uses@) },
            Error::UnknownCall { site } => ErrorView::UnknownCall { site },
            Error::UnknownDirective { site } => ErrorView::UnknownDirective { site },
            Error::UnknownMode { site } => ErrorView::UnknownMode { site },
            Error::InvalidEndianMode { site } => ErrorView::InvalidEndianMode { site },
            Error::InvalidAlignment { site } => ErrorView::InvalidAlignment { site },
            Error::InvalidRepeatCount { site } => ErrorView::InvalidRepeatCount { site },
        }
    }
}

} // verus!
