//! The errors of a conversion.

use vstd::prelude::*;
use crate::flat::{FlattenError, FlattenErrorView};

verus! {

/// Why a conversion failed.
#[derive(Clone, Debug, PartialEq, Eq)]
pub enum Error {
    /// Two different keys, of one object or of two, look the same once the
    /// separators chosen by the user are put back.
    FlattenedKeysCollision,
    /// An object could not be flattened.
    Flattening(FlattenError),
}

/// The mathematical value of an [`Error`].
pub enum ErrorView {
    FlattenedKeysCollision,
    Flattening(FlattenErrorView),
}

impl View for Error {
    type V = ErrorView;

    open spec fn view(&self) -> ErrorView {
        match self {
            Error::FlattenedKeysCollision => ErrorView::FlattenedKeysCollision,
            Error::Flattening(e) => ErrorView::Flattening(e@),
        }
    }
}

} // verus!
