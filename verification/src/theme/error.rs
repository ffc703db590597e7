//! What can go wrong when the index document of a theme is loaded.
use vstd::prelude::*;
use ini::ParseError;

verus! {

/// Why a theme has no usable index document.
#[derive(Debug)]
pub enum ThemeError {
    /// The theme directory of the given path holds no `index.theme`.
    ThemeIndexNotFound(String),
    /// Reading from the file system failed, with the given message.
    IoError(String),
    /// The index document exists but does not parse.
    IniError(ParseError),
}

} // verus!
