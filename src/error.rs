//! What can go wrong while resolving modules or composing the output.
use vstd::prelude::*;

verus! {

/// A fatal problem with the configuration or the inputs; the render stops.
#[derive(Debug, Clone, PartialEq, Eq)]
pub enum FetchError {
    /// A module definition names a type that does not exist (holds the type).
    UnknownModuleType(String),
    /// A `separator` module without `separator_char` (holds the module's name).
    MissingSeparatorChar(String),
    /// A `custom` module with neither `format` nor `execute` (holds the module's name).
    MissingFormatOrExecute(String),
    /// The command of a `custom` module could not be run (holds the command line).
    CommandFailed(String),
    /// A `{` in a format string not followed by a digit (holds the fragment).
    BadPlaceholder(String),
    /// A placeholder whose index the module does not produce (holds the fragment).
    PlaceholderOutOfRange(String),
    /// The art holds no non-empty line.
    EmptyArt,
    /// No module is defined at all.
    NoModules,
    /// The display order names a module that is not defined (holds the name).
    UndefinedModule(String),
}

/// The mathematical content of a [`FetchError`].
pub enum Fault {
    UnknownModuleType(Seq<char>),
    MissingSeparatorChar(Seq<char>),
    MissingFormatOrExecute(Seq<char>),
    CommandFailed(Seq<char>),
    BadPlaceholder(Seq<char>),
    PlaceholderOutOfRange(Seq<char>),
    EmptyArt,
    NoModules,
    UndefinedModule(Seq<char>),
}

impl View for FetchError {
    type V = Fault;

    open spec fn view(&self) -> Fault {
        match self {
            FetchError::UnknownModuleType(s) => Fault::UnknownModuleType(s@),
            FetchError::MissingSeparatorChar(s) => Fault::MissingSeparatorChar(s@),
            FetchError::MissingFormatOrExecute(s) => Fault::MissingFormatOrExecute(s@),
            FetchError::CommandFailed(s) => Fault::CommandFailed(s@),
            FetchError::BadPlaceholder(s) => Fault::BadPlaceholder(s@),
            FetchError::PlaceholderOutOfRange(s) => Fault::PlaceholderOutOfRange(s@),
            FetchError::EmptyArt => Fault::EmptyArt,
            FetchError::NoModules => Fault::NoModules,
            FetchError::UndefinedModule(s) => Fault::UndefinedModule(s@),
        }
    }
}

/// A string result seen through the views of its two sides.
pub open spec fn text_result(r: Result<String, FetchError>) -> Result<Seq<char>, Fault> {
    match r {
        Ok(s) => Ok(s@),
        Err(e) => Err(e@),
    }
}

} // verus!
