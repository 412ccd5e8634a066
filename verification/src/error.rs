//! The error taxonomy shared by packing and unpacking.

use vstd::prelude::*;

verus! {

/// Which source the failing text came from. The caller that did the reading
/// turns this into a path when reporting.
#[derive(Clone, Copy, Debug, PartialEq, Eq, Structural)]
pub enum PlistFile {
    Standalone,
    FontInfo,
    Order,
    UiState,
    Glyph,
}

/// Everything that can make a conversion fail, apart from I/O, which the
/// caller doing the reading and writing reports itself.
#[derive(Debug)]
pub enum Error {
    /// The text does not match the grammar. The position is diagnostic.
    Syntax { file: PlistFile, pos: usize },
    /// The `glyphs` entry is not an array.
    NonArrayGlyphs,
    /// A glyph element is not a dictionary.
    NonDictGlyph,
    /// A `glyphname` entry holds a non-string value.
    NonStringGlyphName,
    /// A glyph dictionary has no `glyphname` entry.
    MissingGlyphName,
    /// An order entry is not a string.
    NonStringOrderEntry,
    /// The order list names a glyph that storage does not provide.
    MissingGlyph { name: Vec<u8> },
}

/// Mathematical model of an `Error`; the syntax position is dropped, since
/// the contracts pin only that and where parsing failed.
pub enum ErrorM {
    Syntax { file: PlistFile },
    NonArrayGlyphs,
    NonDictGlyph,
    NonStringGlyphName,
    MissingGlyphName,
    NonStringOrderEntry,
    MissingGlyph { name: Seq<u8> },
}

impl Error {
    pub open spec fn model(&self) -> ErrorM {
        match self {
            Error::Syntax { file, pos: _ } => ErrorM::Syntax { file: *file },
            Error::NonArrayGlyphs => ErrorM::NonArrayGlyphs,
            Error::NonDictGlyph => ErrorM::NonDictGlyph,
            Error::NonStringGlyphName => ErrorM::NonStringGlyphName,
            Error::MissingGlyphName => ErrorM::MissingGlyphName,
            Error::NonStringOrderEntry => ErrorM::NonStringOrderEntry,
            Error::MissingGlyph { name } => ErrorM::MissingGlyph { name: name@ },
        }
    }
}

} // verus!
