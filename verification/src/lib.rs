//! Font subsetting for EPUB archives.
//!
//! An EPUB package is a zip archive of XHTML content documents and embedded
//! font resources.  This library discovers which characters the book's text
//! actually uses, maps them to glyph identifiers through each font's
//! character-to-glyph table, produces reduced fonts that keep only the
//! required glyphs, and rebuilds the archive with the reduced fonts in place
//! while copying every other entry byte for byte.  A sibling entry point
//! counts the text characters of an archive.
//!
//! Binary font parsing, glyph subsetting, markup text extraction and the zip
//! container format are outside capabilities; they stand behind narrow
//! trusted boundaries and everything around them is verified.
use vstd::prelude::*;

pub mod archive;
pub mod chars;
pub mod glyphs;
pub mod input;
pub mod laws;
pub mod names;
pub mod pipeline;
pub mod strutil;

verus! {

/// The failures the pipeline can surface.  Per-archive failures are isolated:
/// one archive's error never aborts the processing of sibling archives.
#[derive(Clone, Copy, Debug, PartialEq, Eq, Structural)]
pub enum EpubError {
    /// The bytes are not a valid zip container.
    InvalidArchive,
    /// An archive entry could not be read back.
    EntryUnreadable,
    /// Two archive entries decode to one name, so a rewrite could mis-copy.
    DuplicateEntryName,
    /// A content document's bytes are not valid UTF-8.
    TextNotUtf8,
    /// A font has no readable character-to-glyph table.
    CmapMissing,
    /// A font's character-to-glyph table could not be queried.
    GlyphLookup,
    /// The subsetting capability rejected the font or the glyph list.
    SubsetFailed,
    /// The archive has no marker entry to write first.
    MarkerMissing,
    /// The rebuilt archive could not be finalized.
    WriteFailed,
}

} // verus!
