use vstd::prelude::*;

verus! {

/// Every way the front end can fail. All of them are fatal to the link.
#[derive(Clone, Copy, Debug, PartialEq, Eq, Structural)]
pub enum LinkError {
    /// Fewer bytes remain at the cursor than the record needs.
    ShortRead,
    /// No library directory holds the requested archive.
    ArchiveNotFound,
    /// The first eight bytes are not the archive signature.
    BadArchiveSignature,
    /// A member header or payload runs past the end of the archive, or a
    /// decimal header field is not a number that fits a machine word.
    TruncatedArchive,
    /// A long-name member comes before any string-table member.
    MissingStringTable,
    /// A header, section or symbol record runs past the end of the object.
    TruncatedObject,
    /// The identification bytes are not those of ELF64, little-endian.
    UnsupportedElf,
    /// A section-header index names a section that the object does not have.
    BadSectionIndex,
    /// The symbol table announces more local symbols than it holds records.
    BadSymbolEncoding,
    /// No object is alive when liveness marking starts.
    EmptyRootSet,
    /// The command line names the same input twice.
    DuplicateCommandLine,
}

} // verus!
