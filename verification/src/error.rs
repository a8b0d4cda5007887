//! The errors of the library.

use crate::explode::DclError;
use std::path::PathBuf;
use vstd::prelude::*;

verus! {

/// Paths of the file system, carried through unread.
#[verifier::external_type_specification]
#[verifier::external_body]
pub struct ExPathBuf(PathBuf);

/// Why an archive, a name or a volume set was refused.
#[derive(Debug)]
pub enum Error {
    /// An encoding option names no supported encoding.
    UnsupportedEncoding(String),
    /// A UTF-8 file name is not well-formed.
    InvalidUtf8Filename,
    /// A file name holds a byte that its code page leaves undefined.
    UndefinedFilenameByte,
    /// A path could escape the output directory or name a device; the path
    /// with `/` for `\`.
    UnsafePath(String),
    /// A volume ended inside its header or catalog.
    Truncated,
    /// The archive signature is missing at offset zero.
    NotAnArchive,
    /// The directory table offset lies outside the volume.
    InvalidDirectoryTableOffset,
    /// A catalog record is shorter than its own header.
    RecordShorterThanHeader,
    /// A directory record's name length or terminator is wrong.
    InvalidDirectoryName,
    /// A file record names a directory that does not exist.
    InvalidDirectoryIndex,
    /// The files of a directory do not match its declared count.
    DirectoryCountMismatch,
    /// A file record's name length is wrong.
    InvalidFileNameLength,
    /// A file name holds a directory separator.
    FileNameHasSeparator,
    /// Two files have the same path, case ignored.
    DuplicatePath(String),
    /// Bytes follow the catalog.
    TrailingCatalogData,
    /// The archive size in the header disagrees with the catalog.
    ArchiveSizeMismatch,
    /// A file path is also a directory, or the parent of another path.
    PathConflict,
    /// No volume was given.
    EmptyVolumeMap,
    /// The first volume's header says it continues another volume.
    ContinuationVolume,
    /// The volume with this number belongs to another archive or has the
    /// wrong volume count.
    ForeignVolume(usize),
    /// The volume with this number carries no data.
    EmptyDataArea(usize),
    /// The volumes' data does not add up to the compressed sizes.
    PayloadSizeMismatch,
    /// An entry starts outside the data of the volumes.
    OffsetOutsideVolumes,
    /// An entry's compressed bytes run past the last volume.
    BeyondFinalVolume,
    /// An entry's compressed stream is damaged.
    Dcl(DclError),
    /// Compressed bytes follow the end marker of an entry's stream.
    TrailingBytes,
    /// The catalog of the volume at this path was refused.
    Catalog(PathBuf, Box<Error>),
    /// An explicit input names a later volume; the first must be given.
    NotFirstVolume,
    /// No first volume was found in this directory.
    NoFirstVolume(PathBuf),
    /// Several first volumes were found.
    MultipleFirstVolumes,
    /// A numeric extension is too large for a volume number.
    VolumeNumberTooLarge,
    /// The volume at this path is numbered 0.
    VolumeNumberZero(PathBuf),
    /// A numbered volume's file name has no valid base name.
    InvalidBasename,
    /// The volume at this path has one number in its file name (first)
    /// and another in its header (second).
    VolumeNumberMismatch(PathBuf, usize, u8),
    /// Two files claim this volume number of the named archive: the one
    /// found first, then the other.
    MultipleCandidates(usize, String, PathBuf, PathBuf),
    /// The header at this path declares several volumes, but its file name
    /// carries no volume number.
    MultipartWithoutNumber(PathBuf),
    /// The volume with this number of the named archive is missing.
    MissingVolume(usize, String),
    /// The named archive's header declares one volume count (first), and
    /// another was found (second).
    VolumeCountMismatch(String, u8, usize),
    /// An archive file name is not valid Unicode.
    InvalidArchiveFilename,
    /// No archive was found; whether only std* names were looked for.
    NoArchives(bool),
    /// The explicit archive's name does not start with std.
    NotStdArchive,
    /// The explicit input is not an archive.
    NotAnArchiveFile,
    /// An archive group name holds a path separator.
    GroupNameHasSeparator(String),
    /// Two archive groups have the same name, case ignored.
    AmbiguousGroupName(String),
    /// The input path does not exist.
    InputNotFound(PathBuf),
    /// Several entries of the directory (second) have the name (first),
    /// case ignored.
    AmbiguousName(String, PathBuf),
    /// Two output files have the same path, case ignored: the one planned
    /// first, then the other.
    ConflictingOutputPaths(PathBuf, PathBuf),
    /// An output file's path is also a directory that the output needs, or
    /// lies above one.
    FileDirectoryConflict(PathBuf),
    /// An output directory, or one on its way, is a symbolic link or not a
    /// directory.
    NotADirectory(PathBuf),
    /// An output path exists and may not be replaced.
    OutputExists(PathBuf),
    /// The file at this path starts with the signature but ends inside the
    /// header.
    IncompleteHeader(PathBuf),
}

/// A refusal as the specifications state it: an error without text, or
/// one that carries a path.
pub enum Refusal {
    Plain(Error),
    Unsafe(Seq<char>),
    Duplicate(Seq<char>),
    MultipleCandidates(usize, Seq<char>, PathBuf, PathBuf),
    MissingVolume(usize, Seq<char>),
    VolumeCountMismatch(Seq<char>, u8, usize),
    NameHasSeparator(Seq<char>),
    Ambiguous(Seq<char>),
}

/// Whether the error `e` is the refusal `r`.
pub open spec fn refuses(e: Error, r: Refusal) -> bool {
    match r {
        Refusal::Plain(x) => e == x,
        Refusal::Unsafe(p) => e matches Error::UnsafePath(s) && s@ == p,
        Refusal::Duplicate(p) => e matches Error::DuplicatePath(s) && s@ == p,
        Refusal::MultipleCandidates(n, name, a, b) => e matches Error::MultipleCandidates(
            n2,
            s,
            a2,
            b2,
        ) && n2 == n && s@ == name && a2 == a && b2 == b,
        Refusal::MissingVolume(n, name) => e matches Error::MissingVolume(n2, s) && n2 == n && s@
            == name,
        Refusal::VolumeCountMismatch(name, d, f) => e matches Error::VolumeCountMismatch(s, d2, f2)
            && s@ == name && d2 == d && f2 == f,
        Refusal::NameHasSeparator(name) => e matches Error::GroupNameHasSeparator(s) && s@ == name,
        Refusal::Ambiguous(name) => e matches Error::AmbiguousGroupName(s) && s@ == name,
    }
}

} // verus!
