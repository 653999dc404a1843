use vstd::prelude::*;

verus! {

/// The formats this library recognises.
#[derive(Debug, Clone, Copy, PartialEq, Eq, Structural)]
pub enum FileFormat {
    Jpeg,
    Png,
    Pdf,
    Docx,
    Xlsx,
    Pptx,
    Mp4,
    Webp,
    Mp3,
    Gif,
    Heic,
}

/// Errors reported by format detection and metadata removal.
#[derive(Debug)]
pub enum Error {
    FormatDetectionFailed,
    UnsupportedFormat,
    InvalidData(String),
}

/// The kind of an [`Error`], without its message.
#[derive(Debug, Clone, Copy, PartialEq, Eq, Structural)]
pub enum ErrorKind {
    FormatDetectionFailed,
    UnsupportedFormat,
    InvalidData,
}

impl Error {
    pub open spec fn kind(self) -> ErrorKind {
        match self {
            Error::FormatDetectionFailed => ErrorKind::FormatDetectionFailed,
            Error::UnsupportedFormat => ErrorKind::UnsupportedFormat,
            Error::InvalidData(_) => ErrorKind::InvalidData,
        }
    }
}

/// Which kinds of metadata a remover strips.
#[derive(Debug, Clone, Copy, PartialEq, Eq, Structural)]
pub struct RemovalOptions {
    pub exif: bool,
    pub xmp: bool,
    pub iptc: bool,
    pub icc_profile: bool,
    pub document_properties: bool,
    pub comments: bool,
    pub timestamps: bool,
}

impl Default for RemovalOptions {
    /// Everything is stripped except the ICC colour profile.
    fn default() -> (r: Self)
        ensures
            r == (RemovalOptions {
                exif: true,
                xmp: true,
                iptc: true,
                icc_profile: false,
                document_properties: true,
                comments: true,
                timestamps: true,
            }),
    {
        RemovalOptions {
            exif: true,
            xmp: true,
            iptc: true,
            icc_profile: false,
            document_properties: true,
            comments: true,
            timestamps: true,
        }
    }
}

/// The result of a byte-level transformation as a mathematical function:
/// a value, a reported error, or an input on which the computation
/// cannot complete (an arithmetic overflow, an out-of-range slice or a
/// walk that makes no progress).
pub enum Outcome<T> {
    Done(T),
    Fails,
    Traps,
}

/// A metadata remover for one file format.
pub trait MetadataRemover {
    /// The inputs on which `remove_metadata` runs to completion.
    spec fn accepts(&self, input: Seq<u8>, options: RemovalOptions) -> bool;

    /// The format this remover handles.
    fn format(&self) -> FileFormat;

    /// Strips metadata from `input`.
    fn remove_metadata(&self, input: &[u8], options: &RemovalOptions) -> Result<Vec<u8>, Error>
        requires
            self.accepts(input@, *options),
    ;
}

} // verus!
