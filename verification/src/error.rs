//! The error kinds shared by every component of the reader.

use vstd::prelude::*;

verus! {

/// What the reader was looking for when it gave up.
#[derive(Clone, Copy, Debug, PartialEq, Eq, Structural)]
pub enum Expected {
    /// A COS object: array, reference, string, name, number, boolean or dictionary.
    Object,
    /// The end of the input, after one complete object or table.
    EndOfInput,
    /// A cross-reference section, from its `xref` line to its `trailer` line.
    XRefSection,
    /// An integer literal that fits the machine integer it is read into.
    Integer,
    /// A token made of valid UTF-8.
    Utf8Text,
    /// Nesting no deeper than the reader's ceiling.
    ShallowerNesting,
    /// As many entries as the subsection header declares.
    DeclaredEntryCount,
    /// A line holding exactly `startxref`, with the line after it.
    StartXRefMarker,
    /// A line holding exactly `trailer`.
    TrailerMarker,
    /// One of the words `stream`, `endstream`, `endobj`.
    ObjectSentinel,
    /// The bytes of a stream, up to its declared length or its `endstream`.
    StreamPayload,
    /// Bytes at the offset that the cross-reference entry names.
    BytesAtOffset,
    /// Data that the DEFLATE decoder accepts.
    DeflateData,
}

/// A failure of the reader.  Every variant carries the byte offset at which
/// the failure was noticed and what was expected there.
#[derive(Clone, Copy, Debug, PartialEq, Eq, Structural)]
pub enum PdfError {
    /// No production of the grammar matches at `position`.
    Grammar { position: usize, expected: Expected },
    /// The text matched the grammar, but does not denote a value.
    Parse { position: usize, expected: Expected },
    /// The bytes end before an expected marker, or the offset lies outside them.
    Io { position: usize, expected: Expected },
    /// A marker that the reader relies on is missing from the scanned window.
    FormatAssumption { position: usize, expected: Expected },
    /// The stream declares a filter, and decoding it failed.
    Decompress { position: usize, expected: Expected },
}

impl Expected {
    /// The expectation in words.
    pub open spec fn words(&self) -> Seq<char> {
        match *self {
            Expected::Object => "a COS object"@,
            Expected::EndOfInput => "end of input"@,
            Expected::XRefSection => "a cross-reference section"@,
            Expected::Integer => "an integer within range"@,
            Expected::Utf8Text => "a token of valid UTF-8"@,
            Expected::ShallowerNesting => "shallower nesting"@,
            Expected::DeclaredEntryCount => "the declared number of entries"@,
            Expected::StartXRefMarker => "a startxref line followed by an offset"@,
            Expected::TrailerMarker => "a trailer line"@,
            Expected::ObjectSentinel => "stream, endstream or endobj"@,
            Expected::StreamPayload => "the stream payload"@,
            Expected::BytesAtOffset => "bytes at the given offset"@,
            Expected::DeflateData => "valid DEFLATE data"@,
        }
    }

    /// The expectation in words, for diagnosis.
    pub fn describe(&self) -> (text: String)
        ensures
            text@ == self.words(),
    {
        let s: &str = match self {
            Expected::Object => "a COS object",
            Expected::EndOfInput => "end of input",
            Expected::XRefSection => "a cross-reference section",
            Expected::Integer => "an integer within range",
            Expected::Utf8Text => "a token of valid UTF-8",
            Expected::ShallowerNesting => "shallower nesting",
            Expected::DeclaredEntryCount => "the declared number of entries",
            Expected::StartXRefMarker => "a startxref line followed by an offset",
            Expected::TrailerMarker => "a trailer line",
            Expected::ObjectSentinel => "stream, endstream or endobj",
            Expected::StreamPayload => "the stream payload",
            Expected::BytesAtOffset => "bytes at the given offset",
            Expected::DeflateData => "valid DEFLATE data",
        };
        s.to_owned()
    }
}

impl PdfError {
    /// The byte offset that the error carries.
    pub open spec fn spec_position(&self) -> usize {
        match *self {
            PdfError::Grammar { position, .. } => position,
            PdfError::Parse { position, .. } => position,
            PdfError::Io { position, .. } => position,
            PdfError::FormatAssumption { position, .. } => position,
            PdfError::Decompress { position, .. } => position,
        }
    }

    /// What the error says was expected.
    pub open spec fn spec_expected(&self) -> Expected {
        match *self {
            PdfError::Grammar { expected, .. } => expected,
            PdfError::Parse { expected, .. } => expected,
            PdfError::Io { expected, .. } => expected,
            PdfError::FormatAssumption { expected, .. } => expected,
            PdfError::Decompress { expected, .. } => expected,
        }
    }

    /// The byte offset at which the failure was noticed.
    #[verifier::when_used_as_spec(spec_position)]
    pub fn position(&self) -> (p: usize)
        ensures
            p == self.spec_position(),
    {
        match *self {
            PdfError::Grammar { position, .. } => position,
            PdfError::Parse { position, .. } => position,
            PdfError::Io { position, .. } => position,
            PdfError::FormatAssumption { position, .. } => position,
            PdfError::Decompress { position, .. } => position,
        }
    }

    /// What was expected at that offset.
    #[verifier::when_used_as_spec(spec_expected)]
    pub fn expected(&self) -> (e: Expected)
        ensures
            e == self.spec_expected(),
    {
        match *self {
            PdfError::Grammar { expected, .. } => expected,
            PdfError::Parse { expected, .. } => expected,
            PdfError::Io { expected, .. } => expected,
            PdfError::FormatAssumption { expected, .. } => expected,
            PdfError::Decompress { expected, .. } => expected,
        }
    }

    /// Moves the error's offset by `base`, for text that was cut out of a
    /// larger buffer at that offset.  The offset saturates.
    pub fn shifted(&self, base: usize) -> (e: PdfError)
        ensures
            e == self.spec_shifted(base),
    {
        let p: usize = self.position().saturating_add(base);
        match *self {
            PdfError::Grammar { expected, .. } => PdfError::Grammar { position: p, expected },
            PdfError::Parse { expected, .. } => PdfError::Parse { position: p, expected },
            PdfError::Io { expected, .. } => PdfError::Io { position: p, expected },
            PdfError::FormatAssumption { expected, .. } => PdfError::FormatAssumption {
                position: p,
                expected,
            },
            PdfError::Decompress { expected, .. } => PdfError::Decompress { position: p, expected },
        }
    }

    /// The error with its offset moved by `base`, saturating.
    pub open spec fn spec_shifted(&self, base: usize) -> PdfError {
        let p: usize = if self.spec_position() + base > usize::MAX {
            usize::MAX
        } else {
            (self.spec_position() + base) as usize
        };
        match *self {
            PdfError::Grammar { expected, .. } => PdfError::Grammar { position: p, expected },
            PdfError::Parse { expected, .. } => PdfError::Parse { position: p, expected },
            PdfError::Io { expected, .. } => PdfError::Io { position: p, expected },
            PdfError::FormatAssumption { expected, .. } => PdfError::FormatAssumption {
                position: p,
                expected,
            },
            PdfError::Decompress { expected, .. } => PdfError::Decompress { position: p, expected },
        }
    }
}

} // verus!
