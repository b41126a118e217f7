//! The bootstrap of a document: from the bytes at the end of the file to the
//! trailer dictionary and the cross-reference table.
//!
//! Only a window at the end of the file is scanned for the markers.  A line
//! that is exactly `trailer` opens the trailer, a line that is exactly
//! `startxref` closes it, and the line after that holds the byte offset of
//! the cross-reference section.

use vstd::prelude::*;
use vstd::slice::slice_subrange;
use crate::cos::{Cos, DictNode};
use crate::error::{Expected, PdfError};
use crate::lines::{end_of_line, line_is, line_stop};
use crate::number::{digits_value, is_unsigned_literal, parse_u64};
use crate::parser::{parse_object, parsed_object};
use crate::xref::{parse_xref, parsed_xref, XRefEntry, XRefTable};

verus! {

/// The length of the window that is scanned at the end of a file, and of the
/// window in which the dictionary of an object is looked for.
pub const CHUNK_SIZE: usize = 10240;

/// The bytes of the word `trailer`.
pub open spec fn word_trailer() -> Seq<u8> {
    seq![0x74u8, 0x72u8, 0x61u8, 0x69u8, 0x6cu8, 0x65u8, 0x72u8]
}

/// The bytes of the word `startxref`.
pub open spec fn word_startxref() -> Seq<u8> {
    seq![0x73u8, 0x74u8, 0x61u8, 0x72u8, 0x74u8, 0x78u8, 0x72u8, 0x65u8, 0x66u8]
}

/// What the scan of a window finds: the text between the markers, whether the
/// marker `trailer` was seen, and the line behind the marker `startxref`.
pub ghost struct TailScan {
    pub trailer: Seq<u8>,
    pub seen_trailer: bool,
    pub line_start: int,
    pub line_stop: int,
}

/// The scan of the lines from `start` on: `acc` is the text gathered so far,
/// and the flags say which markers were seen.  Before `startxref` was seen,
/// a line that is no marker is gathered if `trailer` was seen, and passed
/// over if not; behind `startxref`, the first line that is no marker is the
/// result.  `None` where the lines end before that line.
pub open spec fn tail_from(
    s: Seq<u8>,
    start: int,
    seen_trailer: bool,
    seen_startxref: bool,
    acc: Seq<u8>,
) -> Option<TailScan>
    decreases s.len() - start + 1,
{
    let stop = line_stop(s, start);
    if !(0 <= start <= stop <= s.len()) {
        None
    } else {
        let line = s.subrange(start, stop);
        let marker = line == word_trailer() || line == word_startxref();
        if !marker && seen_startxref {
            Some(TailScan { trailer: acc, seen_trailer, line_start: start, line_stop: stop })
        } else if stop >= s.len() {
            None
        } else if line == word_trailer() {
            tail_from(s, stop + 1, true, seen_startxref, acc)
        } else if line == word_startxref() {
            tail_from(s, stop + 1, seen_trailer, true, acc)
        } else if seen_trailer {
            tail_from(s, stop + 1, seen_trailer, seen_startxref, acc + line)
        } else {
            tail_from(s, stop + 1, seen_trailer, seen_startxref, acc)
        }
    }
}

/// What a window at the end of a file holds: the text of the trailer and the
/// offset of the cross-reference section.
pub open spec fn located_tail(s: Seq<u8>) -> Result<(Seq<u8>, u64), PdfError> {
    match tail_from(s, 0, false, false, seq![]) {
        None => Err(
            PdfError::FormatAssumption {
                position: s.len() as usize,
                expected: Expected::StartXRefMarker,
            },
        ),
        Some(scan) => {
            let line = s.subrange(scan.line_start, scan.line_stop);
            if !scan.seen_trailer {
                Err(PdfError::FormatAssumption { position: 0, expected: Expected::TrailerMarker })
            } else if is_unsigned_literal(line) && digits_value(line) <= u64::MAX {
                Ok((scan.trailer, digits_value(line) as u64))
            } else {
                Err(
                    PdfError::Parse {
                        position: scan.line_start as usize,
                        expected: Expected::Integer,
                    },
                )
            }
        },
    }
}

/// The end of the text of the line at `start`: its line feed, or the
/// carriage return before that line feed.
pub open spec fn text_line_end(s: Seq<u8>, start: int) -> int {
    let stop = line_stop(s, start);
    if start < stop < s.len() && s[stop - 1] == 0x0d {
        stop - 1
    } else {
        stop
    }
}

/// The lines from `start` up to the line `trailer`, each ended by one line
/// feed, behind the text `acc`.  `None` where the bytes end before that line.
pub open spec fn section_from(s: Seq<u8>, start: int, acc: Seq<u8>) -> Option<Seq<u8>>
    decreases s.len() - start,
{
    let stop = line_stop(s, start);
    if !(0 <= start < s.len() && start <= stop) {
        None
    } else {
        let line = s.subrange(start, text_line_end(s, start));
        if line == word_trailer() {
            Some(acc + line + seq![0x0au8])
        } else if stop >= s.len() {
            None
        } else {
            section_from(s, stop + 1, acc + line + seq![0x0au8])
        }
    }
}

/// The text of the cross-reference section that starts the bytes.
pub open spec fn section_text(s: Seq<u8>) -> Result<Seq<u8>, PdfError> {
    match section_from(s, 0, seq![]) {
        Some(text) => Ok(text),
        None => Err(PdfError::Io { position: s.len() as usize, expected: Expected::TrailerMarker }),
    }
}

/// What a window at the end of a file denotes: the trailer dictionary and the
/// offset of the cross-reference section.
pub open spec fn trailer_of(s: Seq<u8>) -> Result<(Cos, u64), PdfError> {
    match located_tail(s) {
        Err(error) => Err(error),
        Ok((text, offset)) => match parsed_object(text) {
            Err(error) => Err(error),
            Ok(Cos::Dict(m)) => Ok((Cos::Dict(m), offset)),
            Ok(_) => Err(PdfError::Parse { position: 0, expected: Expected::Object }),
        },
    }
}

/// The table that the bytes from the offset of a section on denote.
pub open spec fn xref_of(s: Seq<u8>) -> Result<Seq<XRefEntry>, PdfError> {
    match section_text(s) {
        Err(error) => Err(error),
        Ok(text) => parsed_xref(text),
    }
}

/// Where the window at the end of a file of `len` bytes starts.
pub open spec fn window_start(len: int) -> int {
    if len > CHUNK_SIZE {
        len - CHUNK_SIZE
    } else {
        0
    }
}

/// What a file denotes: its trailer dictionary and its cross-reference table.
pub open spec fn metadata_of(file: Seq<u8>) -> Result<(Cos, Seq<XRefEntry>), PdfError> {
    let base = window_start(file.len() as int);
    match trailer_of(file.subrange(base, file.len() as int)) {
        Err(error) => Err(error),
        Ok((trailer, offset)) => {
            if offset > file.len() {
                Err(
                    PdfError::Io {
                        position: file.len() as usize,
                        expected: Expected::BytesAtOffset,
                    },
                )
            } else {
                match xref_of(file.subrange(offset as int, file.len() as int)) {
                    Err(error) => Err(error),
                    Ok(entries) => Ok((trailer, entries)),
                }
            }
        },
    }
}

/// Where the window at the end of a file of `length` bytes starts.
pub fn window_offset(length: usize) -> (base: usize)
    ensures
        base == window_start(length as int),
{
    if length > CHUNK_SIZE {
        length - CHUNK_SIZE
    } else {
        0
    }
}

/// The text of the trailer and the offset of the cross-reference section.
#[derive(Debug)]
pub struct Tail {
    pub trailer: Vec<u8>,
    pub xref_offset: u64,
}

/// Appends the bytes of `input` from `start` to `stop`.
pub fn append_bytes(acc: &mut Vec<u8>, input: &[u8], start: usize, stop: usize)
    requires
        start <= stop <= input.len(),
    ensures
        final(acc)@ == old(acc)@ + input@.subrange(start as int, stop as int),
{
    let mut i: usize = start;
    assert(acc@ =~= old(acc)@ + input@.subrange(start as int, i as int));
    while i < stop
        invariant
            start <= i <= stop <= input.len(),
            acc@ == old(acc)@ + input@.subrange(start as int, i as int),
        decreases stop - i,
    {
        acc.push(input[i]);
        i += 1;
        assert(acc@ =~= old(acc)@ + input@.subrange(start as int, i as int));
    }
}

/// Scans a window at the end of a file for the trailer and the offset of the
/// cross-reference section.
pub fn scan_tail(buffer: &[u8]) -> (r: Result<Tail, PdfError>)
    ensures
        match located_tail(buffer@) {
            Ok((text, offset)) => r matches Ok(tail) && tail.trailer@ == text && tail.xref_offset
                == offset,
            Err(error) => r matches Err(e) && e == error,
        },
{
    let trailer_word: [u8; 7] = [0x74, 0x72, 0x61, 0x69, 0x6c, 0x65, 0x72];
    let startxref_word: [u8; 9] = [0x73, 0x74, 0x61, 0x72, 0x74, 0x78, 0x72, 0x65, 0x66];
    assert(trailer_word@ =~= word_trailer());
    assert(startxref_word@ =~= word_startxref());
    let mut seen_trailer = false;
    let mut seen_startxref = false;
    let mut acc: Vec<u8> = Vec::new();
    let mut start: usize = 0;
    loop
        invariant
            start <= buffer.len(),
            trailer_word@ == word_trailer(),
            startxref_word@ == word_startxref(),
            tail_from(buffer@, 0, false, false, seq![]) == tail_from(
                buffer@,
                start as int,
                seen_trailer,
                seen_startxref,
                acc@,
            ),
        decreases buffer.len() - start,
    {
        let stop = end_of_line(buffer, start);
        if line_is(buffer, start, stop, trailer_word.as_slice()) {
            seen_trailer = true;
        } else if line_is(buffer, start, stop, startxref_word.as_slice()) {
            seen_startxref = true;
        } else if seen_trailer && !seen_startxref {
            append_bytes(&mut acc, buffer, start, stop);
        } else if seen_startxref {
            if !seen_trailer {
                return Err(
                    PdfError::FormatAssumption { position: 0, expected: Expected::TrailerMarker },
                );
            }
            return match parse_u64(slice_subrange(buffer, start, stop)) {
                Some(offset) => Ok(Tail { trailer: acc, xref_offset: offset }),
                None => Err(PdfError::Parse { position: start, expected: Expected::Integer }),
            };
        }
        if stop >= buffer.len() {
            return Err(
                PdfError::FormatAssumption {
                    position: buffer.len(),
                    expected: Expected::StartXRefMarker,
                },
            );
        }
        start = stop + 1;
    }
}

/// Gathers the text of the cross-reference section that starts the bytes:
/// its lines up to the line `trailer`, each ended by one line feed.
pub fn xref_section(bytes: &[u8]) -> (r: Result<Vec<u8>, PdfError>)
    ensures
        match section_text(bytes@) {
            Ok(text) => r matches Ok(v) && v@ == text,
            Err(error) => r matches Err(e) && e == error,
        },
{
    let trailer_word: [u8; 7] = [0x74, 0x72, 0x61, 0x69, 0x6c, 0x65, 0x72];
    assert(trailer_word@ =~= word_trailer());
    let mut acc: Vec<u8> = Vec::new();
    let mut start: usize = 0;
    loop
        invariant
            start <= bytes.len(),
            trailer_word@ == word_trailer(),
            section_from(bytes@, 0, seq![]) == section_from(bytes@, start as int, acc@),
        decreases bytes.len() - start,
    {
        if start >= bytes.len() {
            return Err(PdfError::Io { position: bytes.len(), expected: Expected::TrailerMarker });
        }
        let stop = end_of_line(bytes, start);
        let end: usize = if start < stop && stop < bytes.len() && bytes[stop - 1] == 0x0d {
            stop - 1
        } else {
            stop
        };
        let ghost before = acc@;
        append_bytes(&mut acc, bytes, start, end);
        acc.push(0x0a);
        assert(acc@ =~= before + bytes@.subrange(start as int, end as int) + seq![0x0au8]);
        if line_is(bytes, start, end, trailer_word.as_slice()) {
            return Ok(acc);
        }
        if stop >= bytes.len() {
            return Err(PdfError::Io { position: bytes.len(), expected: Expected::TrailerMarker });
        }
        start = stop + 1;
    }
}

/// Reads the trailer dictionary and the offset of the cross-reference
/// section from a window at the end of a file.  Offsets in errors of the scan
/// count from the start of the window; offsets in errors of the trailer count
/// within its text, the lines between the markers one behind the other.
pub fn read_trailer(window: &[u8]) -> (r: Result<(DictNode, u64), PdfError>)
    ensures
        match trailer_of(window@) {
            Ok((trailer, offset)) => r matches Ok(p) && p.0@ == trailer && p.1 == offset,
            Err(error) => r matches Err(e) && e == error,
        },
{
    let tail = match scan_tail(window) {
        Ok(t) => t,
        Err(e) => {
            return Err(e);
        },
    };
    match parse_object(tail.trailer.as_slice()) {
        Err(e) => Err(e),
        Ok(DictNode::Dict(d)) => Ok((DictNode::Dict(d), tail.xref_offset)),
        Ok(_) => Err(PdfError::Parse { position: 0, expected: Expected::Object }),
    }
}

/// Reads the cross-reference table from the bytes that start at its offset.
/// Offsets in errors count within the text of the section.
pub fn read_xref(bytes: &[u8]) -> (r: Result<XRefTable, PdfError>)
    ensures
        crate::xref::table_agrees(r, xref_of(bytes@)),
{
    match xref_section(bytes) {
        Err(e) => Err(e),
        Ok(text) => parse_xref(text.as_slice()),
    }
}

/// Reads the trailer dictionary and the cross-reference table of a file
/// whose bytes are all at hand.  Only the last `CHUNK_SIZE` bytes are scanned
/// for the markers.  Offsets in errors count as in `read_trailer` and
/// `read_xref`.
pub fn get_doc_metadata(file: &[u8]) -> (r: Result<(DictNode, XRefTable), PdfError>)
    ensures
        match metadata_of(file@) {
            Ok((trailer, entries)) => r matches Ok(p) && p.0@ == trailer && p.1@ == entries,
            Err(error) => r matches Err(e) && e == error,
        },
{
    let base = window_offset(file.len());
    let (trailer, offset) = match read_trailer(slice_subrange(file, base, file.len())) {
        Ok(p) => p,
        Err(e) => {
            return Err(e);
        },
    };
    if offset > file.len() as u64 {
        return Err(PdfError::Io { position: file.len(), expected: Expected::BytesAtOffset });
    }
    match read_xref(slice_subrange(file, offset as usize, file.len())) {
        Ok(table) => Ok((trailer, table)),
        Err(e) => Err(e),
    }
}

} // verus!
