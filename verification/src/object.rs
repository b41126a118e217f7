//! The extraction of indirect objects: from the bytes at the offset that a
//! cross-reference entry names to the value of the object and the bytes of
//! its stream.
//!
//! The first line at the offset is the header of the object.  The text of
//! its value runs from the line after that up to the first of the words
//! `stream`, `endstream` and `endobj`; where that word is `stream`, the
//! payload of a stream follows it.

use vstd::prelude::*;
use vstd::slice::slice_subrange;
use crate::cos::{lemma_nodes_view, nodes_view, Cos, DictNode};
use crate::document::CHUNK_SIZE;
use crate::error::{Expected, PdfError};
use crate::flate::{inflate_bytes, inflated};
use crate::lex::{has_at, starts_with_at, word_endobj};
use crate::lines::{end_of_line, find_from, find_word, line_stop};
use crate::parser::{parse_object, parsed_object};
use crate::xref::{XRefEntry, XRefTable};

verus! {

/// The bytes of the word `stream`.
pub open spec fn word_stream() -> Seq<u8> {
    seq![0x73u8, 0x74u8, 0x72u8, 0x65u8, 0x61u8, 0x6du8]
}

/// The bytes of the word `end`.
pub open spec fn word_end() -> Seq<u8> {
    seq![0x65u8, 0x6eu8, 0x64u8]
}

/// The bytes of the word `endstream`.
pub open spec fn word_endstream() -> Seq<u8> {
    seq![0x65u8, 0x6eu8, 0x64u8, 0x73u8, 0x74u8, 0x72u8, 0x65u8, 0x61u8, 0x6du8]
}

/// The word that ends the text of an object's value.
#[derive(Clone, Copy, Debug, PartialEq, Eq, Structural)]
pub enum Sentinel {
    Stream,
    EndStream,
    EndObj,
}

/// Where the text of an object's value lies: from `body` up to `at`, where
/// the sentinel starts.
#[derive(Clone, Copy, Debug, PartialEq, Eq, Structural)]
pub struct ObjectText {
    pub body: usize,
    pub at: usize,
    pub sentinel: Sentinel,
}

/// Where the text of the value lies in the bytes of an object.  The first
/// line is passed over.  In the first line behind it that holds `stream` or
/// `endobj`, the text ends at the first `stream`, or at the `end` directly
/// before it, and at the first `endobj` where the line holds no `stream`.
pub open spec fn object_cut(s: Seq<u8>) -> Option<ObjectText> {
    let header = line_stop(s, 0);
    let body = header + 1;
    let stream = find_from(s, word_stream(), body);
    let endobj = find_from(s, word_endobj(), body);
    let first = if stream <= endobj {
        stream
    } else {
        endobj
    };
    if header >= s.len() || first >= s.len() {
        None
    } else if stream < line_stop(s, first) {
        if body + 3 <= stream && has_at(s, stream - 3, word_end()) {
            Some(
                ObjectText {
                    body: body as usize,
                    at: (stream - 3) as usize,
                    sentinel: Sentinel::EndStream,
                },
            )
        } else {
            Some(ObjectText { body: body as usize, at: stream as usize, sentinel: Sentinel::Stream })
        }
    } else {
        Some(ObjectText { body: body as usize, at: endobj as usize, sentinel: Sentinel::EndObj })
    }
}

/// Where the payload starts: behind the word `stream` at `keyword` and the
/// end of its line, a line feed with or without a carriage return before it.
pub open spec fn payload_start(s: Seq<u8>, keyword: int) -> int {
    let p = keyword + 6;
    if has_at(s, p, seq![0x0du8, 0x0au8]) {
        p + 2
    } else if has_at(s, p, seq![0x0au8]) {
        p + 1
    } else {
        p
    }
}

/// The length that a stream dictionary declares, where it declares an integer.
pub open spec fn declared_length(value: Cos) -> Option<int> {
    match value {
        Cos::Dict(m) => if m.contains_key("Length"@) {
            match m["Length"@] {
                Cos::Int(n) => Some(n),
                _ => None,
            }
        } else {
            None
        },
        _ => None,
    }
}

/// Where the payload ends: behind the declared length, where one is declared
/// and the bytes reach that far, else before the first `endstream`.
pub open spec fn payload_end(s: Seq<u8>, start: int, value: Cos) -> Option<int> {
    let fits = declared_length(value) matches Some(n) && 0 <= n && start + n <= s.len();
    let word = find_from(s, word_endstream(), start);
    if fits {
        Some(start + declared_length(value)->0)
    } else if word < s.len() {
        Some(word)
    } else {
        None
    }
}

/// Whether the filter of a stream dictionary is FlateDecode: the name
/// itself, or an array that holds this one name.
pub open spec fn wants_inflate(value: Cos) -> bool {
    match value {
        Cos::Dict(m) => m.contains_key("Filter"@) && (m["Filter"@] == Cos::Str("/FlateDecode"@)
            || m["Filter"@] == Cos::Array(seq![Cos::Str("/FlateDecode"@)])),
        _ => false,
    }
}

/// The bytes of a stream as they are handed out: decoded where the
/// dictionary asks for it, else as they stand in the file.
pub open spec fn delivered(start: int, filtered: bool, raw: Seq<u8>, decoded: Option<Seq<u8>>) -> Result<
    Seq<u8>,
    PdfError,
> {
    if !filtered {
        Ok(raw)
    } else {
        match decoded {
            Some(bytes) => Ok(bytes),
            None => Err(
                PdfError::Decompress { position: start as usize, expected: Expected::DeflateData },
            ),
        }
    }
}

/// The error `e`, moved by `base`.
pub open spec fn moved<T>(r: Result<T, PdfError>, base: usize) -> Result<T, PdfError> {
    match r {
        Ok(v) => Ok(v),
        Err(e) => Err(e.spec_shifted(base)),
    }
}

/// What the bytes of an object denote: its value, and the bytes of its
/// stream where it has one.  The text of the value is looked for in the
/// first `CHUNK_SIZE` bytes.  Offsets in errors count from the first byte.
pub open spec fn object_of(bytes: Seq<u8>) -> Result<(Cos, Option<Seq<u8>>), PdfError> {
    let head = bytes.subrange(0, if bytes.len() > CHUNK_SIZE {
        CHUNK_SIZE as int
    } else {
        bytes.len() as int
    });
    match object_cut(head) {
        None => Err(
            PdfError::Io { position: head.len() as usize, expected: Expected::ObjectSentinel },
        ),
        Some(cut) => match moved(
            parsed_object(head.subrange(cut.body as int, cut.at as int)),
            cut.body,
        ) {
            Err(error) => Err(error),
            Ok(value) => {
                if cut.sentinel != Sentinel::Stream {
                    Ok((value, None))
                } else {
                    let start = payload_start(bytes, cut.at as int);
                    match payload_end(bytes, start, value) {
                        None => Err(
                            PdfError::Io {
                                position: start as usize,
                                expected: Expected::StreamPayload,
                            },
                        ),
                        Some(end) => {
                            let raw = bytes.subrange(start, end);
                            match delivered(start, wants_inflate(value), raw, inflated(raw)) {
                                Ok(data) => Ok((value, Some(data))),
                                Err(error) => Err(error),
                            }
                        },
                    }
                }
            },
        },
    }
}

/// What a file holds at the offset of an entry.  Offsets in errors count
/// from the start of the file.
pub open spec fn extracted(file: Seq<u8>, entry: XRefEntry) -> Result<
    (Cos, Option<Seq<u8>>),
    PdfError,
> {
    if entry.offset > file.len() {
        Err(PdfError::Io { position: file.len() as usize, expected: Expected::BytesAtOffset })
    } else {
        moved(object_of(file.subrange(entry.offset as int, file.len() as int)), entry.offset as usize)
    }
}

/// Whether what an extraction returns is what the bytes denote.
pub open spec fn extraction_agrees(
    r: Result<(DictNode, Option<Vec<u8>>), PdfError>,
    wanted: Result<(Cos, Option<Seq<u8>>), PdfError>,
) -> bool {
    match wanted {
        Ok((value, stream)) => r matches Ok(p) && p.0@ == value && match stream {
            Some(bytes) => p.1 matches Some(v) && v@ == bytes,
            None => p.1 is None,
        },
        Err(error) => r matches Err(e) && e == error,
    }
}

/// Finds the text of the value in the bytes of an object.
pub fn locate_object(head: &[u8]) -> (r: Result<ObjectText, PdfError>)
    ensures
        match object_cut(head@) {
            Some(cut) => r == Ok::<ObjectText, PdfError>(cut) && cut.body <= cut.at && (cut.sentinel
                == Sentinel::Stream ==> cut.at + 6 <= head.len()) && cut.at <= head.len(),
            None => r == Err::<ObjectText, PdfError>(
                PdfError::Io { position: head.len(), expected: Expected::ObjectSentinel },
            ),
        },
{
    let stream_word: [u8; 6] = [0x73, 0x74, 0x72, 0x65, 0x61, 0x6d];
    let endobj_word: [u8; 6] = [0x65, 0x6e, 0x64, 0x6f, 0x62, 0x6a];
    let end_word: [u8; 3] = [0x65, 0x6e, 0x64];
    assert(stream_word@ =~= word_stream());
    assert(endobj_word@ =~= word_endobj());
    assert(end_word@ =~= word_end());
    let failed = PdfError::Io { position: head.len(), expected: Expected::ObjectSentinel };
    let header = end_of_line(head, 0);
    if header >= head.len() {
        return Err(failed);
    }
    let body = header + 1;
    let stream = find_word(head, stream_word.as_slice(), body);
    let endobj = find_word(head, endobj_word.as_slice(), body);
    let first = if stream <= endobj {
        stream
    } else {
        endobj
    };
    if first >= head.len() {
        return Err(failed);
    }
    proof {
        crate::lines::lemma_find_from(head@, word_stream(), body as int);
        crate::lines::lemma_find_from(head@, word_endobj(), body as int);
    }
    if stream < end_of_line(head, first) {
        if body + 3 <= stream && starts_with_at(head, stream - 3, end_word.as_slice()) {
            Ok(ObjectText { body, at: stream - 3, sentinel: Sentinel::EndStream })
        } else {
            Ok(ObjectText { body, at: stream, sentinel: Sentinel::Stream })
        }
    } else {
        Ok(ObjectText { body, at: endobj, sentinel: Sentinel::EndObj })
    }
}

/// The length that a stream dictionary declares.
pub fn length_of(value: &DictNode) -> (r: Option<i64>)
    ensures
        match declared_length(value@) {
            Some(n) => r == Some(n as i64) && n == r->0,
            None => r is None,
        },
{
    match value {
        DictNode::Dict(d) => match d.get("Length") {
            Some(DictNode::Int(n)) => Some(*n),
            _ => None,
        },
        _ => None,
    }
}

/// Whether the filter of a stream dictionary is FlateDecode.
pub fn is_flate(value: &DictNode) -> (r: bool)
    ensures
        r == wants_inflate(value@),
{
    let flate = "/FlateDecode".to_owned();
    match value {
        DictNode::Dict(d) => match d.get("Filter") {
            Some(DictNode::Str(name)) => *name == flate,
            Some(DictNode::Array(items)) => {
                proof {
                    lemma_nodes_view(items@);
                }
                if items.len() != 1 {
                    assert(nodes_view(items@).len() != 1);
                    return false;
                }
                match &items[0] {
                    DictNode::Str(name) => {
                        let r = *name == flate;
                        proof {
                            assert(nodes_view(items@)[0] == items@[0]@);
                            if r {
                                assert(nodes_view(items@) =~= seq![Cos::Str("/FlateDecode"@)]);
                            }
                        }
                        r
                    },
                    _ => {
                        assert(nodes_view(items@)[0] == items@[0]@);
                        false
                    },
                }
            },
            _ => false,
        },
        _ => false,
    }
}

/// Finds the payload behind the word `stream` at `keyword`: its start and
/// its end, or its start alone where no end is found.
pub fn stream_span(bytes: &[u8], keyword: usize, value: &DictNode) -> (r: Result<(usize, usize), usize>)
    requires
        keyword + 6 <= bytes.len(),
    ensures
        match payload_end(bytes@, payload_start(bytes@, keyword as int), value@) {
            Some(end) => r == Ok::<(usize, usize), usize>(
                (payload_start(bytes@, keyword as int) as usize, end as usize),
            ) && payload_start(bytes@, keyword as int) <= end <= bytes.len(),
            None => r == Err::<(usize, usize), usize>(
                payload_start(bytes@, keyword as int) as usize,
            ),
        },
        keyword + 6 <= payload_start(bytes@, keyword as int) <= bytes.len(),
{
    let crlf: [u8; 2] = [0x0d, 0x0a];
    let lf: [u8; 1] = [0x0a];
    let endstream_word: [u8; 9] = [0x65, 0x6e, 0x64, 0x73, 0x74, 0x72, 0x65, 0x61, 0x6d];
    assert(crlf@ =~= seq![0x0du8, 0x0au8]);
    assert(lf@ =~= seq![0x0au8]);
    assert(endstream_word@ =~= word_endstream());
    let p = keyword + 6;
    let start: usize = if starts_with_at(bytes, p, crlf.as_slice()) {
        assert(has_at(bytes@, p as int, seq![0x0du8, 0x0au8]));
        p + 2
    } else if starts_with_at(bytes, p, lf.as_slice()) {
        assert(has_at(bytes@, p as int, seq![0x0au8]));
        p + 1
    } else {
        p
    };
    match length_of(value) {
        Some(n) => {
            if n >= 0 && n as u64 <= (bytes.len() - start) as u64 {
                return Ok((start, start + n as usize));
            }
        },
        None => {},
    }
    let word = find_word(bytes, endstream_word.as_slice(), start);
    if word < bytes.len() {
        Ok((start, word))
    } else {
        Err(start)
    }
}

/// Hands out the bytes of a stream: `raw` where the stream is not filtered,
/// else what the decoder made of them, or its failure.
pub fn deliver(start: usize, filtered: bool, raw: Vec<u8>, decoded: Option<Vec<u8>>) -> (r: Result<
    Vec<u8>,
    PdfError,
>)
    ensures
        match delivered(
            start as int,
            filtered,
            raw@,
            match decoded {
                Some(v) => Some(v@),
                None => None,
            },
        ) {
            Ok(bytes) => r matches Ok(v) && v@ == bytes,
            Err(error) => r matches Err(e) && e == error,
        },
{
    if !filtered {
        Ok(raw)
    } else {
        match decoded {
            Some(bytes) => Ok(bytes),
            None => Err(PdfError::Decompress { position: start, expected: Expected::DeflateData }),
        }
    }
}

/// Reads an object from the bytes that start at its offset: its value, and
/// the bytes of its stream where it has one, decoded where its dictionary
/// names FlateDecode as the filter.
pub fn read_object(bytes: &[u8]) -> (r: Result<(DictNode, Option<Vec<u8>>), PdfError>)
    ensures
        extraction_agrees(r, object_of(bytes@)),
{
    let reach: usize = if bytes.len() > CHUNK_SIZE {
        CHUNK_SIZE
    } else {
        bytes.len()
    };
    let head = slice_subrange(bytes, 0, reach);
    let cut = match locate_object(head) {
        Ok(c) => c,
        Err(e) => {
            return Err(e);
        },
    };
    let value = match parse_object(slice_subrange(head, cut.body, cut.at)) {
        Ok(v) => v,
        Err(e) => {
            return Err(e.shifted(cut.body));
        },
    };
    match cut.sentinel {
        Sentinel::Stream => {},
        _ => {
            return Ok((value, None));
        },
    }
    let (start, end) = match stream_span(bytes, cut.at, &value) {
        Ok(span) => span,
        Err(at) => {
            return Err(PdfError::Io { position: at, expected: Expected::StreamPayload });
        },
    };
    let raw_slice = slice_subrange(bytes, start, end);
    let filtered = is_flate(&value);
    let decoded = if filtered {
        inflate_bytes(raw_slice)
    } else {
        None
    };
    let raw = vstd::slice::slice_to_vec(raw_slice);
    match deliver(start, filtered, raw, decoded) {
        Ok(data) => Ok((value, Some(data))),
        Err(e) => Err(e),
    }
}

/// Whether reading an object failed because the bytes at hand end inside
/// its stream, so that reading it again from more bytes may succeed.
pub fn ends_inside_stream(outcome: &Result<(DictNode, Option<Vec<u8>>), PdfError>) -> (r: bool)
    ensures
        r == (outcome matches Err(e) && e matches PdfError::Io { expected, .. } && expected
            == Expected::StreamPayload),
{
    match outcome {
        Err(PdfError::Io { expected: Expected::StreamPayload, .. }) => true,
        _ => false,
    }
}

/// Reads the object that an entry of the cross-reference table names from a
/// file whose bytes are all at hand.
pub fn extract_object(file: &[u8], entry: &XRefEntry) -> (r: Result<
    (DictNode, Option<Vec<u8>>),
    PdfError,
>)
    ensures
        extraction_agrees(r, extracted(file@, *entry)),
{
    if entry.offset > file.len() as u64 {
        return Err(PdfError::Io { position: file.len(), expected: Expected::BytesAtOffset });
    }
    let offset = entry.offset as usize;
    match read_object(slice_subrange(file, offset, file.len())) {
        Ok(found) => Ok(found),
        Err(e) => Err(e.shifted(offset)),
    }
}

/// What the walk over a table found for one object.
#[derive(Debug)]
pub struct Extraction {
    /// The object number: the index of the entry in the table.
    pub id: usize,
    pub outcome: Result<(DictNode, Option<Vec<u8>>), PdfError>,
}

/// The indices below `upto` of the entries that are in use, in ascending order.
pub open spec fn in_use(entries: Seq<XRefEntry>, upto: int) -> Seq<int>
    decreases upto,
{
    if upto <= 0 || upto > entries.len() {
        seq![]
    } else if entries[upto - 1].is_free {
        in_use(entries, upto - 1)
    } else {
        in_use(entries, upto - 1).push(upto - 1)
    }
}

/// The indices of the entries in use are indices of entries that are not
/// free, every such index is among them, and they ascend.
pub proof fn lemma_in_use(entries: Seq<XRefEntry>, upto: int)
    requires
        0 <= upto <= entries.len(),
    ensures
        forall|k: int|
            0 <= k < in_use(entries, upto).len() ==> 0 <= (#[trigger] in_use(entries, upto)[k])
                < upto && !entries[in_use(entries, upto)[k]].is_free,
        forall|id: int|
            0 <= id < upto && !(#[trigger] entries[id]).is_free ==> in_use(entries, upto).contains(
                id,
            ),
        forall|k: int, l: int|
            0 <= k < l < in_use(entries, upto).len() ==> in_use(entries, upto)[k] < in_use(
                entries,
                upto,
            )[l],
    decreases upto,
{
    if upto > 0 {
        lemma_in_use(entries, upto - 1);
        let before = in_use(entries, upto - 1);
        let now = in_use(entries, upto);
        assert forall|id: int| 0 <= id < upto && !(#[trigger] entries[id]).is_free implies now.contains(
            id,
        ) by {
            if id < upto - 1 {
                let k = choose|k: int| 0 <= k < before.len() && before[k] == id;
                assert(now[k] == id);
            } else {
                assert(now[now.len() - 1] == id);
            }
        }
    }
}

/// Walks a table and reads every object that is in use.  The result holds
/// one outcome for each entry in use, in the order of the table, and each
/// outcome is what `extract_object` gives for that entry alone: a failure for
/// one object leaves the outcomes of the others as they are.
pub fn extract_all(file: &[u8], table: &XRefTable) -> (r: Vec<Extraction>)
    ensures
        r@.len() == in_use(table@, table@.len() as int).len(),
        forall|k: int|
            0 <= k < r@.len() ==> (#[trigger] r@[k]).id as int == in_use(
                table@,
                table@.len() as int,
            )[k] && r@[k].id < table@.len() && !table@[r@[k].id as int].is_free
                && extraction_agrees(r@[k].outcome, extracted(file@, table@[r@[k].id as int])),
        forall|id: int|
            0 <= id < table@.len() && !(#[trigger] table@[id]).is_free ==> exists|k: int|
                0 <= k < r@.len() && (#[trigger] r@[k]).id == id,
{
    let mut found: Vec<Extraction> = Vec::new();
    let mut i: usize = 0;
    while i < table.0.len()
        invariant
            i <= table.0.len(),
            found@.len() == in_use(table@, i as int).len(),
            forall|k: int|
                0 <= k < found@.len() ==> (#[trigger] found@[k]).id as int == in_use(
                    table@,
                    i as int,
                )[k] && found@[k].id < table@.len() && extraction_agrees(
                    found@[k].outcome,
                    extracted(file@, table@[found@[k].id as int]),
                ),
        decreases table.0.len() - i,
    {
        let entry = table.0[i];
        if !entry.is_free {
            let outcome = extract_object(file, &entry);
            found.push(Extraction { id: i, outcome });
        }
        i += 1;
    }
    proof {
        let ids = in_use(table@, table@.len() as int);
        lemma_in_use(table@, table@.len() as int);
        assert forall|k: int| 0 <= k < found@.len() implies !table@[(#[trigger] found@[k]).id as int].is_free by {
            assert(found@[k].id as int == ids[k]);
        }
        assert forall|id: int|
            0 <= id < table@.len() && !(#[trigger] table@[id]).is_free implies exists|k: int|
            0 <= k < found@.len() && (#[trigger] found@[k]).id == id by {
            assert(ids.contains(id));
            let k = choose|k: int| 0 <= k < ids.len() && ids[k] == id;
            assert(found@[k].id == id);
        }
    }
    found
}

} // verus!
