//! The bootstrap of a minimal file: a file that holds, behind any bytes
//! without the two markers, a cross-reference section of one free and one
//! used entry, a trailer dictionary on one line, the marker `startxref` and
//! the offset of the section.

use vstd::prelude::*;
use crate::cos::{Cos, DictNode};
use crate::document::{
    located_tail, metadata_of, section_from, section_text, tail_from, text_line_end, trailer_of,
    word_startxref, word_trailer, xref_of, TailScan, CHUNK_SIZE,
};
use crate::error::PdfError;
use crate::grammar::MAX_DEPTH;
use crate::lex::{has_at, is_digit};
use crate::lines::{lemma_line_stop, lemma_line_stop_to, line_stop};
use crate::number::{digits_value, is_unsigned_literal};
use crate::render::{nesting, renderable, rendered};
use crate::roundtrip::{lemma_has_at_bytes, lemma_has_at_split, lemma_round_trip};
use crate::xref::{line_trailer, line_xref, XRefEntry};
use crate::xref_text::{
    entries_of, entry_of, header_end, is_field, lemma_section_read, lemma_section_shape, line_ok,
    line_text, lines_text, section_of, EntryLine,
};

verus! {

/// The digit `2`, the count of the entries of a minimal file.
pub open spec fn two() -> Seq<u8> {
    seq![0x32u8]
}

/// What stands behind the section: the text of the trailer on one line, the
/// line `startxref`, the line of the offset, and any bytes behind that.
#[verifier::opaque]
pub open spec fn tail_text(trailer: Seq<u8>, offset: Seq<u8>, foot: Seq<u8>) -> Seq<u8> {
    trailer + (seq![0x0au8] + (word_startxref() + (seq![0x0au8] + (offset + (seq![0x0au8]
        + foot)))))
}

/// The bytes of a minimal file.
#[verifier::opaque]
pub open spec fn minimal_file(
    head: Seq<u8>,
    start: Seq<u8>,
    free: EntryLine,
    used: EntryLine,
    trailer: DictNode,
    offset: Seq<u8>,
    foot: Seq<u8>,
) -> Seq<u8> {
    head + (section_of(start, two(), seq![free, used]) + tail_text(
        rendered(trailer),
        offset,
        foot,
    ))
}

/// Whether neither marker occurs in `head`, and `head` ends with its last line.
pub open spec fn marker_free(head: Seq<u8>) -> bool {
    &&& head.len() == 0 || head[head.len() - 1] == 0x0a
    &&& forall|i: int| 0 <= i ==> !#[trigger] has_at(head, i, word_trailer())
    &&& forall|i: int| 0 <= i ==> !#[trigger] has_at(head, i, word_startxref())
}

/// Whether a line is one of the two markers.
pub open spec fn is_marker(line: Seq<u8>) -> bool {
    line == word_trailer() || line == word_startxref()
}

/// A line that is no marker is passed over while no marker was seen.
pub proof fn lemma_tail_pass(s: Seq<u8>, a: int, b: int, acc: Seq<u8>)
    requires
        0 <= a <= b < s.len(),
        line_stop(s, a) == b,
        !is_marker(s.subrange(a, b)),
    ensures
        tail_from(s, a, false, false, acc) == tail_from(s, b + 1, false, false, acc),
{
}

/// The lines of a text in which no marker occurs are passed over.
pub proof fn lemma_tail_pass_head(s: Seq<u8>, head: Seq<u8>, a: int, acc: Seq<u8>)
    requires
        has_at(s, 0, head),
        marker_free(head),
        head.len() < s.len(),
        0 <= a <= head.len(),
        a == 0 || s[a - 1] == 0x0a,
    ensures
        tail_from(s, a, false, false, acc) == tail_from(s, head.len() as int, false, false, acc),
    decreases head.len() - a,
{
    if a < head.len() {
        let h = head.len() as int;
        lemma_has_at_bytes(s, 0, head);
        assert(s[0int + (h - 1)] == head[h - 1]);
        lemma_line_stop(s, a);
        let b = line_stop(s, a);
        if b > h - 1 {
            assert(s[h - 1] != 0x0a);
        }
        let line = s.subrange(a, b);
        assert(line =~= head.subrange(a, b)) by {
            assert forall|i: int| 0 <= i < b - a implies s.subrange(a, b)[i] == head.subrange(
                a,
                b,
            )[i] by {
                assert(s[0int + (a + i)] == head[a + i]);
            }
        }
        if line == word_trailer() {
            assert(has_at(head, a, word_trailer()));
        }
        if line == word_startxref() {
            assert(has_at(head, a, word_startxref()));
        }
        lemma_tail_pass(s, a, b, acc);
        lemma_tail_pass_head(s, head, b + 1, acc);
    }
}

/// A line that starts with neither `t` nor `s` is no marker.
pub proof fn lemma_no_marker(s: Seq<u8>, a: int, b: int)
    requires
        0 <= a <= b <= s.len(),
        a == b || (s[a] != 0x74 && s[a] != 0x73),
    ensures
        !is_marker(s.subrange(a, b)),
{
    let line = s.subrange(a, b);
    if a < b {
        assert(line[0] == s[a]);
        assert(word_trailer()[0] == 0x74);
        assert(word_startxref()[0] == 0x73);
    } else {
        assert(word_trailer().len() == 7);
        assert(word_startxref().len() == 9);
    }
}

/// A word that stands in a text that stands in a file stands in the file.
pub proof fn lemma_has_at_within(s: Seq<u8>, base: int, t: Seq<u8>, i: int, w: Seq<u8>)
    requires
        has_at(s, base, t),
        has_at(t, i, w),
    ensures
        has_at(s, base + i, w),
{
    lemma_has_at_bytes(s, base, t);
    lemma_has_at_bytes(t, i, w);
    assert(s.subrange(base + i, base + i + w.len()) =~= w) by {
        assert forall|k: int| 0 <= k < w.len() implies s.subrange(
            base + i,
            base + i + w.len(),
        )[k] == w[k] by {
            assert(s[base + (i + k)] == t[i + k]);
            assert(t[i + k] == w[k]);
        }
    }
}

/// Digits hold no line feed and start with a digit.
pub proof fn lemma_digits_plain(s: Seq<u8>, p: int, d: Seq<u8>)
    requires
        has_at(s, p, d),
        is_unsigned_literal(d),
    ensures
        is_digit(s[p]),
        forall|i: int| p <= i < p + d.len() ==> #[trigger] s[i] != 0x0a,
{
    lemma_has_at_bytes(s, p, d);
    assert(s[p + 0] == d[0]);
    assert forall|i: int| p <= i < p + d.len() implies #[trigger] s[i] != 0x0a by {
        assert(s[p + (i - p)] == d[i - p]);
        assert(is_digit(d[i - p]));
    }
}

/// An entry line is one line: it starts with a digit, holds no line feed
/// before its last byte, and ends with a space and a line feed.
pub proof fn lemma_line_plain(l: EntryLine, s: Seq<u8>, p: int)
    requires
        line_ok(l),
        has_at(s, p, line_text(l)),
    ensures
        is_digit(s[p]),
        line_stop(s, p) == p + line_text(l).len() - 1,
        s[p + line_text(l).len() - 2] == 0x20,
        line_text(l).len() >= 6,
{
    let t = line_text(l);
    let n = t.len() as int;
    let g = p + l.offset.len() + 1;
    let u = g + l.generation.len() + 1;
    let tail = seq![0x20u8, crate::xref_text::flag_of(l), 0x20u8, 0x0au8];
    assert(t =~= l.offset + (seq![0x20u8] + l.generation + tail));
    lemma_has_at_split(s, p, l.offset, seq![0x20u8] + l.generation + tail);
    assert(t =~= (l.offset + seq![0x20u8]) + (l.generation + tail));
    lemma_has_at_split(s, p, l.offset + seq![0x20u8], l.generation + tail);
    lemma_has_at_split(s, g, l.generation, tail);
    lemma_has_at_bytes(s, p, t);
    lemma_has_at_bytes(s, u - 1, tail);
    lemma_digits_plain(s, p, l.offset);
    lemma_digits_plain(s, g, l.generation);
    assert(s[p + l.offset.len()] == t[l.offset.len() as int]);
    assert(s[u - 1 + 0] == tail[0]);
    assert(s[u - 1 + 1] == tail[1]);
    assert(s[u - 1 + 2] == tail[2]);
    assert(s[u - 1 + 3] == tail[3]);
    assert forall|i: int| p <= i < p + n - 1 implies #[trigger] s[i] != 0x0a by {
        if i < p + l.offset.len() {
        } else if i == p + l.offset.len() {
        } else if i < g + l.generation.len() {
        } else {
        }
    }
    lemma_line_stop_to(s, p, p + n - 1);
}

/// The two entry lines of a minimal file.
pub open spec fn two_lines(free: EntryLine, used: EntryLine) -> Seq<EntryLine> {
    seq![free, used]
}

/// Where the five lines of the section of a minimal file stand when the
/// section stands at `base`: each line with the line feed that ends it, the
/// first four no markers and the fifth the line `trailer`, none of them ended
/// by a carriage return.
pub open spec fn five_lines(s: Seq<u8>, base: int, start: Seq<u8>, free: EntryLine, used: EntryLine) -> bool {
    let he = header_end(start, two());
    let first = base + he;
    let second = first + line_text(free).len();
    let last = second + line_text(used).len();
    &&& last + 8 <= s.len()
    &&& line_stop(s, base) == base + 4
    &&& s[base] == 0x78
    &&& s[base + 3] == 0x66
    &&& line_stop(s, base + 5) == first - 1
    &&& is_digit(s[base + 5])
    &&& is_digit(s[first - 2])
    &&& line_stop(s, first) == second - 1
    &&& is_digit(s[first])
    &&& s[second - 2] == 0x20
    &&& line_stop(s, second) == last - 1
    &&& is_digit(s[second])
    &&& s[last - 2] == 0x20
    &&& line_stop(s, last) == last + 7
    &&& s.subrange(last, last + 7) == word_trailer()
    &&& s[last + 6] == 0x72
}

/// The length of the text of the section of a minimal file.
pub open spec fn section_len(start: Seq<u8>, free: EntryLine, used: EntryLine) -> int {
    header_end(start, two()) + line_text(free).len() + line_text(used).len() + 8
}

/// The lines of the section of a minimal file stand where the section stands.
pub proof fn lemma_five_lines(s: Seq<u8>, base: int, start: Seq<u8>, free: EntryLine, used: EntryLine)
    requires
        has_at(s, base, section_of(start, two(), two_lines(free, used))),
        is_unsigned_literal(start),
        line_ok(free),
        line_ok(used),
    ensures
        five_lines(s, base, start, free, used),
        section_of(start, two(), two_lines(free, used)).len() == section_len(start, free, used),
{
    let lines = two_lines(free, used);
    let sec = section_of(start, two(), lines);
    let he = header_end(start, two());
    let first = base + he;
    let second = first + line_text(free).len();
    let last = second + line_text(used).len();
    let c: int = 5int + start.len() + 1;
    lemma_section_shape(start, two(), lines);
    assert(lines_text(lines) =~= line_text(free) + line_text(used)) by {
        assert(lines.drop_first() =~= seq![used]);
        assert(seq![used].drop_first() =~= Seq::<EntryLine>::empty());
        assert(lines_text(seq![used]) =~= line_text(used) + lines_text(
            Seq::<EntryLine>::empty(),
        ));
        assert(lines_text(lines) == line_text(lines[0]) + lines_text(lines.drop_first()));
    }
    lemma_has_at_bytes(s, base, sec);
    // the line `xref`
    lemma_has_at_within(s, base, sec, 0, line_xref());
    lemma_has_at_bytes(s, base, line_xref());
    assert(s[base + 0] == line_xref()[0]);
    assert(s[base + 1] == line_xref()[1]);
    assert(s[base + 2] == line_xref()[2]);
    assert(s[base + 3] == line_xref()[3]);
    assert(s[base + 4] == line_xref()[4]);
    lemma_line_stop_to(s, base, base + 4);
    // the header
    lemma_has_at_within(s, base, sec, 5, start);
    lemma_has_at_within(s, base, sec, c, two());
    lemma_digits_plain(s, base + 5, start);
    lemma_digits_plain(s, base + c, two());
    assert(s[base + (5int + start.len())] == sec[5int + start.len()]);
    assert(s[base + (c + 1)] == sec[c + 1]);
    assert forall|i: int| base + 5 <= i < first - 1 implies #[trigger] s[i] != 0x0a by {}
    lemma_line_stop_to(s, base + 5, first - 1);
    // the two entry lines
    lemma_has_at_within(s, base, sec, he, lines_text(lines));
    lemma_has_at_split(s, first, line_text(free), line_text(used));
    lemma_line_plain(free, s, first);
    lemma_line_plain(used, s, second);
    // the line `trailer`
    lemma_has_at_within(s, base, sec, last - base, line_trailer());
    lemma_has_at_bytes(s, last, line_trailer());
    assert(s[last + 0] == line_trailer()[0]);
    assert(s[last + 1] == line_trailer()[1]);
    assert(s[last + 2] == line_trailer()[2]);
    assert(s[last + 3] == line_trailer()[3]);
    assert(s[last + 4] == line_trailer()[4]);
    assert(s[last + 5] == line_trailer()[5]);
    assert(s[last + 6] == line_trailer()[6]);
    assert(s[last + 7] == line_trailer()[7]);
    lemma_line_stop_to(s, last, last + 7);
    assert(s.subrange(last, last + 7) =~= word_trailer());
}

/// A line that is not the line `trailer` is gathered with its line feed.
pub proof fn lemma_section_step(t: Seq<u8>, a: int, b: int)
    requires
        0 <= a <= b < t.len(),
        line_stop(t, a) == b,
        a == b || t[b - 1] != 0x0d,
        t.subrange(a, b) != word_trailer(),
    ensures
        section_from(t, a, t.subrange(0, a)) == section_from(t, b + 1, t.subrange(0, b + 1)),
{
    lemma_line_stop(t, a);
    assert(text_line_end(t, a) == b);
    assert(t.subrange(0, a) + t.subrange(a, b) + seq![0x0au8] =~= t.subrange(0, b + 1));
}

/// The text that is gathered from bytes that start with the section of a
/// minimal file is the text of the section.
pub proof fn lemma_section_gathered(t: Seq<u8>, start: Seq<u8>, free: EntryLine, used: EntryLine)
    requires
        has_at(t, 0, section_of(start, two(), two_lines(free, used))),
        five_lines(t, 0, start, free, used),
        section_of(start, two(), two_lines(free, used)).len() == section_len(start, free, used),
    ensures
        section_text(t) == Ok::<Seq<u8>, PdfError>(section_of(start, two(), two_lines(free, used))),
{
    let sec = section_of(start, two(), two_lines(free, used));
    let he = header_end(start, two());
    let first = he;
    let second = first + line_text(free).len();
    let last = second + line_text(used).len();
    assert(t.subrange(0, 0) =~= Seq::<u8>::empty());
    lemma_no_trailer_line(t, 0, 4);
    lemma_section_step(t, 0, 4);
    lemma_no_trailer_line(t, 5, first - 1);
    lemma_section_step(t, 5, first - 1);
    lemma_no_trailer_line(t, first, second - 1);
    lemma_section_step(t, first, second - 1);
    lemma_no_trailer_line(t, second, last - 1);
    lemma_section_step(t, second, last - 1);
    lemma_line_stop(t, last);
    assert(text_line_end(t, last) == last + 7);
    assert(t.subrange(0, last) + t.subrange(last, last + 7) + seq![0x0au8] =~= t.subrange(
        0,
        last + 8,
    ));
    assert(section_from(t, last, t.subrange(0, last)) == Some(t.subrange(0, last + 8)));
}

/// A line that does not start with `t` is not the line `trailer`.
pub proof fn lemma_no_trailer_line(t: Seq<u8>, a: int, b: int)
    requires
        0 <= a <= b <= t.len(),
        a == b || t[a] != 0x74,
    ensures
        t.subrange(a, b) != word_trailer(),
{
    if a < b {
        assert(t.subrange(a, b)[0] == t[a]);
        assert(word_trailer()[0] == 0x74);
    } else {
        assert(word_trailer().len() == 7);
    }
}

/// What the scan of a minimal file finds: behind the bytes without markers
/// and the lines of the section, the line `trailer` opens the trailer, the
/// one line of the dictionary is gathered, the line `startxref` closes it,
/// and the line behind it is the line of the offset.
pub proof fn lemma_tail_found(
    s: Seq<u8>,
    head: Seq<u8>,
    start: Seq<u8>,
    free: EntryLine,
    used: EntryLine,
    dictionary: Seq<u8>,
    offset: Seq<u8>,
)
    requires
        has_at(s, 0, head),
        marker_free(head),
        five_lines(s, head.len() as int, start, free, used),
        dictionary.len() > 0,
        dictionary[0] == 0x3c,
        forall|i: int| 0 <= i < dictionary.len() ==> #[trigger] dictionary[i] != 0x0a,
        is_unsigned_literal(offset),
        ({
            let te = head.len() + section_len(start, free, used);
            let sx = te + dictionary.len() + 1;
            let ol = sx + 10;
            &&& has_at(s, te, dictionary)
            &&& s[te + dictionary.len()] == 0x0a
            &&& has_at(s, sx, word_startxref())
            &&& s[sx + 9] == 0x0a
            &&& has_at(s, ol, offset)
            &&& ol + offset.len() < s.len()
            &&& s[ol + offset.len()] == 0x0a
        }),
    ensures
        ({
            let ol = head.len() + section_len(start, free, used) + dictionary.len() + 11;
            tail_from(s, 0, false, false, seq![]) == Some(
                TailScan {
                    trailer: dictionary,
                    seen_trailer: true,
                    line_start: ol,
                    line_stop: ol + offset.len(),
                },
            )
        }),
{
    let h = head.len() as int;
    let he = header_end(start, two());
    let first = h + he;
    let second = first + line_text(free).len();
    let last = second + line_text(used).len();
    let te = h + section_len(start, free, used);
    let sx = te + dictionary.len() + 1;
    let ol = sx + 10;
    let none = Seq::<u8>::empty();
    // the bytes without markers
    assert(h == 0 || s[h - 1] == 0x0a) by {
        if h > 0 {
            lemma_has_at_bytes(s, 0, head);
            assert(s[0int + (h - 1)] == head[h - 1]);
        }
    }
    lemma_tail_pass_head(s, head, 0, none);
    // the four lines before the line `trailer`
    lemma_no_marker(s, h, h + 4);
    lemma_tail_pass(s, h, h + 4, none);
    lemma_no_marker(s, h + 5, first - 1);
    lemma_tail_pass(s, h + 5, first - 1, none);
    lemma_no_marker(s, first, second - 1);
    lemma_tail_pass(s, first, second - 1, none);
    lemma_no_marker(s, second, last - 1);
    lemma_tail_pass(s, second, last - 1, none);
    // the line `trailer`
    assert(tail_from(s, last, false, false, none) == tail_from(s, te, true, false, none));
    // the one line of the dictionary
    lemma_has_at_bytes(s, te, dictionary);
    assert(s[te + 0] == dictionary[0]);
    assert forall|i: int| te <= i < te + dictionary.len() implies #[trigger] s[i] != 0x0a by {
        assert(s[te + (i - te)] == dictionary[i - te]);
    }
    lemma_line_stop_to(s, te, te + dictionary.len());
    lemma_no_marker(s, te, te + dictionary.len());
    assert(none + s.subrange(te, te + dictionary.len()) =~= dictionary);
    assert(tail_from(s, te, true, false, none) == tail_from(s, sx, true, false, dictionary));
    // the line `startxref`
    lemma_has_at_bytes(s, sx, word_startxref());
    assert(word_startxref().len() == 9);
    assert forall|i: int| sx <= i < sx + 9 implies #[trigger] s[i] != 0x0a by {
        assert(s[sx + (i - sx)] == word_startxref()[i - sx]);
    }
    lemma_line_stop_to(s, sx, sx + 9);
    assert(word_startxref() != word_trailer()) by {
        assert(word_trailer().len() == 7);
    }
    assert(tail_from(s, sx, true, false, dictionary) == tail_from(s, ol, true, true, dictionary));
    // the line of the offset
    lemma_digits_plain(s, ol, offset);
    lemma_line_stop_to(s, ol, ol + offset.len());
    lemma_no_marker(s, ol, ol + offset.len());
}

/// Whether the parts of a minimal file stand in `s` one behind the other:
/// the bytes without markers, the section, the line of the dictionary, the
/// line `startxref` and the line of the offset.
pub open spec fn file_shaped(
    s: Seq<u8>,
    head: Seq<u8>,
    section: Seq<u8>,
    dictionary: Seq<u8>,
    offset: Seq<u8>,
) -> bool {
    let te: int = head.len() as int + section.len();
    let sx: int = te + dictionary.len() + 1;
    let ol: int = sx + 10;
    &&& has_at(s, 0, head)
    &&& has_at(s, head.len() as int, section)
    &&& has_at(s, te, dictionary)
    &&& s[te + dictionary.len()] == 0x0a
    &&& has_at(s, sx, word_startxref())
    &&& s[sx + 9] == 0x0a
    &&& has_at(s, ol, offset)
    &&& ol + offset.len() < s.len()
    &&& s[ol + offset.len()] == 0x0a
}

/// The lines behind the section stand where the text of them stands.
pub proof fn lemma_tail_shape(
    s: Seq<u8>,
    te: int,
    dictionary: Seq<u8>,
    offset: Seq<u8>,
    foot: Seq<u8>,
)
    requires
        has_at(s, te, tail_text(dictionary, offset, foot)),
    ensures
        has_at(s, te, dictionary),
        s[te + dictionary.len()] == 0x0a,
        has_at(s, te + dictionary.len() + 1, word_startxref()),
        s[te + dictionary.len() + 10] == 0x0a,
        has_at(s, te + dictionary.len() + 11, offset),
        te + dictionary.len() + 11 + offset.len() < s.len(),
        s[te + dictionary.len() + 11 + offset.len()] == 0x0a,
{
    reveal(tail_text);
    let sx: int = te + dictionary.len() + 1;
    let ol: int = sx + 10;
    let behind_offset = seq![0x0au8] + foot;
    let behind_marker = offset + behind_offset;
    let behind_word = seq![0x0au8] + behind_marker;
    let behind_feed = word_startxref() + behind_word;
    let behind_dictionary = seq![0x0au8] + behind_feed;
    assert(word_startxref().len() == 9);
    lemma_has_at_split(s, te, dictionary, behind_dictionary);
    lemma_feed_split(s, te + dictionary.len(), behind_feed);
    lemma_has_at_split(s, sx, word_startxref(), behind_word);
    lemma_feed_split(s, sx + 9, behind_marker);
    lemma_has_at_split(s, ol, offset, behind_offset);
    lemma_feed_split(s, ol + offset.len(), foot);
}

/// Where a line feed and a text stand one behind the other, the line feed
/// stands and the text stands behind it.
pub proof fn lemma_feed_split(s: Seq<u8>, p: int, rest: Seq<u8>)
    requires
        has_at(s, p, seq![0x0au8] + rest),
    ensures
        0 <= p < s.len(),
        s[p] == 0x0a,
        has_at(s, p + 1, rest),
{
    lemma_has_at_split(s, p, seq![0x0au8], rest);
    lemma_has_at_bytes(s, p, seq![0x0au8]);
    assert(s[p + 0] == seq![0x0au8][0]);
}

/// The parts of a text stand in it one behind the other.
pub proof fn lemma_parts_shape(
    head: Seq<u8>,
    section: Seq<u8>,
    dictionary: Seq<u8>,
    offset: Seq<u8>,
    foot: Seq<u8>,
)
    ensures
        file_shaped(
            head + (section + tail_text(dictionary, offset, foot)),
            head,
            section,
            dictionary,
            offset,
        ),
{
    let tail = tail_text(dictionary, offset, foot);
    let s = head + (section + tail);
    assert(has_at(s, 0, head + (section + tail))) by {
        assert(s.subrange(0, s.len() as int) =~= s);
    }
    lemma_has_at_split(s, 0, head, section + tail);
    lemma_has_at_split(s, head.len() as int, section, tail);
    lemma_tail_shape(s, head.len() as int + section.len(), dictionary, offset, foot);
}

/// The parts of a minimal file stand in it one behind the other.
pub proof fn lemma_file_shape(
    head: Seq<u8>,
    start: Seq<u8>,
    free: EntryLine,
    used: EntryLine,
    trailer: DictNode,
    offset: Seq<u8>,
    foot: Seq<u8>,
)
    ensures
        file_shaped(
            minimal_file(head, start, free, used, trailer, offset, foot),
            head,
            section_of(start, two(), two_lines(free, used)),
            rendered(trailer),
            offset,
        ),
{
    reveal(minimal_file);
    assert(two_lines(free, used) == seq![free, used]);
    lemma_parts_shape(
        head,
        section_of(start, two(), two_lines(free, used)),
        rendered(trailer),
        offset,
        foot,
    );
}

/// The window at the end of a file with the parts of a minimal file holds
/// the trailer and the offset of the section.
pub proof fn lemma_minimal_trailer(
    s: Seq<u8>,
    head: Seq<u8>,
    start: Seq<u8>,
    free: EntryLine,
    used: EntryLine,
    trailer: DictNode,
    offset: Seq<u8>,
)
    requires
        file_shaped(s, head, section_of(start, two(), two_lines(free, used)), rendered(trailer), offset),
        marker_free(head),
        is_unsigned_literal(start),
        line_ok(free),
        line_ok(used),
        trailer is Dict,
        renderable(trailer),
        nesting(trailer) <= MAX_DEPTH,
        forall|i: int| 0 <= i < rendered(trailer).len() ==> #[trigger] rendered(trailer)[i] != 0x0a,
        is_field(offset),
        s.len() <= usize::MAX,
    ensures
        trailer_of(s) == Ok::<(Cos, u64), PdfError>((trailer@, digits_value(offset) as u64)),
{
    let dictionary = rendered(trailer);
    let h = head.len() as int;
    lemma_five_lines(s, h, start, free, used);
    assert(dictionary.len() > 0 && dictionary[0] == 0x3c);
    lemma_tail_found(s, head, start, free, used, dictionary, offset);
    let ol = h + section_len(start, free, used) + dictionary.len() + 11;
    assert(s.subrange(ol, ol + offset.len()) == offset);
    assert(located_tail(s) == Ok::<(Seq<u8>, u64), PdfError>(
        (dictionary, digits_value(offset) as u64),
    ));
    lemma_round_trip(trailer);
}

/// The bytes from the section of a minimal file on hold the table of its
/// two entries.
pub proof fn lemma_minimal_xref(t: Seq<u8>, start: Seq<u8>, free: EntryLine, used: EntryLine)
    requires
        has_at(t, 0, section_of(start, two(), two_lines(free, used))),
        is_unsigned_literal(start),
        line_ok(free),
        line_ok(used),
        t.len() <= usize::MAX,
    ensures
        xref_of(t) == Ok::<Seq<XRefEntry>, PdfError>(seq![entry_of(free), entry_of(used)]),
{
    let lines = two_lines(free, used);
    lemma_five_lines(t, 0, start, free, used);
    lemma_section_gathered(t, start, free, used);
    assert(is_field(two()) && digits_value(two()) == 2) by {
        assert(two().drop_last() =~= Seq::<u8>::empty());
        assert(digits_value(two().drop_last()) == 0);
    }
    assert forall|k: int| 0 <= k < lines.len() implies line_ok(#[trigger] lines[k]) by {}
    lemma_section_read(start, two(), lines);
    assert(entries_of(lines) =~= seq![entry_of(free), entry_of(used)]);
}

/// The bootstrap of a minimal file gives its trailer dictionary and the
/// table of its two entries.  The file holds any bytes in which no marker
/// occurs, then at the offset that its last lines name a section with a
/// count of 2, whose two lines may be free or used, then a trailer
/// dictionary on one line that reads back, the line `startxref`, the line of
/// the offset, and any bytes behind that; it is no longer than the window
/// that is scanned.
pub proof fn lemma_minimal_bootstrap(
    head: Seq<u8>,
    start: Seq<u8>,
    free: EntryLine,
    used: EntryLine,
    trailer: DictNode,
    offset: Seq<u8>,
    foot: Seq<u8>,
)
    requires
        marker_free(head),
        is_unsigned_literal(start),
        line_ok(free),
        line_ok(used),
        trailer is Dict,
        renderable(trailer),
        nesting(trailer) <= MAX_DEPTH,
        forall|i: int| 0 <= i < rendered(trailer).len() ==> #[trigger] rendered(trailer)[i] != 0x0a,
        is_field(offset),
        digits_value(offset) == head.len(),
        minimal_file(head, start, free, used, trailer, offset, foot).len() <= CHUNK_SIZE,
    ensures
        metadata_of(minimal_file(head, start, free, used, trailer, offset, foot)) == Ok::<
            (Cos, Seq<XRefEntry>),
            PdfError,
        >((trailer@, seq![entry_of(free), entry_of(used)])),
{
    let s = minimal_file(head, start, free, used, trailer, offset, foot);
    let section = section_of(start, two(), two_lines(free, used));
    let h = head.len() as int;
    lemma_file_shape(head, start, free, used, trailer, offset, foot);
    lemma_minimal_trailer(s, head, start, free, used, trailer, offset);
    assert(s.subrange(0, s.len() as int) =~= s);
    let t = s.subrange(h, s.len() as int);
    assert(has_at(t, 0, section)) by {
        assert(t.subrange(0, section.len() as int) =~= s.subrange(h, h + section.len()));
    }
    lemma_minimal_xref(t, start, free, used);
}

} // verus!
