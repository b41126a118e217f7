//! The text of a cross-reference section, and what reading it gives: for
//! every header and every number of well-formed entry lines, the entries of
//! the lines, in their order.

use vstd::prelude::*;
use crate::error::PdfError;
use crate::lex::{has_at, is_digit};
use crate::number::{digits_value, is_unsigned_literal};
use crate::roundtrip::{
    holds, lemma_digit_run_to, lemma_has_at_bytes, lemma_has_at_split, lemma_holds_split,
    lemma_holds_tokens,
};
use crate::xref::{
    begin_at, built_entries, built_table, entries_from, entry_at, finish_at, header_at, is_pad,
    layout_end, lead_end, lexeme, line_trailer, line_xref, number_at, number_of, opens_section,
    pad_end, parsed_xref, tok, xref_at, Piece, Rule, Token, XRefEntry,
};

verus! {

/// One entry line as it is written: the digits of the offset, the digits of
/// the generation, and whether the flag is `f`.
pub ghost struct EntryLine {
    pub offset: Seq<u8>,
    pub generation: Seq<u8>,
    pub free: bool,
}

/// Digits that denote a number within `u64`.
pub open spec fn is_field(d: Seq<u8>) -> bool {
    is_unsigned_literal(d) && digits_value(d) <= u64::MAX
}

/// Whether both numbers of a line are fields.
pub open spec fn line_ok(l: EntryLine) -> bool {
    is_field(l.offset) && is_field(l.generation)
}

/// The flag of a line: `f` or `n`.
pub open spec fn flag_of(l: EntryLine) -> u8 {
    if l.free {
        0x66
    } else {
        0x6e
    }
}

/// The text of a line: offset, space, generation, space, flag, space, line feed.
pub open spec fn line_text(l: EntryLine) -> Seq<u8> {
    l.offset + seq![0x20u8] + l.generation + seq![0x20u8, flag_of(l), 0x20u8, 0x0au8]
}

/// The texts of lines, one behind the other.
pub open spec fn lines_text(lines: Seq<EntryLine>) -> Seq<u8>
    decreases lines.len(),
{
    if lines.len() == 0 {
        seq![]
    } else {
        line_text(lines[0]) + lines_text(lines.drop_first())
    }
}

/// The text of a section: the line `xref`, the header with the digits of the
/// first object number and of the count, the lines, the line `trailer`.
#[verifier::opaque]
pub open spec fn section_of(start: Seq<u8>, count: Seq<u8>, lines: Seq<EntryLine>) -> Seq<u8> {
    line_xref() + (start + (seq![0x20u8] + (count + (seq![0x0au8] + (lines_text(lines)
        + line_trailer())))))
}

/// The entry that a line denotes.
pub open spec fn entry_of(l: EntryLine) -> XRefEntry {
    XRefEntry {
        offset: digits_value(l.offset) as u64,
        generation_id: digits_value(l.generation) as u64,
        is_free: l.free,
    }
}

/// The entries that lines denote, in the order of the lines.
pub open spec fn entries_of(lines: Seq<EntryLine>) -> Seq<XRefEntry> {
    Seq::new(lines.len(), |k: int| entry_of(lines[k]))
}

/// The tokens of a line that stands at `p`.
pub open spec fn line_tokens(l: EntryLine, p: int) -> Seq<Token> {
    let g = p + l.offset.len() + 1;
    let u = g + l.generation.len() + 1;
    seq![
        tok(Rule::XrefEntry, p, u + 3),
        tok(Rule::Integer, p, p + l.offset.len()),
        tok(Rule::Integer, g, g + l.generation.len()),
        tok(Rule::Usage, u, u + 1),
    ]
}

/// The tokens of lines that stand at `p`, one behind the other.
pub open spec fn lines_tokens(lines: Seq<EntryLine>, p: int) -> Seq<Token>
    decreases lines.len(),
{
    if lines.len() == 0 {
        seq![]
    } else {
        line_tokens(lines[0], p) + lines_tokens(lines.drop_first(), p + line_text(lines[0]).len())
    }
}

/// No spaces or tabs are passed over at a byte that is neither, and no
/// empty lines either where that byte is no line feed.
pub proof fn lemma_pad_none(s: Seq<u8>, p: int)
    requires
        0 <= p <= s.len(),
        p < s.len() ==> !is_pad(s[p]),
    ensures
        pad_end(s, p) == p,
        p == s.len() || s[p] != 0x0a ==> lead_end(s, p) == p && layout_end(s, p) == p,
{
}

/// One space before a byte that is neither space nor tab is passed over.
pub proof fn lemma_pad_one(s: Seq<u8>, p: int)
    requires
        0 <= p < s.len(),
        s[p] == 0x20,
        p + 1 < s.len() ==> !is_pad(s[p + 1]),
    ensures
        pad_end(s, p) == p + 1,
{
    assert(pad_end(s, p + 1) == p + 1);
}

/// Digits with a byte behind them that is no digit are read as one number.
pub proof fn lemma_number_in_context(s: Seq<u8>, p: int, d: Seq<u8>)
    requires
        has_at(s, p, d),
        is_unsigned_literal(d),
        p + d.len() < s.len() ==> !is_digit(s[p + d.len()]),
    ensures
        number_at(s, p) == Some(p + d.len()),
        is_digit(s[p]),
{
    lemma_has_at_bytes(s, p, d);
    assert forall|i: int| p <= i < p + d.len() implies is_digit(#[trigger] s[i]) by {
        assert(s[p + (i - p)] == d[i - p]);
    }
    assert(s[p + 0] == d[0]);
    lemma_digit_run_to(s, p, p + d.len());
}

/// A line is read as one entry with the tokens of the line.
pub proof fn lemma_line_read(l: EntryLine, s: Seq<u8>, p: int)
    requires
        line_ok(l),
        has_at(s, p, line_text(l)),
    ensures
        entry_at(s, p) == Some(
            Piece { tokens: line_tokens(l, p), end: p + line_text(l).len() },
        ),
        pad_end(s, p) == p,
        has_at(s, p, l.offset),
        has_at(s, p + l.offset.len() + 1, l.generation),
        s[p + l.offset.len() + 1 + l.generation.len() + 1] == flag_of(l),
{
    let t = line_text(l);
    let g = p + l.offset.len() + 1;
    let u = g + l.generation.len() + 1;
    let tail = seq![0x20u8, flag_of(l), 0x20u8, 0x0au8];
    lemma_has_at_bytes(s, p, t);
    assert(t =~= l.offset + (seq![0x20u8] + l.generation + tail));
    lemma_has_at_split(s, p, l.offset, seq![0x20u8] + l.generation + tail);
    assert(t =~= (l.offset + seq![0x20u8]) + (l.generation + tail));
    lemma_has_at_split(s, p, l.offset + seq![0x20u8], l.generation + tail);
    lemma_has_at_split(s, g, l.generation, tail);
    lemma_has_at_bytes(s, u - 1, tail);
    assert(s[p + l.offset.len()] == t[l.offset.len() as int]);
    assert(s[u - 1 + 0] == tail[0]);
    assert(s[u - 1 + 1] == tail[1]);
    assert(s[u - 1 + 2] == tail[2]);
    assert(s[u - 1 + 3] == tail[3]);
    lemma_number_in_context(s, p, l.offset);
    lemma_number_in_context(s, g, l.generation);
    lemma_pad_none(s, p);
    lemma_pad_one(s, p + l.offset.len());
    lemma_pad_one(s, u - 1);
    lemma_pad_none(s, u);
    lemma_pad_one(s, u + 1);
}

/// Lines with the line `trailer` behind them are read as entries up to that line.
pub proof fn lemma_lines_read(lines: Seq<EntryLine>, s: Seq<u8>, p: int)
    requires
        forall|k: int| 0 <= k < lines.len() ==> line_ok(#[trigger] lines[k]),
        has_at(s, p, lines_text(lines)),
        p + lines_text(lines).len() < s.len(),
        s[p + lines_text(lines).len()] == 0x74,
    ensures
        entries_from(s, p) == (Piece {
            tokens: lines_tokens(lines, p),
            end: p + lines_text(lines).len(),
        }),
    decreases lines.len(),
{
    if lines.len() == 0 {
        lemma_pad_none(s, p);
        assert(number_at(s, p) is None);
    } else {
        let first = lines[0];
        let rest = lines.drop_first();
        assert(line_ok(first));
        assert forall|k: int| 0 <= k < rest.len() implies line_ok(#[trigger] rest[k]) by {
            assert(rest[k] == lines[k + 1]);
        }
        lemma_has_at_split(s, p, line_text(first), lines_text(rest));
        lemma_line_read(first, s, p);
        lemma_lines_read(rest, s, p + line_text(first).len());
    }
}

/// The entries that are built from the tokens of lines are the entries of
/// the lines, behind what was there.
pub proof fn lemma_lines_built(
    lines: Seq<EntryLine>,
    s: Seq<u8>,
    p: int,
    q: Seq<Token>,
    j: int,
    acc: Seq<XRefEntry>,
)
    requires
        forall|k: int| 0 <= k < lines.len() ==> line_ok(#[trigger] lines[k]),
        has_at(s, p, lines_text(lines)),
        s.len() <= usize::MAX,
        holds(q, j, lines_tokens(lines, p)),
        j + lines_tokens(lines, p).len() < q.len(),
        q[j + lines_tokens(lines, p).len()].rule == Rule::XrefEnd,
    ensures
        built_entries(s, q, j, acc) == Ok::<Seq<XRefEntry>, PdfError>(acc + entries_of(lines)),
    decreases lines.len(),
{
    if lines.len() == 0 {
        assert(acc + entries_of(lines) =~= acc);
    } else {
        let first = lines[0];
        let rest = lines.drop_first();
        let g = p + first.offset.len() + 1;
        let u = g + first.generation.len() + 1;
        assert(line_ok(first));
        assert forall|k: int| 0 <= k < rest.len() implies line_ok(#[trigger] rest[k]) by {
            assert(rest[k] == lines[k + 1]);
        }
        lemma_has_at_split(s, p, line_text(first), lines_text(rest));
        lemma_line_read(first, s, p);
        let t0 = line_tokens(first, p);
        let tr = lines_tokens(rest, p + line_text(first).len());
        lemma_holds_split(q, j, t0, tr);
        lemma_holds_tokens(q, j, t0);
        assert(q[j + 0] == t0[0]);
        assert(q[j + 1] == t0[1]);
        assert(q[j + 2] == t0[2]);
        assert(q[j + 3] == t0[3]);
        assert(lexeme(s, q[j + 1]) == first.offset);
        assert(lexeme(s, q[j + 2]) == first.generation);
        assert(lexeme(s, q[j + 3]) =~= seq![flag_of(first)]);
        assert(number_of(s, q[j + 1]) == Ok::<u64, PdfError>(digits_value(first.offset) as u64));
        assert(number_of(s, q[j + 2]) == Ok::<u64, PdfError>(
            digits_value(first.generation) as u64,
        ));
        assert((lexeme(s, q[j + 3]) == seq![0x66u8]) == first.free) by {
            assert(seq![flag_of(first)][0] == flag_of(first));
        }
        lemma_lines_built(rest, s, p + line_text(first).len(), q, j + 4, acc.push(entry_of(first)));
        assert(acc.push(entry_of(first)) + entries_of(rest) =~= acc + entries_of(lines)) by {
            assert forall|k: int| 0 <= k < rest.len() implies entries_of(rest)[k] == entries_of(
                lines,
            )[k + 1] by {
                assert(rest[k] == lines[k + 1]);
            }
        }
    }
}

/// Where the header ends in the text of a section.
pub open spec fn header_end(start: Seq<u8>, count: Seq<u8>) -> int {
    5int + start.len() + 1 + count.len() + 1
}

/// The tokens of the text of a section.
pub open spec fn section_tokens(start: Seq<u8>, count: Seq<u8>, lines: Seq<EntryLine>) -> Seq<
    Token,
> {
    let c: int = 5int + start.len() + 1;
    let he = header_end(start, count);
    let fe = he + lines_text(lines).len();
    seq![
        tok(Rule::Xref, 0, fe + 8),
        tok(Rule::XrefBegin, 0, 5),
        tok(Rule::XrefHeader, 5, he),
        tok(Rule::Integer, 5, 5int + start.len()),
        tok(Rule::Integer, c, c + count.len()),
    ] + lines_tokens(lines, he) + seq![tok(Rule::XrefEnd, fe, fe + 8)]
}

/// Whether the parts of a section stand in `s` one behind the other: the
/// line `xref`, the header, the lines, the line `trailer`.
pub open spec fn shaped(s: Seq<u8>, start: Seq<u8>, count: Seq<u8>, lines: Seq<EntryLine>) -> bool {
    let c: int = 5int + start.len() + 1;
    let he = header_end(start, count);
    let fe = he + lines_text(lines).len();
    &&& s.len() == fe + 8
    &&& has_at(s, 0, line_xref())
    &&& has_at(s, 5, start)
    &&& s[5int + start.len()] == 0x20
    &&& has_at(s, c, count)
    &&& s[c + count.len()] == 0x0a
    &&& has_at(s, he, lines_text(lines))
    &&& has_at(s, fe, line_trailer())
    &&& s[fe] == 0x74
}

/// The parts of a section stand in its text one behind the other.
pub proof fn lemma_section_shape(start: Seq<u8>, count: Seq<u8>, lines: Seq<EntryLine>)
    ensures
        shaped(section_of(start, count, lines), start, count, lines),
{
    reveal(section_of);
    let s = section_of(start, count, lines);
    let x = lines_text(lines);
    let c: int = 5int + start.len() + 1;
    let he = header_end(start, count);
    let fe = he + x.len();
    let behind_lines = x + line_trailer();
    let behind_count = seq![0x0au8] + behind_lines;
    let behind_space = count + behind_count;
    let behind_start = seq![0x20u8] + behind_space;
    let behind_xref = start + behind_start;
    assert(line_xref().len() == 5 && line_trailer().len() == 8);
    assert(s.subrange(0, s.len() as int) =~= s);
    lemma_has_at_split(s, 0, line_xref(), behind_xref);
    lemma_has_at_split(s, 5, start, behind_start);
    lemma_has_at_split(s, 5int + start.len(), seq![0x20u8], behind_space);
    lemma_has_at_split(s, c, count, behind_count);
    lemma_has_at_split(s, c + count.len(), seq![0x0au8], behind_lines);
    lemma_has_at_split(s, he, x, line_trailer());
    lemma_has_at_bytes(s, 5int + start.len(), seq![0x20u8]);
    lemma_has_at_bytes(s, c + count.len(), seq![0x0au8]);
    lemma_has_at_bytes(s, fe, line_trailer());
    assert(s[5int + start.len() + 0] == seq![0x20u8][0]);
    assert(s[c + count.len() + 0] == seq![0x0au8][0]);
    assert(s[fe + 0] == line_trailer()[0]);
}

/// The grammar reads a text with the parts of a section as one section.
pub proof fn lemma_section_grammar(
    s: Seq<u8>,
    start: Seq<u8>,
    count: Seq<u8>,
    lines: Seq<EntryLine>,
)
    requires
        shaped(s, start, count, lines),
        is_unsigned_literal(start),
        is_unsigned_literal(count),
        forall|k: int| 0 <= k < lines.len() ==> line_ok(#[trigger] lines[k]),
    ensures
        xref_at(s, 0) == Ok::<Piece, int>(
            Piece { tokens: section_tokens(start, count, lines), end: s.len() as int },
        ),
        layout_end(s, s.len() as int) == s.len(),
{
    let c: int = 5int + start.len() + 1;
    let he = header_end(start, count);
    let fe = he + lines_text(lines).len();
    assert(begin_at(s, 0) == Some(Piece { tokens: seq![tok(Rule::XrefBegin, 0, 5)], end: 5 })) by {
        lemma_has_at_bytes(s, 0, line_xref());
        assert(s[0int + 0] == line_xref()[0]);
        lemma_pad_none(s, 0);
    }
    assert(pad_end(s, 5) == 5 && header_at(s, 5) == Some(
        Piece {
            tokens: seq![
                tok(Rule::XrefHeader, 5, he),
                tok(Rule::Integer, 5, 5int + start.len()),
                tok(Rule::Integer, c, c + count.len()),
            ],
            end: he,
        },
    )) by {
        lemma_number_in_context(s, 5, start);
        lemma_number_in_context(s, c, count);
        lemma_pad_none(s, 5);
        lemma_pad_one(s, 5int + start.len());
        lemma_pad_none(s, c + count.len());
    }
    assert(entries_from(s, he) == (Piece { tokens: lines_tokens(lines, he), end: fe })) by {
        lemma_lines_read(lines, s, he);
    }
    assert(pad_end(s, fe) == fe && finish_at(s, fe) == Some(
        Piece { tokens: seq![tok(Rule::XrefEnd, fe, fe + 8)], end: fe + 8 },
    )) by {
        lemma_pad_none(s, fe);
    }
    assert(layout_end(s, s.len() as int) == s.len()) by {
        lemma_pad_none(s, s.len() as int);
    }
    assert(xref_at(s, 0) is Ok);
    assert(xref_at(s, 0)->Ok_0.end == s.len());
    assert(xref_at(s, 0)->Ok_0.tokens =~= section_tokens(start, count, lines));
}

/// The table that is built from the tokens of a section holds the entries
/// of its lines, and the count of the header is the number that its digits
/// denote.
pub proof fn lemma_section_table(
    s: Seq<u8>,
    start: Seq<u8>,
    count: Seq<u8>,
    lines: Seq<EntryLine>,
)
    requires
        shaped(s, start, count, lines),
        is_field(count),
        forall|k: int| 0 <= k < lines.len() ==> line_ok(#[trigger] lines[k]),
        s.len() <= usize::MAX,
    ensures
        built_table(s, section_tokens(start, count, lines)) == Ok::<Seq<XRefEntry>, PdfError>(
            entries_of(lines),
        ),
        number_of(s, section_tokens(start, count, lines)[4]) == Ok::<u64, PdfError>(
            digits_value(count) as u64,
        ),
{
    let c: int = 5int + start.len() + 1;
    let he = header_end(start, count);
    let fe = he + lines_text(lines).len();
    let head = seq![
        tok(Rule::Xref, 0, fe + 8),
        tok(Rule::XrefBegin, 0, 5),
        tok(Rule::XrefHeader, 5, he),
        tok(Rule::Integer, 5, 5int + start.len()),
        tok(Rule::Integer, c, c + count.len()),
    ];
    let rows = lines_tokens(lines, he);
    let tail = seq![tok(Rule::XrefEnd, fe, fe + 8)];
    let tokens = section_tokens(start, count, lines);
    let z = 0int;
    let fi = 5 + rows.len() as int;
    assert(tokens == head + rows + tail);
    assert(holds(tokens, 5, rows) && tokens[z + 0] == head[0] && tokens[z + 1] == head[1]
        && tokens[z + 2] == head[2] && tokens[z + 3] == head[3] && tokens[z + 4] == head[4]
        && tokens[fi] == tail[0] && tokens.len() == fi + 1) by {
        assert(tokens.subrange(0, tokens.len() as int) =~= tokens);
        lemma_holds_split(tokens, 0, head + rows, tail);
        lemma_holds_split(tokens, 0, head, rows);
        lemma_holds_tokens(tokens, 0, head);
        lemma_holds_tokens(tokens, fi, tail);
        assert(tokens[fi + 0] == tail[0]);
    }
    assert(opens_section(tokens));
    lemma_lines_built(lines, s, he, tokens, 5, seq![]);
    assert(Seq::<XRefEntry>::empty() + entries_of(lines) =~= entries_of(lines));
    assert(lexeme(s, tokens[4]) == count);
}

/// Reading a text with the parts of a section gives the entries of its lines.
pub proof fn lemma_shaped_read(s: Seq<u8>, start: Seq<u8>, count: Seq<u8>, lines: Seq<EntryLine>)
    requires
        shaped(s, start, count, lines),
        is_unsigned_literal(start),
        is_field(count),
        digits_value(count) == lines.len(),
        forall|k: int| 0 <= k < lines.len() ==> line_ok(#[trigger] lines[k]),
        s.len() <= usize::MAX,
    ensures
        parsed_xref(s) == Ok::<Seq<XRefEntry>, PdfError>(entries_of(lines)),
{
    lemma_section_grammar(s, start, count, lines);
    lemma_section_table(s, start, count, lines);
}

/// Reading the text of a section gives the entries of its lines: for every
/// header whose count is the number of the lines, and for every number of
/// lines whose offsets and generations fit `u64`, the table has one entry
/// for each line, in the order of the lines, with the numbers that the digits
/// denote and the flag of the line.  A section without lines gives the empty
/// table.
pub proof fn lemma_section_read(start: Seq<u8>, count: Seq<u8>, lines: Seq<EntryLine>)
    requires
        is_unsigned_literal(start),
        is_field(count),
        digits_value(count) == lines.len(),
        forall|k: int| 0 <= k < lines.len() ==> line_ok(#[trigger] lines[k]),
        section_of(start, count, lines).len() <= usize::MAX,
    ensures
        parsed_xref(section_of(start, count, lines)) == Ok::<Seq<XRefEntry>, PdfError>(
            entries_of(lines),
        ),
{
    lemma_section_shape(start, count, lines);
    lemma_shaped_read(section_of(start, count, lines), start, count, lines);
}

} // verus!
