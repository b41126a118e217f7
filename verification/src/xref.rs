//! The classic cross-reference table: the grammar of one section, the
//! entries it lists, and the function that reads a section from its text.
//!
//! A section is the line `xref`, a header line with the first object number
//! and the number of entries, one line for each entry with its offset, its
//! generation and `f` or `n`, and the line `trailer`.  Spaces and tabs may
//! stand between the parts of a line, and empty lines before a line.

use vstd::prelude::*;
use vstd::slice::slice_subrange;
use crate::error::{Expected, PdfError};
use crate::lex::{digit_run_end, has_at, scan_digits, starts_with_at};
use crate::number::{digits_value, is_unsigned_literal, parse_u64};
use crate::parser::StringInput;

verus! {

/// One entry of the table.
#[derive(Clone, Copy, Debug, PartialEq, Eq, Structural)]
pub struct XRefEntry {
    /// The byte offset of the object in the file.
    pub offset: u64,
    pub generation_id: u64,
    pub is_free: bool,
}

/// The entries of a table, in the order of the file.  The entry at index `i`
/// is that of object number `i`.
#[derive(Clone, Debug)]
pub struct XRefTable(pub Vec<XRefEntry>);

impl View for XRefTable {
    type V = Seq<XRefEntry>;

    open spec fn view(&self) -> Seq<XRefEntry> {
        self.0@
    }
}

impl XRefTable {
    /// Whether two tables hold the same entries in the same order.
    pub fn same(&self, other: &XRefTable) -> (r: bool)
        ensures
            r == (self@ == other@),
    {
        if self.0.len() != other.0.len() {
            return false;
        }
        let mut i: usize = 0;
        while i < self.0.len()
            invariant
                i <= self.0.len(),
                self.0.len() == other.0.len(),
                forall|j: int| 0 <= j < i ==> self.0@[j] == other.0@[j],
            decreases self.0.len() - i,
        {
            if self.0[i] != other.0[i] {
                return false;
            }
            i += 1;
        }
        assert(self@ =~= other@);
        true
    }

    /// The number of entries.
    pub fn len(&self) -> (n: usize)
        ensures
            n == self@.len(),
    {
        self.0.len()
    }

    /// The entry of object number `id`.
    pub fn entry(&self, id: usize) -> (e: Option<XRefEntry>)
        ensures
            e == (if id < self@.len() {
                Some(self@[id as int])
            } else {
                None
            }),
    {
        if id < self.0.len() {
            Some(self.0[id])
        } else {
            None
        }
    }
}

impl PartialEq for XRefTable {
    fn eq(&self, other: &XRefTable) -> (r: bool) {
        self.same(other)
    }
}

impl vstd::std_specs::cmp::PartialEqSpecImpl for XRefTable {
    open spec fn obeys_eq_spec() -> bool {
        true
    }

    open spec fn eq_spec(&self, other: &XRefTable) -> bool {
        self@ == other@
    }
}

/// The productions that leave a token.
#[derive(Clone, Copy, Debug, PartialEq, Eq, Structural)]
pub enum Rule {
    Xref,
    XrefBegin,
    XrefEnd,
    XrefHeader,
    XrefEntry,
    Usage,
    Integer,
}

/// One node of the parse tree: the production and the bytes it spans.
#[derive(Clone, Copy, Debug, PartialEq, Eq, Structural)]
pub struct Token {
    pub rule: Rule,
    pub start: usize,
    pub end: usize,
}

impl Token {
    /// The token of `rule` over the bytes from `start` to `end`.
    pub fn new(rule: Rule, start: usize, end: usize) -> (t: Token)
        ensures
            t == (Token { rule, start, end }),
    {
        Token { rule, start, end }
    }
}

/// The token of `rule` over the bytes from `start` to `end`.
pub open spec fn tok(rule: Rule, start: int, end: int) -> Token {
    Token { rule, start: start as usize, end: end as usize }
}

/// What a production matches: its tokens and the position behind it.
pub ghost struct Piece {
    pub tokens: Seq<Token>,
    pub end: int,
}

/// The bytes of the line `xref`.
pub open spec fn line_xref() -> Seq<u8> {
    seq![0x78u8, 0x72u8, 0x65u8, 0x66u8, 0x0au8]
}

/// The bytes of the line `trailer`.
pub open spec fn line_trailer() -> Seq<u8> {
    seq![0x74u8, 0x72u8, 0x61u8, 0x69u8, 0x6cu8, 0x65u8, 0x72u8, 0x0au8]
}

/// Space or tab.
pub open spec fn is_pad(b: u8) -> bool {
    b == 0x20 || b == 0x09
}

/// The end of the run of spaces and tabs at `pos`.
pub open spec fn pad_end(s: Seq<u8>, pos: int) -> int
    decreases s.len() - pos,
{
    if 0 <= pos < s.len() && is_pad(s[pos]) {
        pad_end(s, pos + 1)
    } else {
        pos
    }
}

/// The position behind the empty lines at `pos` and the spaces and tabs
/// that follow them.
pub open spec fn lead_end(s: Seq<u8>, pos: int) -> int
    decreases s.len() - pos,
{
    if 0 <= pos < s.len() && s[pos] == 0x0a && pos < pad_end(s, pos + 1) <= s.len() {
        lead_end(s, pad_end(s, pos + 1))
    } else {
        pad_end(s, pos)
    }
}

/// The end of the run of spaces, tabs and line feeds at `pos`.
pub open spec fn layout_end(s: Seq<u8>, pos: int) -> int
    decreases s.len() - pos,
{
    if 0 <= pos < s.len() && (is_pad(s[pos]) || s[pos] == 0x0a) {
        layout_end(s, pos + 1)
    } else {
        pos
    }
}

/// An unsigned number: at least one digit.  The result is its end.
pub open spec fn number_at(s: Seq<u8>, pos: int) -> Option<int> {
    if 0 <= pos && digit_run_end(s, pos) > pos {
        Some(digit_run_end(s, pos))
    } else {
        None
    }
}

/// A line feed at `pos`.
pub open spec fn newline_at(s: Seq<u8>, pos: int) -> bool {
    0 <= pos < s.len() && s[pos] == 0x0a
}

/// `f` or `n` at `pos`.
pub open spec fn usage_at(s: Seq<u8>, pos: int) -> bool {
    0 <= pos < s.len() && (s[pos] == 0x66 || s[pos] == 0x6e)
}

/// xref_begin: the line `xref`.
pub open spec fn begin_at(s: Seq<u8>, pos: int) -> Option<Piece> {
    let p = lead_end(s, pos);
    if has_at(s, p, line_xref()) {
        Some(Piece { tokens: seq![tok(Rule::XrefBegin, pos, p + 5)], end: p + 5 })
    } else {
        None
    }
}

/// xref_end: the line `trailer`.
pub open spec fn finish_at(s: Seq<u8>, pos: int) -> Option<Piece> {
    let p = lead_end(s, pos);
    if has_at(s, p, line_trailer()) {
        Some(Piece { tokens: seq![tok(Rule::XrefEnd, pos, p + 8)], end: p + 8 })
    } else {
        None
    }
}

/// xref_header: two numbers and a line feed.
pub open spec fn header_at(s: Seq<u8>, pos: int) -> Option<Piece> {
    let first = lead_end(s, pos);
    match number_at(s, first) {
        None => None,
        Some(first_end) => {
            let second = pad_end(s, first_end);
            match number_at(s, second) {
                None => None,
                Some(second_end) => {
                    let third = pad_end(s, second_end);
                    if newline_at(s, third) {
                        Some(
                            Piece {
                                tokens: seq![
                                    tok(Rule::XrefHeader, pos, third + 1),
                                    tok(Rule::Integer, first, first_end),
                                    tok(Rule::Integer, second, second_end),
                                ],
                                end: third + 1,
                            },
                        )
                    } else {
                        None
                    }
                },
            }
        },
    }
}

/// xref_entry: two numbers, `f` or `n`, and a line feed.
pub open spec fn entry_at(s: Seq<u8>, pos: int) -> Option<Piece> {
    let first = lead_end(s, pos);
    match number_at(s, first) {
        None => None,
        Some(first_end) => {
            let second = pad_end(s, first_end);
            match number_at(s, second) {
                None => None,
                Some(second_end) => {
                    let third = pad_end(s, second_end);
                    let fourth = pad_end(s, third + 1);
                    if usage_at(s, third) && newline_at(s, fourth) {
                        Some(
                            Piece {
                                tokens: seq![
                                    tok(Rule::XrefEntry, pos, fourth + 1),
                                    tok(Rule::Integer, first, first_end),
                                    tok(Rule::Integer, second, second_end),
                                    tok(Rule::Usage, third, third + 1),
                                ],
                                end: fourth + 1,
                            },
                        )
                    } else {
                        None
                    }
                },
            }
        },
    }
}

/// Zero or more entries behind `pos`, each behind spaces and tabs.  The end
/// is the end of the last entry.
pub open spec fn entries_from(s: Seq<u8>, pos: int) -> Piece
    decreases s.len() - pos,
{
    match entry_at(s, pad_end(s, pos)) {
        Some(e) => {
            if pos < e.end <= s.len() {
                let rest = entries_from(s, e.end);
                Piece { tokens: e.tokens + rest.tokens, end: rest.end }
            } else {
                Piece { tokens: seq![], end: pos }
            }
        },
        None => Piece { tokens: seq![], end: pos },
    }
}

/// xref: the line `xref`, the header, zero or more entries, the line
/// `trailer`.  Where it does not match, the result is the position at which
/// the part that was due does not stand.
pub open spec fn xref_at(s: Seq<u8>, pos: int) -> Result<Piece, int> {
    match begin_at(s, pos) {
        None => Err(pos),
        Some(b) => match header_at(s, pad_end(s, b.end)) {
            None => Err(pad_end(s, b.end)),
            Some(h) => {
                let entries = entries_from(s, h.end);
                match finish_at(s, pad_end(s, entries.end)) {
                    None => Err(pad_end(s, entries.end)),
                    Some(f) => Ok(
                        Piece {
                            tokens: seq![tok(Rule::Xref, pos, f.end)] + b.tokens + h.tokens
                                + entries.tokens + f.tokens,
                            end: f.end,
                        },
                    ),
                }
            },
        },
    }
}

/// The bytes that a token spans.
pub open spec fn lexeme(s: Seq<u8>, t: Token) -> Seq<u8> {
    s.subrange(t.start as int, t.end as int)
}

/// Whether a token spans bytes of the input.
pub open spec fn spans(s: Seq<u8>, t: Token) -> bool {
    t.start <= t.end <= s.len()
}

/// The failure to build a table at a token.
pub open spec fn refusal(t: Token, expected: Expected) -> PdfError {
    PdfError::Parse { position: t.start, expected }
}

/// The failure to find a token at all.
pub open spec fn exhausted(s: Seq<u8>) -> PdfError {
    PdfError::Parse { position: s.len() as usize, expected: Expected::XRefSection }
}

/// The number that a token spans, where it fits `u64`.
pub open spec fn number_of(s: Seq<u8>, t: Token) -> Result<u64, PdfError> {
    if spans(s, t) && is_unsigned_literal(lexeme(s, t)) && digits_value(lexeme(s, t))
        <= u64::MAX {
        Ok(digits_value(lexeme(s, t)) as u64)
    } else {
        Err(refusal(t, Expected::Integer))
    }
}

/// The entries whose tokens stand from index `j` up to the token of the
/// line `trailer`, behind the entries `acc` before them.
pub open spec fn built_entries(s: Seq<u8>, q: Seq<Token>, j: int, acc: Seq<XRefEntry>) -> Result<
    Seq<XRefEntry>,
    PdfError,
>
    decreases q.len() - j,
{
    if !(0 <= j < q.len()) {
        Err(exhausted(s))
    } else if q[j].rule == Rule::XrefEnd {
        Ok(acc)
    } else if !(q[j].rule == Rule::XrefEntry && j + 3 < q.len() && q[j + 1].rule == Rule::Integer
        && q[j + 2].rule == Rule::Integer && q[j + 3].rule == Rule::Usage && spans(s, q[j + 3])) {
        Err(refusal(q[j], Expected::XRefSection))
    } else {
        match (number_of(s, q[j + 1]), number_of(s, q[j + 2])) {
            (Ok(offset), Ok(generation_id)) => built_entries(
                s,
                q,
                j + 4,
                acc.push(
                    XRefEntry { offset, generation_id, is_free: lexeme(s, q[j + 3]) == seq![0x66u8] },
                ),
            ),
            (Err(error), _) => Err(error),
            (_, Err(error)) => Err(error),
        }
    }
}

/// Whether the tokens start as those of a section do.
pub open spec fn opens_section(q: Seq<Token>) -> bool {
    q.len() >= 5 && q[0].rule == Rule::Xref && q[1].rule == Rule::XrefBegin && q[2].rule
        == Rule::XrefHeader && q[3].rule == Rule::Integer && q[4].rule == Rule::Integer
}

/// The entries that the tokens of a section list, in the order of the file.
pub open spec fn built_table(s: Seq<u8>, q: Seq<Token>) -> Result<Seq<XRefEntry>, PdfError> {
    if !opens_section(q) {
        Err(exhausted(s))
    } else {
        built_entries(s, q, 5, seq![])
    }
}

/// What the text of a section denotes: its entries in the order of the file,
/// where the section stands alone in the text, every number fits, and the
/// header declares as many entries as there are.
pub open spec fn parsed_xref(s: Seq<u8>) -> Result<Seq<XRefEntry>, PdfError> {
    match xref_at(s, 0) {
        Err(at) => Err(
            PdfError::FormatAssumption { position: at as usize, expected: Expected::XRefSection },
        ),
        Ok(piece) => {
            let rest = layout_end(s, piece.end);
            if rest != s.len() {
                Err(PdfError::Grammar { position: rest as usize, expected: Expected::EndOfInput })
            } else {
                match built_table(s, piece.tokens) {
                    Err(error) => Err(error),
                    Ok(entries) => match number_of(s, piece.tokens[4]) {
                        Err(error) => Err(error),
                        Ok(count) => if count == entries.len() {
                            Ok(entries)
                        } else {
                            Err(refusal(piece.tokens[4], Expected::DeclaredEntryCount))
                        },
                    },
                }
            }
        },
    }
}

/// Whether what a scanner reports and leaves is what the production gives.
pub open spec fn piece_agrees(r: Option<usize>, p: Option<Piece>, before: Seq<Token>, after: Seq<Token>) -> bool {
    match p {
        Some(piece) => (r matches Some(e) && e as int == piece.end) && after == before
            + piece.tokens,
        None => r is None && after == before,
    }
}

/// Whether what the scanner of a section reports and leaves is what the
/// grammar gives.
pub open spec fn section_agrees(
    r: Result<usize, usize>,
    x: Result<Piece, int>,
    before: Seq<Token>,
    after: Seq<Token>,
) -> bool {
    match x {
        Ok(piece) => (r matches Ok(e) && e as int == piece.end) && after == before + piece.tokens,
        Err(at) => (r matches Err(a) && a as int == at) && after == before,
    }
}

/// Skips the spaces and tabs at `pos`.
pub fn skip_pad(input: &[u8], pos: usize) -> (end: usize)
    requires
        pos <= input.len(),
    ensures
        end == pad_end(input@, pos as int),
        pos <= end <= input.len(),
{
    let mut p: usize = pos;
    while p < input.len() && (input[p] == 0x20 || input[p] == 0x09)
        invariant
            pos <= p <= input.len(),
            pad_end(input@, p as int) == pad_end(input@, pos as int),
        decreases input.len() - p,
    {
        p += 1;
    }
    p
}

/// Skips the empty lines at `pos` and the spaces and tabs behind them.
pub fn skip_lead(input: &[u8], pos: usize) -> (end: usize)
    requires
        pos <= input.len(),
    ensures
        end == lead_end(input@, pos as int),
        pos <= end <= input.len(),
{
    let mut p: usize = pos;
    while p < input.len() && input[p] == 0x0a
        invariant
            pos <= p <= input.len(),
            lead_end(input@, p as int) == lead_end(input@, pos as int),
        decreases input.len() - p,
    {
        p = skip_pad(input, p + 1);
    }
    skip_pad(input, p)
}

/// Skips the spaces, tabs and line feeds at `pos`.
pub fn skip_layout(input: &[u8], pos: usize) -> (end: usize)
    requires
        pos <= input.len(),
    ensures
        end == layout_end(input@, pos as int),
        pos <= end <= input.len(),
{
    let mut p: usize = pos;
    while p < input.len() && (input[p] == 0x20 || input[p] == 0x09 || input[p] == 0x0a)
        invariant
            pos <= p <= input.len(),
            layout_end(input@, p as int) == layout_end(input@, pos as int),
        decreases input.len() - p,
    {
        p += 1;
    }
    p
}

/// Scans an unsigned number at `pos`.
pub fn scan_number(input: &[u8], pos: usize) -> (r: Option<usize>)
    requires
        pos <= input.len(),
    ensures
        crate::lex::same_end(r, number_at(input@, pos as int)),
        r matches Some(e) ==> pos < e <= input.len(),
{
    let e = scan_digits(input, pos);
    if e > pos {
        Some(e)
    } else {
        None
    }
}

/// Recognizes the line `xref` behind `pos`.
pub fn scan_begin(input: &[u8], pos: usize, out: &mut Vec<Token>) -> (r: Option<usize>)
    requires
        pos <= input.len(),
    ensures
        piece_agrees(r, begin_at(input@, pos as int), old(out)@, final(out)@),
        r matches Some(e) ==> pos < e <= input.len(),
{
    let line: [u8; 5] = [0x78, 0x72, 0x65, 0x66, 0x0a];
    assert(line@ =~= line_xref());
    assert(line_xref().len() == 5);
    let p = skip_lead(input, pos);
    if starts_with_at(input, p, line.as_slice()) {
        assert(has_at(input@, p as int, line_xref()));
        out.push(Token { rule: Rule::XrefBegin, start: pos, end: p + 5 });
        assert(final(out)@ =~= old(out)@ + seq![tok(Rule::XrefBegin, pos as int, p + 5)]);
        Some(p + 5)
    } else {
        None
    }
}

/// Recognizes the line `trailer` behind `pos`.
pub fn scan_finish(input: &[u8], pos: usize, out: &mut Vec<Token>) -> (r: Option<usize>)
    requires
        pos <= input.len(),
    ensures
        piece_agrees(r, finish_at(input@, pos as int), old(out)@, final(out)@),
        r matches Some(e) ==> pos < e <= input.len(),
{
    let line: [u8; 8] = [0x74, 0x72, 0x61, 0x69, 0x6c, 0x65, 0x72, 0x0a];
    assert(line@ =~= line_trailer());
    assert(line_trailer().len() == 8);
    let p = skip_lead(input, pos);
    if starts_with_at(input, p, line.as_slice()) {
        assert(has_at(input@, p as int, line_trailer()));
        out.push(Token { rule: Rule::XrefEnd, start: pos, end: p + 8 });
        assert(final(out)@ =~= old(out)@ + seq![tok(Rule::XrefEnd, pos as int, p + 8)]);
        Some(p + 8)
    } else {
        None
    }
}

/// Recognizes a header line behind `pos`.
pub fn scan_header(input: &[u8], pos: usize, out: &mut Vec<Token>) -> (r: Option<usize>)
    requires
        pos <= input.len(),
    ensures
        piece_agrees(r, header_at(input@, pos as int), old(out)@, final(out)@),
        r matches Some(e) ==> pos < e <= input.len(),
{
    let first = skip_lead(input, pos);
    let first_end = match scan_number(input, first) {
        Some(e) => e,
        None => {
            return None;
        },
    };
    let second = skip_pad(input, first_end);
    let second_end = match scan_number(input, second) {
        Some(e) => e,
        None => {
            return None;
        },
    };
    let third = skip_pad(input, second_end);
    if third < input.len() && input[third] == 0x0a {
        out.push(Token { rule: Rule::XrefHeader, start: pos, end: third + 1 });
        out.push(Token { rule: Rule::Integer, start: first, end: first_end });
        out.push(Token { rule: Rule::Integer, start: second, end: second_end });
        assert(final(out)@ =~= old(out)@ + seq![
            tok(Rule::XrefHeader, pos as int, third + 1),
            tok(Rule::Integer, first as int, first_end as int),
            tok(Rule::Integer, second as int, second_end as int),
        ]);
        Some(third + 1)
    } else {
        None
    }
}

/// Recognizes an entry line behind `pos`.
pub fn scan_entry(input: &[u8], pos: usize, out: &mut Vec<Token>) -> (r: Option<usize>)
    requires
        pos <= input.len(),
    ensures
        piece_agrees(r, entry_at(input@, pos as int), old(out)@, final(out)@),
        r matches Some(e) ==> pos < e <= input.len(),
{
    let first = skip_lead(input, pos);
    let first_end = match scan_number(input, first) {
        Some(e) => e,
        None => {
            return None;
        },
    };
    let second = skip_pad(input, first_end);
    let second_end = match scan_number(input, second) {
        Some(e) => e,
        None => {
            return None;
        },
    };
    let third = skip_pad(input, second_end);
    if !(third < input.len() && (input[third] == 0x66 || input[third] == 0x6e)) {
        return None;
    }
    let fourth = skip_pad(input, third + 1);
    if fourth < input.len() && input[fourth] == 0x0a {
        out.push(Token { rule: Rule::XrefEntry, start: pos, end: fourth + 1 });
        out.push(Token { rule: Rule::Integer, start: first, end: first_end });
        out.push(Token { rule: Rule::Integer, start: second, end: second_end });
        out.push(Token { rule: Rule::Usage, start: third, end: third + 1 });
        assert(final(out)@ =~= old(out)@ + seq![
            tok(Rule::XrefEntry, pos as int, fourth + 1),
            tok(Rule::Integer, first as int, first_end as int),
            tok(Rule::Integer, second as int, second_end as int),
            tok(Rule::Usage, third as int, third + 1),
        ]);
        Some(fourth + 1)
    } else {
        None
    }
}

/// Recognizes zero or more entry lines behind `pos`.
pub fn scan_entries(input: &[u8], pos: usize, out: &mut Vec<Token>) -> (end: usize)
    requires
        pos <= input.len(),
    ensures
        end == entries_from(input@, pos as int).end,
        final(out)@ == old(out)@ + entries_from(input@, pos as int).tokens,
        pos <= end <= input.len(),
{
    let ghost whole = entries_from(input@, pos as int);
    let ghost mut seen: Seq<Token> = seq![];
    let mut p: usize = pos;
    assert(out@ =~= old(out)@ + seen);
    loop
        invariant
            pos <= p <= input.len(),
            out@ == old(out)@ + seen,
            whole == entries_from(input@, pos as int),
            whole.tokens == seen + entries_from(input@, p as int).tokens,
            whole.end == entries_from(input@, p as int).end,
        decreases input.len() - p,
    {
        let ghost before = out@;
        let start = skip_pad(input, p);
        match scan_entry(input, start, out) {
            None => {
                assert(seen + Seq::<Token>::empty() =~= seen);
                return p;
            },
            Some(end) => {
                proof {
                    let found = entry_at(input@, start as int)->0.tokens;
                    let rest = entries_from(input@, end as int);
                    assert(entries_from(input@, p as int).tokens == found + rest.tokens);
                    assert(seen + (found + rest.tokens) =~= (seen + found) + rest.tokens);
                    assert(old(out)@ + (seen + found) =~= before + found);
                    seen = seen + found;
                }
                p = end;
            },
        }
    }
}

/// Recognizes a section at `pos`.  Where none stands there, the error is
/// the position at which the part that was due does not stand.
pub fn scan_xref(input: &[u8], pos: usize, out: &mut Vec<Token>) -> (r: Result<usize, usize>)
    requires
        pos <= input.len(),
    ensures
        section_agrees(r, xref_at(input@, pos as int), old(out)@, final(out)@),
        r matches Ok(e) ==> pos < e <= input.len(),
        r matches Err(at) ==> pos <= at <= input.len(),
{
    let mut inner: Vec<Token> = Vec::new();
    let b = match scan_begin(input, pos, &mut inner) {
        Some(e) => e,
        None => {
            return Err(pos);
        },
    };
    let hs = skip_pad(input, b);
    let h = match scan_header(input, hs, &mut inner) {
        Some(e) => e,
        None => {
            return Err(hs);
        },
    };
    let last = scan_entries(input, h, &mut inner);
    let fs = skip_pad(input, last);
    let f = match scan_finish(input, fs, &mut inner) {
        Some(e) => e,
        None => {
            return Err(fs);
        },
    };
    out.push(Token { rule: Rule::Xref, start: pos, end: f });
    out.append(&mut inner);
    proof {
        let bp = begin_at(input@, pos as int)->0;
        let hp = header_at(input@, hs as int)->0;
        let rp = entries_from(input@, h as int);
        let fp = finish_at(input@, fs as int)->0;
        assert(final(out)@ =~= old(out)@ + (seq![tok(Rule::Xref, pos as int, f as int)]
            + bp.tokens + hp.tokens + rp.tokens + fp.tokens));
    }
    Ok(f)
}

/// Reads the number that a token spans.
fn read_number(input: &[u8], t: Token) -> (r: Result<u64, PdfError>)
    ensures
        r == number_of(input@, t),
{
    if t.start > t.end || t.end > input.len() {
        return Err(PdfError::Parse { position: t.start, expected: Expected::Integer });
    }
    match parse_u64(slice_subrange(input, t.start, t.end)) {
        Some(v) => Ok(v),
        None => Err(PdfError::Parse { position: t.start, expected: Expected::Integer }),
    }
}

/// Builds the entries that the tokens of a section list.
#[verifier::loop_isolation(false)]
pub fn build_table(input: &[u8], queue: &Vec<Token>) -> (r: Result<Vec<XRefEntry>, PdfError>)
    ensures
        match built_table(input@, queue@) {
            Ok(entries) => r matches Ok(v) && v@ == entries,
            Err(error) => r matches Err(e) && e == error,
        },
{
    let failed = PdfError::Parse { position: input.len(), expected: Expected::XRefSection };
    if queue.len() < 5 {
        return Err(failed);
    }
    match (queue[0].rule, queue[1].rule, queue[2].rule, queue[3].rule, queue[4].rule) {
        (Rule::Xref, Rule::XrefBegin, Rule::XrefHeader, Rule::Integer, Rule::Integer) => {},
        _ => {
            return Err(failed);
        },
    }
    let mut entries: Vec<XRefEntry> = Vec::new();
    let mut j: usize = 5;
    loop
        invariant
            5 <= j <= queue.len(),
            failed == exhausted(input@),
            built_entries(input@, queue@, 5, seq![]) == built_entries(
                input@,
                queue@,
                j as int,
                entries@,
            ),
        decreases queue.len() - j,
    {
        if j >= queue.len() {
            return Err(failed);
        }
        let t = queue[j];
        match t.rule {
            Rule::XrefEnd => {
                return Ok(entries);
            },
            Rule::XrefEntry => {},
            _ => {
                return Err(PdfError::Parse { position: t.start, expected: Expected::XRefSection });
            },
        }
        if queue.len() - j <= 3 {
            return Err(PdfError::Parse { position: t.start, expected: Expected::XRefSection });
        }
        let u = queue[j + 3];
        match (queue[j + 1].rule, queue[j + 2].rule, u.rule) {
            (Rule::Integer, Rule::Integer, Rule::Usage) => {},
            _ => {
                return Err(PdfError::Parse { position: t.start, expected: Expected::XRefSection });
            },
        }
        if u.start > u.end || u.end > input.len() {
            return Err(PdfError::Parse { position: t.start, expected: Expected::XRefSection });
        }
        let offset = match read_number(input, queue[j + 1]) {
            Ok(v) => v,
            Err(e) => {
                return Err(e);
            },
        };
        let generation_id = match read_number(input, queue[j + 2]) {
            Ok(v) => v,
            Err(e) => {
                return Err(e);
            },
        };
        let is_free = u.end - u.start == 1 && input[u.start] == 0x66;
        proof {
            let lex = lexeme(input@, u);
            if is_free {
                assert(lex =~= seq![0x66u8]);
            } else if lex == seq![0x66u8] {
                assert(lex.len() == 1 && lex[0] == 0x66);
            }
        }
        entries.push(XRefEntry { offset, generation_id, is_free });
        j += 4;
    }
}

/// Whether a result is what a specification gives.
pub open spec fn table_agrees(r: Result<XRefTable, PdfError>, wanted: Result<Seq<XRefEntry>, PdfError>) -> bool {
    match wanted {
        Ok(entries) => r matches Ok(table) && table@ == entries,
        Err(error) => r matches Err(e) && e == error,
    }
}

/// Reads a cross-reference section from its text.  No table is returned
/// unless the whole section is well formed.
pub fn parse_xref(text: &[u8]) -> (r: Result<XRefTable, PdfError>)
    ensures
        table_agrees(r, parsed_xref(text@)),
{
    let mut tokens: Vec<Token> = Vec::new();
    let end = match scan_xref(text, 0, &mut tokens) {
        Ok(e) => e,
        Err(at) => {
            return Err(
                PdfError::FormatAssumption { position: at, expected: Expected::XRefSection },
            );
        },
    };
    assert(tokens@ =~= xref_at(text@, 0)->Ok_0.tokens);
    let rest = skip_layout(text, end);
    if rest != text.len() {
        return Err(PdfError::Grammar { position: rest, expected: Expected::EndOfInput });
    }
    let entries = match build_table(text, &tokens) {
        Ok(v) => v,
        Err(e) => {
            return Err(e);
        },
    };
    let declared = tokens[4];
    let count = match read_number(text, declared) {
        Ok(v) => v,
        Err(e) => {
            return Err(e);
        },
    };
    if count == entries.len() as u64 {
        Ok(XRefTable(entries))
    } else {
        Err(PdfError::Parse { position: declared.start, expected: Expected::DeclaredEntryCount })
    }
}

/// A recursive-descent parser for the cross-reference grammar.  It holds the
/// input, a position in it, and the tokens of the productions that matched so
/// far.  A production that matches moves the position behind the match and
/// appends its tokens; one that does not match changes neither.
pub struct Rdp {
    input: Vec<u8>,
    pos: usize,
    queue: Vec<Token>,
}

/// What applying a production at the parser's position does to the parser.
pub open spec fn applied(before: Rdp, after: Rdp, matched: bool, p: Option<Piece>) -> bool {
    &&& after.wf()
    &&& after.input() == before.input()
    &&& match p {
        Some(piece) => {
            &&& matched
            &&& after.position() == piece.end
            &&& after.tokens() == before.tokens() + piece.tokens
        },
        None => {
            &&& !matched
            &&& after.position() == before.position()
            &&& after.tokens() == before.tokens()
        },
    }
}

/// A production without parts: one token where it matches.
pub open spec fn leaf(rule: Rule, pos: int, end: Option<int>) -> Option<Piece> {
    match end {
        Some(e) => Some(Piece { tokens: seq![tok(rule, pos, e)], end: e }),
        None => None,
    }
}

/// The section at `pos`, where one stands there.
pub open spec fn section_at(s: Seq<u8>, pos: int) -> Option<Piece> {
    match xref_at(s, pos) {
        Ok(piece) => Some(piece),
        Err(_) => None,
    }
}

impl Rdp {
    /// The position lies within the input.
    pub closed spec fn wf(&self) -> bool {
        self.pos <= self.input@.len()
    }

    /// The bytes that the parser reads.
    pub closed spec fn input(&self) -> Seq<u8> {
        self.input@
    }

    /// The parser's position.
    pub closed spec fn position(&self) -> int {
        self.pos as int
    }

    /// The tokens of the productions that matched so far.
    pub closed spec fn tokens(&self) -> Seq<Token> {
        self.queue@
    }

    /// A parser at the start of `input`.
    pub fn new(input: StringInput) -> (parser: Rdp)
        ensures
            parser.wf(),
            parser.input() == input@,
            parser.position() == 0,
            parser.tokens() == Seq::<Token>::empty(),
    {
        Rdp { input: input.into_bytes(), pos: 0, queue: Vec::new() }
    }

    /// The parser's position.
    pub fn pos(&self) -> (p: usize)
        ensures
            p == self.position(),
    {
        self.pos
    }

    /// Whether the parser has reached the end of the input.
    pub fn end(&self) -> (b: bool)
        ensures
            b == (self.position() == self.input().len()),
    {
        self.pos == self.input.len()
    }

    /// The tokens of the productions that matched so far.
    pub fn queue(&self) -> (q: &Vec<Token>)
        ensures
            q@ == self.tokens(),
    {
        &self.queue
    }

    /// Moves the position behind the spaces and tabs at it.
    pub fn skip(&mut self)
        requires
            old(self).wf(),
        ensures
            final(self).wf(),
            final(self).input() == old(self).input(),
            final(self).position() == pad_end(old(self).input(), old(self).position()),
            final(self).tokens() == old(self).tokens(),
    {
        self.pos = skip_pad(self.input.as_slice(), self.pos);
    }

    /// Takes over what a scanner found.
    fn settle(&mut self, end: Option<usize>, p: Ghost<Option<Piece>>, found: Vec<Token>) -> (matched:
        bool)
        requires
            old(self).wf(),
            piece_agrees(end, p@, Seq::<Token>::empty(), found@),
            end matches Some(e) ==> e <= old(self).input().len(),
        ensures
            applied(*old(self), *final(self), matched, p@),
    {
        let mut found = found;
        match end {
            Some(e) => {
                self.pos = e;
                self.queue.append(&mut found);
                true
            },
            None => false,
        }
    }

    /// int: at least one digit.
    pub fn integer(&mut self) -> (matched: bool)
        requires
            old(self).wf(),
        ensures
            applied(
                *old(self),
                *final(self),
                matched,
                leaf(
                    Rule::Integer,
                    old(self).position(),
                    number_at(old(self).input(), old(self).position()),
                ),
            ),
    {
        let end = scan_number(self.input.as_slice(), self.pos);
        let mut found: Vec<Token> = Vec::new();
        if let Some(e) = end {
            found.push(Token { rule: Rule::Integer, start: self.pos, end: e });
            assert(found@ =~= Seq::<Token>::empty() + seq![
                tok(Rule::Integer, self.pos as int, e as int),
            ]);
        }
        self.settle(
            end,
            Ghost(leaf(Rule::Integer, self.pos as int, number_at(self.input@, self.pos as int))),
            found,
        )
    }

    /// usage: `f` or `n`.
    pub fn usage(&mut self) -> (matched: bool)
        requires
            old(self).wf(),
        ensures
            applied(
                *old(self),
                *final(self),
                matched,
                if usage_at(old(self).input(), old(self).position()) {
                    leaf(Rule::Usage, old(self).position(), Some(old(self).position() + 1))
                } else {
                    None
                },
            ),
    {
        if self.pos < self.input.len() && (self.input[self.pos] == 0x66 || self.input[self.pos]
            == 0x6e) {
            self.queue.push(Token { rule: Rule::Usage, start: self.pos, end: self.pos + 1 });
            self.pos = self.pos + 1;
            assert(self.queue@ =~= old(self).queue@ + seq![
                tok(Rule::Usage, old(self).pos as int, old(self).pos + 1),
            ]);
            true
        } else {
            false
        }
    }

    /// xref_begin: the line `xref`.
    pub fn xref_begin(&mut self) -> (matched: bool)
        requires
            old(self).wf(),
        ensures
            applied(
                *old(self),
                *final(self),
                matched,
                begin_at(old(self).input(), old(self).position()),
            ),
    {
        let mut found: Vec<Token> = Vec::new();
        let end = scan_begin(self.input.as_slice(), self.pos, &mut found);
        self.settle(end, Ghost(begin_at(self.input@, self.pos as int)), found)
    }

    /// xref_end: the line `trailer`.
    pub fn xref_end(&mut self) -> (matched: bool)
        requires
            old(self).wf(),
        ensures
            applied(
                *old(self),
                *final(self),
                matched,
                finish_at(old(self).input(), old(self).position()),
            ),
    {
        let mut found: Vec<Token> = Vec::new();
        let end = scan_finish(self.input.as_slice(), self.pos, &mut found);
        self.settle(end, Ghost(finish_at(self.input@, self.pos as int)), found)
    }

    /// xref_header: two numbers and a line feed.
    pub fn xref_header(&mut self) -> (matched: bool)
        requires
            old(self).wf(),
        ensures
            applied(
                *old(self),
                *final(self),
                matched,
                header_at(old(self).input(), old(self).position()),
            ),
    {
        let mut found: Vec<Token> = Vec::new();
        let end = scan_header(self.input.as_slice(), self.pos, &mut found);
        self.settle(end, Ghost(header_at(self.input@, self.pos as int)), found)
    }

    /// xref_entry: two numbers, `f` or `n`, and a line feed.
    pub fn xref_entry(&mut self) -> (matched: bool)
        requires
            old(self).wf(),
        ensures
            applied(
                *old(self),
                *final(self),
                matched,
                entry_at(old(self).input(), old(self).position()),
            ),
    {
        let mut found: Vec<Token> = Vec::new();
        let end = scan_entry(self.input.as_slice(), self.pos, &mut found);
        self.settle(end, Ghost(entry_at(self.input@, self.pos as int)), found)
    }

    /// xref: the line `xref`, the header, zero or more entries, the line `trailer`.
    pub fn xref(&mut self) -> (matched: bool)
        requires
            old(self).wf(),
        ensures
            applied(
                *old(self),
                *final(self),
                matched,
                section_at(old(self).input(), old(self).position()),
            ),
    {
        let mut found: Vec<Token> = Vec::new();
        let end = match scan_xref(self.input.as_slice(), self.pos, &mut found) {
            Ok(e) => Some(e),
            Err(_) => None,
        };
        self.settle(end, Ghost(section_at(self.input@, self.pos as int)), found)
    }

    /// The table that the tokens list, in the order of the file.
    pub fn parse(&self) -> (r: Result<XRefTable, PdfError>)
        ensures
            table_agrees(r, built_table(self.input(), self.tokens())),
    {
        match build_table(self.input.as_slice(), &self.queue) {
            Ok(entries) => Ok(XRefTable(entries)),
            Err(e) => Err(e),
        }
    }
}

} // verus!
