//! The terminals of the COS grammar: whitespace, delimiters, names, string
//! literals, numbers and booleans, each as a function of the input bytes and a
//! position.

use vstd::prelude::*;

verus! {

/// Whether `lit` stands in `s` at `pos`.
pub open spec fn has_at(s: Seq<u8>, pos: int, lit: Seq<u8>) -> bool {
    0 <= pos && pos + lit.len() <= s.len() && s.subrange(pos, pos + lit.len()) == lit
}

/// The bytes of the word `endobj`.
pub open spec fn word_endobj() -> Seq<u8> {
    seq![0x65u8, 0x6eu8, 0x64u8, 0x6fu8, 0x62u8, 0x6au8]
}

/// The bytes of the word `true`.
pub open spec fn word_true() -> Seq<u8> {
    seq![0x74u8, 0x72u8, 0x75u8, 0x65u8]
}

/// The bytes of the word `false`.
pub open spec fn word_false() -> Seq<u8> {
    seq![0x66u8, 0x61u8, 0x6cu8, 0x73u8, 0x65u8]
}

/// Space, tab, carriage return or line feed.
pub open spec fn is_blank(b: u8) -> bool {
    b == 0x20 || b == 0x09 || b == 0x0d || b == 0x0a
}

/// A decimal digit.
pub open spec fn is_digit(b: u8) -> bool {
    0x30 <= b <= 0x39
}

/// A byte that may stand inside a string literal.
pub open spec fn is_string_byte(b: u8) -> bool {
    is_blank(b) || b == 0x2f || (0x61 <= b <= 0x7a) || (0x41 <= b <= 0x5a) || is_digit(b) || b
        == 0x3a || b == 0x2e || b == 0x40 || b == 0x27
}

/// The length of the piece of whitespace at `pos`: one blank byte, the word
/// `endobj`, or nothing.
pub open spec fn ws_len(s: Seq<u8>, pos: int) -> int {
    if 0 <= pos < s.len() && is_blank(s[pos]) {
        1
    } else if has_at(s, pos, word_endobj()) {
        6
    } else {
        0
    }
}

/// The first position at or after `pos` at which no whitespace stands.
pub open spec fn skip_ws(s: Seq<u8>, pos: int) -> int
    decreases s.len() - pos,
{
    if ws_len(s, pos) > 0 {
        skip_ws(s, pos + ws_len(s, pos))
    } else {
        pos
    }
}

/// Whether a delimiter stands at `pos`: `[`, `]`, `<<`, `>>`, `/`, `(` or `)`.
pub open spec fn special_at(s: Seq<u8>, pos: int) -> bool {
    0 <= pos < s.len() && (s[pos] == 0x5b || s[pos] == 0x5d || s[pos] == 0x2f || s[pos] == 0x28
        || s[pos] == 0x29 || (pos + 1 < s.len() && s[pos] == 0x3c && s[pos + 1] == 0x3c) || (pos
        + 1 < s.len() && s[pos] == 0x3e && s[pos + 1] == 0x3e))
}

/// Whether the byte at `pos` may continue a name.
pub open spec fn name_byte_at(s: Seq<u8>, pos: int) -> bool {
    0 <= pos < s.len() && !special_at(s, pos) && ws_len(s, pos) == 0
}

/// The end of the run of name bytes that starts at `pos`.
pub open spec fn name_run_end(s: Seq<u8>, pos: int) -> int
    decreases s.len() - pos,
{
    if name_byte_at(s, pos) {
        name_run_end(s, pos + 1)
    } else {
        pos
    }
}

/// The end of the run of digits that starts at `pos`.
pub open spec fn digit_run_end(s: Seq<u8>, pos: int) -> int
    decreases s.len() - pos,
{
    if 0 <= pos < s.len() && is_digit(s[pos]) {
        digit_run_end(s, pos + 1)
    } else {
        pos
    }
}

/// The end of the run of string bytes that starts at `pos`.
pub open spec fn string_run_end(s: Seq<u8>, pos: int) -> int
    decreases s.len() - pos,
{
    if 0 <= pos < s.len() && is_string_byte(s[pos]) {
        string_run_end(s, pos + 1)
    } else {
        pos
    }
}

/// A name: `/` and at least one name byte.  The result is its end.
pub open spec fn key_at(s: Seq<u8>, pos: int) -> Option<int> {
    if 0 <= pos < s.len() && s[pos] == 0x2f && name_byte_at(s, pos + 1) {
        Some(name_run_end(s, pos + 1))
    } else {
        None
    }
}

/// A string literal: `(`, string bytes, `)`; or `<`, at least one string
/// byte, `>`.  The result is its end.
pub open spec fn string_at(s: Seq<u8>, pos: int) -> Option<int> {
    let e = string_run_end(s, pos + 1);
    if 0 <= pos < s.len() && s[pos] == 0x28 && e < s.len() && s[e] == 0x29 {
        Some(e + 1)
    } else if 0 <= pos < s.len() && s[pos] == 0x3c && e > pos + 1 && e < s.len() && s[e]
        == 0x3e {
        Some(e + 1)
    } else {
        None
    }
}

/// The position behind an optional `-` at `pos`.
pub open spec fn after_sign(s: Seq<u8>, pos: int) -> int {
    if 0 <= pos < s.len() && s[pos] == 0x2d {
        pos + 1
    } else {
        pos
    }
}

/// A real number: optional `-`, digits, `.`, optional digits.  The result is
/// its end.
pub open spec fn float_at(s: Seq<u8>, pos: int) -> Option<int> {
    let d = after_sign(s, pos);
    let e = digit_run_end(s, d);
    if 0 <= pos && e > d && e < s.len() && s[e] == 0x2e {
        Some(digit_run_end(s, e + 1))
    } else {
        None
    }
}

/// An integer: optional `-` and digits, where no real number stands.  The
/// result is its end.
pub open spec fn int_at(s: Seq<u8>, pos: int) -> Option<int> {
    let d = after_sign(s, pos);
    let e = digit_run_end(s, d);
    if 0 <= pos && e > d && float_at(s, pos) is None {
        Some(e)
    } else {
        None
    }
}

/// The word `true` or the word `false`.  The result is its end.
pub open spec fn boolean_at(s: Seq<u8>, pos: int) -> Option<int> {
    if has_at(s, pos, word_true()) {
        Some(pos + 4)
    } else if has_at(s, pos, word_false()) {
        Some(pos + 5)
    } else {
        None
    }
}

/// A run of digits ends within the input, at the first byte that is no digit.
pub proof fn lemma_digit_run_bounds(s: Seq<u8>, pos: int)
    requires
        0 <= pos <= s.len(),
    ensures
        pos <= digit_run_end(s, pos) <= s.len(),
        digit_run_end(s, pos) < s.len() ==> !is_digit(s[digit_run_end(s, pos)]),
        forall|i: int| pos <= i < digit_run_end(s, pos) ==> is_digit(#[trigger] s[i]),
    decreases s.len() - pos,
{
    if pos < s.len() && is_digit(s[pos]) {
        lemma_digit_run_bounds(s, pos + 1);
    }
}

/// Whether `lit` stands in `input` at `pos`.
pub fn starts_with_at(input: &[u8], pos: usize, lit: &[u8]) -> (b: bool)
    ensures
        b == has_at(input@, pos as int, lit@),
{
    if lit.len() > input.len() || pos > input.len() - lit.len() {
        return false;
    }
    let mut i: usize = 0;
    while i < lit.len()
        invariant
            i <= lit.len(),
            pos + lit.len() <= input.len(),
            forall|j: int| 0 <= j < i ==> input@[pos + j] == lit@[j],
        decreases lit.len() - i,
    {
        if input[pos + i] != lit[i] {
            assert(input@.subrange(pos as int, pos + lit.len())[i as int] != lit@[i as int]);
            return false;
        }
        i += 1;
    }
    assert(input@.subrange(pos as int, pos + lit.len()) =~= lit@);
    true
}

/// Whether a byte is blank.
pub fn blank(b: u8) -> (r: bool)
    ensures
        r == is_blank(b),
{
    b == 0x20 || b == 0x09 || b == 0x0d || b == 0x0a
}

/// Whether a byte is a decimal digit.
pub fn digit(b: u8) -> (r: bool)
    ensures
        r == is_digit(b),
{
    0x30 <= b && b <= 0x39
}

/// Whether a byte may stand inside a string literal.
pub fn string_byte(b: u8) -> (r: bool)
    ensures
        r == is_string_byte(b),
{
    blank(b) || b == 0x2f || (0x61 <= b && b <= 0x7a) || (0x41 <= b && b <= 0x5a) || digit(b)
        || b == 0x3a || b == 0x2e || b == 0x40 || b == 0x27
}

/// The length of the whitespace at `pos`.
pub fn whitespace_len(input: &[u8], pos: usize) -> (n: usize)
    requires
        pos <= input.len(),
    ensures
        n == ws_len(input@, pos as int),
        pos + n <= input.len(),
{
    if pos < input.len() && blank(input[pos]) {
        1
    } else {
        let word: [u8; 6] = [0x65, 0x6e, 0x64, 0x6f, 0x62, 0x6a];
        assert(word@ =~= word_endobj());
        if starts_with_at(input, pos, word.as_slice()) {
            6
        } else {
            0
        }
    }
}

/// Skips the whitespace at `pos`.
pub fn skip_whitespace(input: &[u8], pos: usize) -> (end: usize)
    requires
        pos <= input.len(),
    ensures
        end == skip_ws(input@, pos as int),
        pos <= end <= input.len(),
{
    let mut p: usize = pos;
    loop
        invariant
            pos <= p <= input.len(),
            skip_ws(input@, p as int) == skip_ws(input@, pos as int),
        decreases input.len() - p,
    {
        let n = whitespace_len(input, p);
        if n == 0 {
            return p;
        }
        p += n;
    }
}

/// Whether an end position computed by a scanner is the one the grammar gives.
pub open spec fn same_end(found: Option<usize>, wanted: Option<int>) -> bool {
    match (found, wanted) {
        (Some(e), Some(w)) => e as int == w,
        (None, None) => true,
        _ => false,
    }
}

/// Whether a delimiter stands at `pos`.
pub fn special(input: &[u8], pos: usize) -> (r: bool)
    ensures
        r == special_at(input@, pos as int),
{
    if pos >= input.len() {
        return false;
    }
    let b = input[pos];
    if b == 0x5b || b == 0x5d || b == 0x2f || b == 0x28 || b == 0x29 {
        return true;
    }
    if pos + 1 < input.len() {
        let c = input[pos + 1];
        (b == 0x3c && c == 0x3c) || (b == 0x3e && c == 0x3e)
    } else {
        false
    }
}

/// Whether the byte at `pos` may continue a name.
pub fn name_byte(input: &[u8], pos: usize) -> (r: bool)
    ensures
        r == name_byte_at(input@, pos as int),
{
    pos < input.len() && !special(input, pos) && whitespace_len(input, pos) == 0
}

/// Scans a name at `pos`.
pub fn scan_key(input: &[u8], pos: usize) -> (r: Option<usize>)
    ensures
        same_end(r, key_at(input@, pos as int)),
        r matches Some(e) ==> pos + 1 < e <= input.len(),
{
    if pos >= input.len() || input[pos] != 0x2f || !name_byte(input, pos + 1) {
        return None;
    }
    let mut p: usize = pos + 1;
    while name_byte(input, p)
        invariant
            pos + 1 <= p <= input.len(),
            name_run_end(input@, p as int) == name_run_end(input@, pos + 1),
        decreases input.len() - p,
    {
        p += 1;
    }
    Some(p)
}

/// The end of the run of digits at `pos`.
pub fn scan_digits(input: &[u8], pos: usize) -> (end: usize)
    requires
        pos <= input.len(),
    ensures
        end == digit_run_end(input@, pos as int),
        pos <= end <= input.len(),
{
    let mut p: usize = pos;
    while p < input.len() && digit(input[p])
        invariant
            pos <= p <= input.len(),
            digit_run_end(input@, p as int) == digit_run_end(input@, pos as int),
        decreases input.len() - p,
    {
        p += 1;
    }
    p
}

/// The end of the run of string bytes at `pos`.
pub fn scan_string_bytes(input: &[u8], pos: usize) -> (end: usize)
    requires
        pos <= input.len(),
    ensures
        end == string_run_end(input@, pos as int),
        pos <= end <= input.len(),
{
    let mut p: usize = pos;
    while p < input.len() && string_byte(input[p])
        invariant
            pos <= p <= input.len(),
            string_run_end(input@, p as int) == string_run_end(input@, pos as int),
        decreases input.len() - p,
    {
        p += 1;
    }
    p
}

/// Scans a string literal at `pos`.
pub fn scan_string(input: &[u8], pos: usize) -> (r: Option<usize>)
    ensures
        same_end(r, string_at(input@, pos as int)),
        r matches Some(e) ==> pos + 1 < e <= input.len(),
{
    if pos >= input.len() {
        return None;
    }
    let open = input[pos];
    if open != 0x28 && open != 0x3c {
        return None;
    }
    let e = scan_string_bytes(input, pos + 1);
    if e >= input.len() {
        return None;
    }
    if open == 0x28 && input[e] == 0x29 {
        Some(e + 1)
    } else if open == 0x3c && e > pos + 1 && input[e] == 0x3e {
        Some(e + 1)
    } else {
        None
    }
}

/// Scans a real number at `pos`.
pub fn scan_float(input: &[u8], pos: usize) -> (r: Option<usize>)
    ensures
        same_end(r, float_at(input@, pos as int)),
        r matches Some(e) ==> pos + 1 < e <= input.len(),
{
    if pos >= input.len() {
        return None;
    }
    let d: usize = if input[pos] == 0x2d {
        pos + 1
    } else {
        pos
    };
    let e = scan_digits(input, d);
    if e > d && e < input.len() && input[e] == 0x2e {
        Some(scan_digits(input, e + 1))
    } else {
        None
    }
}

/// Scans an integer at `pos`.
pub fn scan_int(input: &[u8], pos: usize) -> (r: Option<usize>)
    ensures
        same_end(r, int_at(input@, pos as int)),
        r matches Some(e) ==> pos < e <= input.len(),
{
    if pos >= input.len() {
        return None;
    }
    let d: usize = if input[pos] == 0x2d {
        pos + 1
    } else {
        pos
    };
    let e = scan_digits(input, d);
    if e > d && scan_float(input, pos).is_none() {
        Some(e)
    } else {
        None
    }
}

/// Scans `true` or `false` at `pos`.
pub fn scan_boolean(input: &[u8], pos: usize) -> (r: Option<usize>)
    ensures
        same_end(r, boolean_at(input@, pos as int)),
        r matches Some(e) ==> pos < e <= input.len(),
{
    let t: [u8; 4] = [0x74, 0x72, 0x75, 0x65];
    let f: [u8; 5] = [0x66, 0x61, 0x6c, 0x73, 0x65];
    assert(t@ =~= word_true());
    assert(f@ =~= word_false());
    assert(word_true().len() == 4 && word_false().len() == 5);
    if starts_with_at(input, pos, t.as_slice()) {
        assert(has_at(input@, pos as int, word_true()));
        assert(pos + 4 <= input.len());
        Some(pos + 4)
    } else if starts_with_at(input, pos, f.as_slice()) {
        assert(has_at(input@, pos as int, word_false()));
        assert(pos + 5 <= input.len());
        Some(pos + 5)
    } else {
        None
    }
}

} // verus!
