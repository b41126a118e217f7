//! Lines and words in a buffer of bytes.

use vstd::prelude::*;
use crate::lex::{has_at, starts_with_at};

verus! {

/// The index of the first line feed at or after `from`, or the length of the
/// buffer where there is none.
pub open spec fn line_stop(s: Seq<u8>, from: int) -> int
    decreases s.len() - from,
{
    if 0 <= from < s.len() && s[from] != 0x0a {
        line_stop(s, from + 1)
    } else if 0 <= from < s.len() {
        from
    } else {
        s.len() as int
    }
}

/// The first position at or after `from` at which `word` stands, or the
/// length of the buffer where it stands at none.
pub open spec fn find_from(s: Seq<u8>, word: Seq<u8>, from: int) -> int
    decreases s.len() - from,
{
    if 0 <= from < s.len() && from + word.len() <= s.len() {
        if has_at(s, from, word) {
            from
        } else {
            find_from(s, word, from + 1)
        }
    } else {
        s.len() as int
    }
}

/// A line ends within the buffer, at its first line feed.
pub proof fn lemma_line_stop(s: Seq<u8>, from: int)
    requires
        0 <= from <= s.len(),
    ensures
        from <= line_stop(s, from) <= s.len(),
        line_stop(s, from) < s.len() ==> s[line_stop(s, from)] == 0x0a,
        forall|i: int| from <= i < line_stop(s, from) ==> #[trigger] s[i] != 0x0a,
    decreases s.len() - from,
{
    if from < s.len() && s[from] != 0x0a {
        lemma_line_stop(s, from + 1);
    }
}

/// A line that holds no line feed up to one ends at that line feed.
pub proof fn lemma_line_stop_to(s: Seq<u8>, from: int, to: int)
    requires
        0 <= from <= to < s.len(),
        s[to] == 0x0a,
        forall|i: int| from <= i < to ==> #[trigger] s[i] != 0x0a,
    ensures
        line_stop(s, from) == to,
    decreases to - from,
{
    if from < to {
        assert(s[from] != 0x0a);
        lemma_line_stop_to(s, from + 1, to);
    }
}

/// A word is found where it first stands.
pub proof fn lemma_find_from(s: Seq<u8>, word: Seq<u8>, from: int)
    requires
        0 <= from <= s.len(),
        word.len() > 0,
    ensures
        from <= find_from(s, word, from) <= s.len(),
        find_from(s, word, from) < s.len() ==> has_at(s, find_from(s, word, from), word),
        forall|i: int| from <= i < find_from(s, word, from) ==> !has_at(s, i, word),
    decreases s.len() - from,
{
    if from < s.len() && from + word.len() <= s.len() {
        if !has_at(s, from, word) {
            lemma_find_from(s, word, from + 1);
        }
    } else {
        assert forall|i: int| from <= i < s.len() implies !has_at(s, i, word) by {}
    }
}

/// Finds the end of the line that holds `from`.
pub fn end_of_line(input: &[u8], from: usize) -> (stop: usize)
    requires
        from <= input.len(),
    ensures
        stop == line_stop(input@, from as int),
        from <= stop <= input.len(),
{
    let mut p: usize = from;
    while p < input.len() && input[p] != 0x0a
        invariant
            from <= p <= input.len(),
            line_stop(input@, p as int) == line_stop(input@, from as int),
        decreases input.len() - p,
    {
        p += 1;
    }
    p
}

/// Finds the first place at or after `from` where `word` stands.
pub fn find_word(input: &[u8], word: &[u8], from: usize) -> (at: usize)
    requires
        from <= input.len(),
    ensures
        at == find_from(input@, word@, from as int),
        from <= at <= input.len(),
{
    let mut p: usize = from;
    while p < input.len() && word.len() <= input.len() && p <= input.len() - word.len()
        invariant
            from <= p <= input.len(),
            find_from(input@, word@, p as int) == find_from(input@, word@, from as int),
        decreases input.len() - p,
    {
        if starts_with_at(input, p, word) {
            return p;
        }
        p += 1;
    }
    input.len()
}

/// Whether the bytes from `start` to `stop` are `word`.
pub fn line_is(input: &[u8], start: usize, stop: usize, word: &[u8]) -> (b: bool)
    requires
        start <= stop <= input.len(),
    ensures
        b == (input@.subrange(start as int, stop as int) == word@),
{
    if stop - start != word.len() {
        return false;
    }
    let b = starts_with_at(input, start, word);
    b
}

} // verus!
