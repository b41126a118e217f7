//! From a value to COS text.  Every token is written with one space behind
//! it: `[ 1 2 ] `, `<< /Key 5 0 R >> `.

use vstd::prelude::*;
use vstd::utf8::encode_utf8;
use crate::cos::{Cos, DictNode, Entry};
use crate::error::PdfError;
use crate::document::append_bytes;
use crate::grammar::MAX_DEPTH;
use crate::lex::{
    blank, float_at, has_at, is_blank, is_string_byte, scan_float, starts_with_at, string_byte,
    word_endobj, word_false, word_true,
};
use crate::number::{int_text, push_int};
use crate::parser::parsed_object;
use crate::roundtrip::lemma_round_trip;

verus! {

/// One space.
pub open spec fn space() -> Seq<u8> {
    seq![0x20u8]
}

/// The text of a value.
pub open spec fn rendered(node: DictNode) -> Seq<u8>
    decreases node,
{
    match node {
        DictNode::Dict(d) => seq![0x3cu8, 0x3cu8, 0x20u8] + rendered_entries(d.entries@) + seq![
            0x3eu8,
            0x3eu8,
            0x20u8,
        ],
        DictNode::Array(items) => seq![0x5bu8, 0x20u8] + rendered_items(items@) + seq![
            0x5du8,
            0x20u8,
        ],
        DictNode::ObjectReference(number, generation) => int_text(number as int) + space()
            + int_text(generation as int) + seq![0x20u8, 0x52u8, 0x20u8],
        DictNode::Bool(b) => if b {
            word_true() + space()
        } else {
            word_false() + space()
        },
        DictNode::Int(i) => int_text(i as int) + space(),
        DictNode::Float(t) => encode_utf8(t@) + space(),
        DictNode::Str(t) => encode_utf8(t@) + space(),
    }
}

/// The texts of the items of an array, one behind the other.
pub open spec fn rendered_items(items: Seq<DictNode>) -> Seq<u8>
    decreases items,
{
    if items.len() == 0 {
        seq![]
    } else {
        rendered(items[0]) + rendered_items(items.drop_first())
    }
}

/// The text of one entry of a dictionary: `/`, the key, a space, the value.
pub open spec fn rendered_entry(entry: Entry) -> Seq<u8>
    decreases entry, 1int,
{
    seq![0x2fu8] + encode_utf8(entry.key@) + space() + rendered(entry.value)
}

/// The texts of the entries of a dictionary, one behind the other.
pub open spec fn rendered_entries(entries: Seq<Entry>) -> Seq<u8>
    decreases entries,
{
    if entries.len() == 0 {
        seq![]
    } else {
        rendered_entry(entries[0]) + rendered_entries(entries.drop_first())
    }
}

/// How deep the arrays and dictionaries of a value are nested.
pub open spec fn nesting(node: DictNode) -> nat
    decreases node,
{
    match node {
        DictNode::Dict(d) => 1 + nesting_entries(d.entries@),
        DictNode::Array(items) => 1 + nesting_items(items@),
        _ => 0,
    }
}

/// The deepest nesting among the items of an array.
pub open spec fn nesting_items(items: Seq<DictNode>) -> nat
    decreases items,
{
    if items.len() == 0 {
        0
    } else if nesting(items[0]) >= nesting_items(items.drop_first()) {
        nesting(items[0])
    } else {
        nesting_items(items.drop_first())
    }
}

/// The deepest nesting among the values of a dictionary.
pub open spec fn nesting_entries(entries: Seq<Entry>) -> nat
    decreases entries,
{
    if entries.len() == 0 {
        0
    } else if nesting(entries[0].value) >= nesting_entries(entries.drop_first()) {
        nesting(entries[0].value)
    } else {
        nesting_entries(entries.drop_first())
    }
}

/// A byte that may stand in a name: no whitespace and no delimiter.
pub open spec fn is_name_byte(b: u8) -> bool {
    !is_blank(b) && b != 0x5b && b != 0x5d && b != 0x2f && b != 0x28 && b != 0x29
}

/// The text of a name behind its `/`: at least one byte, every byte a name
/// byte, and neither `<<` nor `>>` nor `endobj` within it.
pub open spec fn is_name_text(k: Seq<u8>) -> bool {
    &&& k.len() > 0
    &&& forall|i: int| 0 <= i < k.len() ==> is_name_byte(#[trigger] k[i])
    &&& forall|i: int|
        0 <= i && i + 1 < k.len() ==> !((#[trigger] k[i]) == 0x3c && k[i + 1] == 0x3c) && !(k[i]
            == 0x3e && k[i + 1] == 0x3e)
    &&& forall|i: int| 0 <= i ==> !#[trigger] has_at(k, i, word_endobj())
}

/// A name with its `/`.
pub open spec fn is_name_literal(b: Seq<u8>) -> bool {
    b.len() > 0 && b[0] == 0x2f && is_name_text(b.subrange(1, b.len() as int))
}

/// A string literal: string bytes between `(` and `)`, or at least one
/// between `<` and `>`.
pub open spec fn is_string_literal(b: Seq<u8>) -> bool {
    &&& b.len() >= 2
    &&& (b[0] == 0x28 && b[b.len() - 1] == 0x29) || (b[0] == 0x3c && b[b.len() - 1] == 0x3e
        && b.len() >= 3)
    &&& forall|i: int| 1 <= i < b.len() - 1 ==> is_string_byte(#[trigger] b[i])
}

/// A real literal: optional `-`, digits, `.`, optional digits, and nothing else.
pub open spec fn is_float_literal(b: Seq<u8>) -> bool {
    float_at(b, 0) == Some(b.len() as int)
}

/// Whether the text of a value denotes the value: every string is a string
/// literal or a name, every real a real literal, every key the text of a name.
pub open spec fn renderable(node: DictNode) -> bool
    decreases node,
{
    match node {
        DictNode::Dict(d) => renderable_entries(d.entries@),
        DictNode::Array(items) => renderable_items(items@),
        DictNode::Float(t) => is_float_literal(encode_utf8(t@)),
        DictNode::Str(t) => is_string_literal(encode_utf8(t@)) || is_name_literal(
            encode_utf8(t@),
        ),
        _ => true,
    }
}

/// Whether the text of every item denotes the item.
pub open spec fn renderable_items(items: Seq<DictNode>) -> bool
    decreases items,
{
    items.len() == 0 || (renderable(items[0]) && renderable_items(items.drop_first()))
}

/// Whether every key is the text of a name and the text of every value
/// denotes the value.
pub open spec fn renderable_entries(entries: Seq<Entry>) -> bool
    decreases entries,
{
    entries.len() == 0 || (is_name_text(encode_utf8(entries[0].key@)) && renderable(
        entries[0].value,
    ) && renderable_entries(entries.drop_first()))
}

/// Appends the text of a value.
pub fn write_node(node: &DictNode, out: &mut Vec<u8>)
    ensures
        final(out)@ == old(out)@ + rendered(*node),
    decreases node,
{
    match node {
        DictNode::Dict(d) => {
            out.push(0x3c);
            out.push(0x3c);
            out.push(0x20);
            let ghost base = out@;
            let mut i: usize = 0;
            assert(d.entries@.subrange(0, d.entries@.len() as int) =~= d.entries@);
            while i < d.entries.len()
                invariant
                    i <= d.entries.len(),
                    node is Dict,
                    node->Dict_0 == *d,
                    out@ + rendered_entries(d.entries@.subrange(i as int, d.entries@.len() as int))
                        == base + rendered_entries(d.entries@),
                decreases d.entries.len() - i,
            {
                let entry = &d.entries[i];
                let ghost before = out@;
                proof {
                    let rest = d.entries@.subrange(i as int, d.entries@.len() as int);
                    assert(rest[0] == d.entries@[i as int]);
                    assert(rest.drop_first() =~= d.entries@.subrange(
                        i + 1,
                        d.entries@.len() as int,
                    ));
                    assert(decreases_to!(*node => node->Dict_0));
                    assert(decreases_to!(*d => d.entries));
                    assert(decreases_to!(d.entries => d.entries@));
                    assert(decreases_to!(d.entries@ => d.entries@[i as int]));
                    assert(decreases_to!(d.entries@[i as int] => d.entries@[i as int].value));
                }
                out.push(0x2f);
                let key = entry.key.as_str().as_bytes();
                append_bytes(out, key, 0, key.len());
                out.push(0x20);
                write_node(&entry.value, out);
                proof {
                    assert(key@.subrange(0, key@.len() as int) =~= key@);
                    assert(out@ =~= before + rendered_entry(*entry));
                    let rest = d.entries@.subrange(i as int, d.entries@.len() as int);
                    let after = d.entries@.subrange(i + 1, d.entries@.len() as int);
                    assert(rendered_entries(rest) == rendered_entry(*entry) + rendered_entries(
                        after,
                    ));
                    assert(out@ + rendered_entries(after) =~= before + rendered_entries(rest));
                }
                i += 1;
            }
            let ghost filled = out@;
            out.push(0x3e);
            out.push(0x3e);
            out.push(0x20);
            proof {
                assert(rendered_entries(d.entries@.subrange(i as int, i as int)) =~= Seq::<
                    u8,
                >::empty());
                assert(filled =~= base + rendered_entries(d.entries@));
                assert(out@ =~= old(out)@ + rendered(*node));
            }
        },
        DictNode::Array(items) => {
            out.push(0x5b);
            out.push(0x20);
            let ghost base = out@;
            let mut i: usize = 0;
            assert(items@.subrange(0, items@.len() as int) =~= items@);
            while i < items.len()
                invariant
                    i <= items.len(),
                    node is Array,
                    node->Array_0 == *items,
                    out@ + rendered_items(items@.subrange(i as int, items@.len() as int)) == base
                        + rendered_items(items@),
                decreases items.len() - i,
            {
                let ghost before = out@;
                proof {
                    let rest = items@.subrange(i as int, items@.len() as int);
                    assert(rest[0] == items@[i as int]);
                    assert(rest.drop_first() =~= items@.subrange(i + 1, items@.len() as int));
                    assert(decreases_to!(*node => node->Array_0));
                    assert(decreases_to!(*items => items@));
                    assert(decreases_to!(items@ => items@[i as int]));
                }
                write_node(&items[i], out);
                proof {
                    let rest = items@.subrange(i as int, items@.len() as int);
                    let after = items@.subrange(i + 1, items@.len() as int);
                    assert(rendered_items(rest) == rendered(items@[i as int]) + rendered_items(
                        after,
                    ));
                    assert(out@ + rendered_items(after) =~= before + rendered_items(rest));
                }
                i += 1;
            }
            let ghost filled = out@;
            out.push(0x5d);
            out.push(0x20);
            proof {
                assert(rendered_items(items@.subrange(i as int, i as int)) =~= Seq::<u8>::empty());
                assert(filled =~= base + rendered_items(items@));
                assert(out@ =~= old(out)@ + rendered(*node));
            }
        },
        DictNode::ObjectReference(number, generation) => {
            let ghost a = out@;
            push_int(*number, out);
            out.push(0x20);
            push_int(*generation, out);
            out.push(0x20);
            out.push(0x52);
            out.push(0x20);
            assert(out@ =~= old(out)@ + rendered(*node));
        },
        DictNode::Bool(b) => {
            if *b {
                out.push(0x74);
                out.push(0x72);
                out.push(0x75);
                out.push(0x65);
            } else {
                out.push(0x66);
                out.push(0x61);
                out.push(0x6c);
                out.push(0x73);
                out.push(0x65);
            }
            out.push(0x20);
            assert(out@ =~= old(out)@ + rendered(*node));
        },
        DictNode::Int(i) => {
            push_int(*i, out);
            out.push(0x20);
            assert(out@ =~= old(out)@ + rendered(*node));
        },
        DictNode::Float(t) => {
            let bytes = t.as_str().as_bytes();
            append_bytes(out, bytes, 0, bytes.len());
            out.push(0x20);
            assert(bytes@.subrange(0, bytes@.len() as int) =~= bytes@);
            assert(out@ =~= old(out)@ + rendered(*node));
        },
        DictNode::Str(t) => {
            let bytes = t.as_str().as_bytes();
            append_bytes(out, bytes, 0, bytes.len());
            out.push(0x20);
            assert(bytes@.subrange(0, bytes@.len() as int) =~= bytes@);
            assert(out@ =~= old(out)@ + rendered(*node));
        },
    }
}

impl DictNode {
    /// The text of the value.  Where the value can be read back, reading
    /// the text gives the value.
    pub fn to_cos_text(&self) -> (text: Vec<u8>)
        ensures
            text@ == rendered(*self),
            renderable(*self) && nesting(*self) <= MAX_DEPTH ==> parsed_object(text@) == Ok::<
                Cos,
                PdfError,
            >(self@),
    {
        let mut out: Vec<u8> = Vec::new();
        write_node(self, &mut out);
        assert(out@ =~= rendered(*self));
        let length: usize = out.len();
        proof {
            assert(rendered(*self).len() == length);
            if renderable(*self) && nesting(*self) <= MAX_DEPTH {
                lemma_round_trip(*self);
            }
        }
        out
    }
}

/// Every item can be written and read back exactly if the items as a whole can.
pub proof fn lemma_items_each(items: Seq<DictNode>, depth: nat)
    ensures
        (renderable_items(items) && nesting_items(items) <= depth) <==> (forall|i: int|
            0 <= i < items.len() ==> renderable(#[trigger] items[i]) && nesting(items[i])
                <= depth),
    decreases items.len(),
{
    if items.len() > 0 {
        let rest = items.drop_first();
        lemma_items_each(rest, depth);
        if renderable_items(items) && nesting_items(items) <= depth {
            assert forall|i: int| 0 <= i < items.len() implies renderable(#[trigger] items[i])
                && nesting(items[i]) <= depth by {
                if i > 0 {
                    assert(items[i] == rest[i - 1]);
                }
            }
        }
        if forall|i: int|
            0 <= i < items.len() ==> renderable(#[trigger] items[i]) && nesting(items[i])
                <= depth {
            assert forall|i: int| 0 <= i < rest.len() implies renderable(#[trigger] rest[i])
                && nesting(rest[i]) <= depth by {
                assert(rest[i] == items[i + 1]);
            }
            assert(renderable(items[0]));
        }
    }
}

/// Every entry can be written and read back exactly if the entries as a
/// whole can.
pub proof fn lemma_entries_each(entries: Seq<Entry>, depth: nat)
    ensures
        (renderable_entries(entries) && nesting_entries(entries) <= depth) <==> (forall|i: int|
            0 <= i < entries.len() ==> is_name_text(encode_utf8((#[trigger] entries[i]).key@))
                && renderable(entries[i].value) && nesting(entries[i].value) <= depth),
    decreases entries.len(),
{
    if entries.len() > 0 {
        let rest = entries.drop_first();
        lemma_entries_each(rest, depth);
        if renderable_entries(entries) && nesting_entries(entries) <= depth {
            assert forall|i: int| 0 <= i < entries.len() implies is_name_text(
                encode_utf8((#[trigger] entries[i]).key@),
            ) && renderable(entries[i].value) && nesting(entries[i].value) <= depth by {
                if i > 0 {
                    assert(entries[i] == rest[i - 1]);
                }
            }
        }
        if forall|i: int|
            0 <= i < entries.len() ==> is_name_text(encode_utf8((#[trigger] entries[i]).key@))
                && renderable(entries[i].value) && nesting(entries[i].value) <= depth {
            assert forall|i: int| 0 <= i < rest.len() implies is_name_text(
                encode_utf8((#[trigger] rest[i]).key@),
            ) && renderable(rest[i].value) && nesting(rest[i].value) <= depth by {
                assert(rest[i] == entries[i + 1]);
            }
            assert(is_name_text(encode_utf8(entries[0].key@)));
        }
    }
}

/// Whether bytes are the text of a name behind its `/`.
pub fn name_text(k: &[u8]) -> (r: bool)
    ensures
        r == is_name_text(k@),
{
    let word: [u8; 6] = [0x65, 0x6e, 0x64, 0x6f, 0x62, 0x6a];
    assert(word@ =~= word_endobj());
    if k.len() == 0 {
        return false;
    }
    let mut i: usize = 0;
    while i < k.len()
        invariant
            i <= k.len(),
            word@ == word_endobj(),
            forall|j: int| 0 <= j < i ==> is_name_byte(#[trigger] k@[j]),
            forall|j: int|
                0 <= j < i && j + 1 < k.len() ==> !((#[trigger] k@[j]) == 0x3c && k@[j + 1] == 0x3c)
                    && !(k@[j] == 0x3e && k@[j + 1] == 0x3e),
            forall|j: int| 0 <= j < i ==> !#[trigger] has_at(k@, j, word_endobj()),
        decreases k.len() - i,
    {
        let b = k[i];
        if blank(b) || b == 0x5b || b == 0x5d || b == 0x2f || b == 0x28 || b == 0x29 {
            assert(!is_name_byte(k@[i as int]));
            return false;
        }
        if i + 1 < k.len() {
            let c = k[i + 1];
            if (b == 0x3c && c == 0x3c) || (b == 0x3e && c == 0x3e) {
                assert((k@[i as int] == 0x3c && k@[i + 1] == 0x3c) || (k@[i as int] == 0x3e && k@[i
                    + 1] == 0x3e));
                return false;
            }
        }
        if starts_with_at(k, i, word.as_slice()) {
            return false;
        }
        i += 1;
    }
    assert forall|j: int| 0 <= j implies !#[trigger] has_at(k@, j, word_endobj()) by {
        if j >= k.len() {
            assert(word_endobj().len() == 6);
        }
    }
    true
}

/// Whether bytes are a name with its `/`.
pub fn name_literal(b: &[u8]) -> (r: bool)
    ensures
        r == is_name_literal(b@),
{
    b.len() > 0 && b[0] == 0x2f && name_text(vstd::slice::slice_subrange(b, 1, b.len()))
}

/// Whether bytes are a string literal.
pub fn string_literal(b: &[u8]) -> (r: bool)
    ensures
        r == is_string_literal(b@),
{
    if b.len() < 2 {
        return false;
    }
    let first = b[0];
    let last = b[b.len() - 1];
    if !((first == 0x28 && last == 0x29) || (first == 0x3c && last == 0x3e && b.len() >= 3)) {
        return false;
    }
    let mut i: usize = 1;
    while i < b.len() - 1
        invariant
            1 <= i <= b.len() - 1,
            forall|j: int| 1 <= j < i ==> is_string_byte(#[trigger] b@[j]),
        decreases b.len() - i,
    {
        if !string_byte(b[i]) {
            assert(!is_string_byte(b@[i as int]));
            return false;
        }
        i += 1;
    }
    true
}

/// Whether bytes are a real literal.
pub fn float_literal(b: &[u8]) -> (r: bool)
    ensures
        r == is_float_literal(b@),
{
    match scan_float(b, 0) {
        Some(end) => end == b.len(),
        None => false,
    }
}

/// Whether a value can be written and read back, with at most `depth`
/// levels of nesting.
pub fn reads_back_within(node: &DictNode, depth: usize) -> (r: bool)
    ensures
        r == (renderable(*node) && nesting(*node) <= depth),
    decreases node,
{
    match node {
        DictNode::Dict(d) => {
            if depth == 0 {
                return false;
            }
            proof {
                lemma_entries_each(d.entries@, (depth - 1) as nat);
            }
            let mut i: usize = 0;
            while i < d.entries.len()
                invariant
                    i <= d.entries.len(),
                    depth > 0,
                    node is Dict,
                    node->Dict_0 == *d,
                    forall|j: int|
                        0 <= j < i ==> is_name_text(encode_utf8((#[trigger] d.entries@[j]).key@))
                            && renderable(d.entries@[j].value) && nesting(d.entries@[j].value)
                            <= depth - 1,
                decreases d.entries.len() - i,
            {
                let entry = &d.entries[i];
                proof {
                    assert(decreases_to!(*node => node->Dict_0));
                    assert(decreases_to!(*d => d.entries));
                    assert(decreases_to!(d.entries => d.entries@));
                    assert(decreases_to!(d.entries@ => d.entries@[i as int]));
                    assert(decreases_to!(d.entries@[i as int] => d.entries@[i as int].value));
                }
                if !name_text(entry.key.as_str().as_bytes()) || !reads_back_within(
                    &entry.value,
                    depth - 1,
                ) {
                    proof {
                        lemma_entries_each(d.entries@, (depth - 1) as nat);
                        assert(!(is_name_text(encode_utf8(d.entries@[i as int].key@))
                            && renderable(d.entries@[i as int].value) && nesting(
                            d.entries@[i as int].value,
                        ) <= depth - 1));
                    }
                    return false;
                }
                i += 1;
            }
            true
        },
        DictNode::Array(items) => {
            if depth == 0 {
                return false;
            }
            proof {
                lemma_items_each(items@, (depth - 1) as nat);
            }
            let mut i: usize = 0;
            while i < items.len()
                invariant
                    i <= items.len(),
                    depth > 0,
                    node is Array,
                    node->Array_0 == *items,
                    forall|j: int|
                        0 <= j < i ==> renderable(#[trigger] items@[j]) && nesting(items@[j])
                            <= depth - 1,
                decreases items.len() - i,
            {
                proof {
                    assert(decreases_to!(*node => node->Array_0));
                    assert(decreases_to!(*items => items@));
                    assert(decreases_to!(items@ => items@[i as int]));
                }
                if !reads_back_within(&items[i], depth - 1) {
                    proof {
                        lemma_items_each(items@, (depth - 1) as nat);
                        assert(!(renderable(items@[i as int]) && nesting(items@[i as int])
                            <= depth - 1));
                    }
                    return false;
                }
                i += 1;
            }
            true
        },
        DictNode::Float(t) => float_literal(t.as_str().as_bytes()),
        DictNode::Str(t) => {
            let bytes = t.as_str().as_bytes();
            string_literal(bytes) || name_literal(bytes)
        },
        _ => true,
    }
}

impl DictNode {
    /// Whether the text of the value, read back, is the value: every string
    /// is a string literal or a name, every real a real literal, every key
    /// the text of a name, and the nesting is within the parser's ceiling.
    pub fn reads_back(&self) -> (r: bool)
        ensures
            r == (renderable(*self) && nesting(*self) <= MAX_DEPTH),
    {
        reads_back_within(self, MAX_DEPTH)
    }
}

} // verus!
