//! The text of a value, read back, is the value.

use vstd::prelude::*;
use vstd::utf8::encode_utf8;
use crate::cos::{entries_map, lemma_nodes_view, nodes_view, Cos, DictNode, Entry};
use crate::error::PdfError;
use crate::grammar::{
    array_at, dictionary_at, items_from, keypair_at, node_at, pairs_from, reference_at, tok,
    Outcome, Rule, Token, MAX_DEPTH,
};
use crate::lex::{
    after_sign, boolean_at, digit_run_end, float_at, has_at, int_at, is_blank, is_digit,
    is_string_byte, key_at, lemma_digit_run_bounds, name_byte_at, name_run_end, skip_ws,
    special_at, string_at, string_run_end, word_endobj, word_false, word_true, ws_len,
};
use crate::number::{digits_of, int_text, lemma_digits_of, lemma_int_text};
use crate::parser::parsed_object;
use crate::render::{
    is_float_literal, is_name_byte, is_name_text, is_string_literal, nesting,
    nesting_entries, nesting_items, renderable, renderable_entries, renderable_items, rendered,
    rendered_entries, rendered_entry, rendered_items, space,
};
use crate::value::{
    built_items, built_leaf, built_node, built_pairs, key_text, lexeme, spans, Built,
};

verus! {

/// The bytes of a word that stands in a text are bytes of the text.
pub proof fn lemma_has_at_bytes(s: Seq<u8>, p: int, w: Seq<u8>)
    requires
        has_at(s, p, w),
    ensures
        forall|i: int| 0 <= i < w.len() ==> #[trigger] s[p + i] == w[i],
{
    assert forall|i: int| 0 <= i < w.len() implies #[trigger] s[p + i] == w[i] by {
        assert(s.subrange(p, p + w.len())[i] == w[i]);
    }
}

/// Where two words stand one behind the other, each of them stands.
pub proof fn lemma_has_at_split(s: Seq<u8>, p: int, a: Seq<u8>, b: Seq<u8>)
    requires
        has_at(s, p, a + b),
    ensures
        has_at(s, p, a),
        has_at(s, p + a.len(), b),
{
    lemma_has_at_bytes(s, p, a + b);
    assert(s.subrange(p, p + a.len()) =~= a) by {
        assert forall|i: int| 0 <= i < a.len() implies s.subrange(p, p + a.len())[i] == a[i] by {
            assert(s[p + i] == (a + b)[i]);
        }
    }
    assert(s.subrange(p + a.len(), p + a.len() + b.len()) =~= b) by {
        assert forall|i: int| 0 <= i < b.len() implies s.subrange(
            p + a.len(),
            p + a.len() + b.len(),
        )[i] == b[i] by {
            assert(s[p + (a.len() + i)] == (a + b)[a.len() + i]);
        }
    }
}

/// A run of digits ends where the digits end.
pub proof fn lemma_digit_run_to(s: Seq<u8>, from: int, to: int)
    requires
        0 <= from <= to <= s.len(),
        forall|i: int| from <= i < to ==> is_digit(#[trigger] s[i]),
        to == s.len() || !is_digit(s[to]),
    ensures
        digit_run_end(s, from) == to,
    decreases to - from,
{
    if from < to {
        assert(is_digit(s[from]));
        lemma_digit_run_to(s, from + 1, to);
    }
}

/// A run of string bytes ends where the string bytes end.
pub proof fn lemma_string_run_to(s: Seq<u8>, from: int, to: int)
    requires
        0 <= from <= to <= s.len(),
        forall|i: int| from <= i < to ==> is_string_byte(#[trigger] s[i]),
        to == s.len() || !is_string_byte(s[to]),
    ensures
        string_run_end(s, from) == to,
    decreases to - from,
{
    if from < to {
        assert(is_string_byte(s[from]));
        lemma_string_run_to(s, from + 1, to);
    }
}

/// A run of name bytes ends where the name bytes end.
pub proof fn lemma_name_run_to(s: Seq<u8>, from: int, to: int)
    requires
        0 <= from <= to <= s.len(),
        forall|i: int| from <= i < to ==> name_byte_at(s, i),
        !name_byte_at(s, to),
    ensures
        name_run_end(s, from) == to,
    decreases to - from,
{
    if from < to {
        assert(name_byte_at(s, from));
        lemma_name_run_to(s, from + 1, to);
    }
}

/// No whitespace stands where the byte is neither blank nor `e`.
pub proof fn lemma_no_whitespace(s: Seq<u8>, p: int)
    requires
        0 <= p <= s.len(),
        p < s.len() ==> !is_blank(s[p]) && s[p] != 0x65,
    ensures
        ws_len(s, p) == 0,
        skip_ws(s, p) == p,
{
    if has_at(s, p, word_endobj()) {
        lemma_has_at_bytes(s, p, word_endobj());
        assert(s[p + 0] == word_endobj()[0]);
    }
}

/// One space before a byte that is no whitespace is skipped, and no more.
pub proof fn lemma_skip_space(s: Seq<u8>, e: int)
    requires
        0 <= e < s.len(),
        s[e] == 0x20,
        ws_len(s, e + 1) == 0,
    ensures
        skip_ws(s, e) == e + 1,
{
    assert(ws_len(s, e) == 1);
    assert(skip_ws(s, e + 1) == e + 1);
}

/// The literal of an integer, with a byte behind it that is neither a digit
/// nor `.`, is read as an integer and not as a real number.
pub proof fn lemma_int_in_context(s: Seq<u8>, p: int, n: int)
    requires
        has_at(s, p, int_text(n)),
        p + int_text(n).len() == s.len() || (!is_digit(s[p + int_text(n).len()]) && s[p
            + int_text(n).len()] != 0x2e),
    ensures
        int_at(s, p) == Some(p + int_text(n).len()),
        float_at(s, p) is None,
        s[p] == 0x2d || is_digit(s[p]),
{
    let t = int_text(n);
    lemma_int_text(n);
    lemma_has_at_bytes(s, p, t);
    assert(s[p + 0] == t[0]);
    if n < 0 {
        let m = (-n) as nat;
        lemma_digits_of(m);
        assert(t[0] == 0x2d);
        assert forall|i: int| p + 1 <= i < p + t.len() implies is_digit(#[trigger] s[i]) by {
            assert(s[p + (i - p)] == t[i - p]);
            assert(t[i - p] == digits_of(m)[i - p - 1]);
        }
        lemma_digit_run_to(s, p + 1, p + t.len());
    } else {
        lemma_digits_of(n as nat);
        assert(is_digit(t[0]));
        assert forall|i: int| p <= i < p + t.len() implies is_digit(#[trigger] s[i]) by {
            assert(s[p + (i - p)] == t[i - p]);
        }
        lemma_digit_run_to(s, p, p + t.len());
    }
}

/// A real literal, with a byte behind it that is no digit, is read as a real
/// number.
pub proof fn lemma_float_in_context(s: Seq<u8>, p: int, b: Seq<u8>)
    requires
        has_at(s, p, b),
        is_float_literal(b),
        p + b.len() == s.len() || !is_digit(s[p + b.len()]),
    ensures
        float_at(s, p) == Some(p + b.len()),
        int_at(s, p) is None,
        b.len() >= 2,
        s[p] == 0x2d || is_digit(s[p]),
{
    lemma_has_at_bytes(s, p, b);
    let d = after_sign(b, 0);
    let e = digit_run_end(b, d);
    lemma_digit_run_bounds(b, d);
    lemma_digit_run_bounds(b, e + 1);
    assert(s[p + 0] == b[0]);
    assert(after_sign(s, p) == p + d);
    assert forall|i: int| p + d <= i < p + e implies is_digit(#[trigger] s[i]) by {
        assert(s[p + (i - p)] == b[i - p]);
    }
    assert(s[p + e] == b[e]);
    lemma_digit_run_to(s, p + d, p + e);
    assert forall|i: int| p + e + 1 <= i < p + b.len() implies is_digit(#[trigger] s[i]) by {
        assert(s[p + (i - p)] == b[i - p]);
    }
    lemma_digit_run_to(s, p + e + 1, p + b.len());
    assert(is_digit(b[d]));
    assert(s[p + d] == b[d]);
}

/// A string literal is read as a string wherever it stands.
pub proof fn lemma_string_in_context(s: Seq<u8>, p: int, b: Seq<u8>)
    requires
        has_at(s, p, b),
        is_string_literal(b),
    ensures
        string_at(s, p) == Some(p + b.len()),
        s[p] == 0x28 || s[p] == 0x3c,
{
    lemma_has_at_bytes(s, p, b);
    assert(s[p + 0] == b[0]);
    assert(s[p + (b.len() - 1)] == b[b.len() - 1]);
    assert forall|i: int| p + 1 <= i < p + b.len() - 1 implies is_string_byte(#[trigger] s[i]) by {
        assert(s[p + (i - p)] == b[i - p]);
    }
    lemma_string_run_to(s, p + 1, p + b.len() - 1);
}

/// The text of a name, with a space behind it, is a run of name bytes.
pub proof fn lemma_name_in_context(s: Seq<u8>, p: int, k: Seq<u8>)
    requires
        has_at(s, p, k),
        is_name_text(k),
        p + k.len() < s.len(),
        s[p + k.len()] == 0x20,
    ensures
        name_run_end(s, p) == p + k.len(),
        name_byte_at(s, p),
{
    lemma_has_at_bytes(s, p, k);
    assert forall|q: int| p <= q < p + k.len() implies name_byte_at(s, q) by {
        let i = q - p;
        assert(s[p + i] == k[i]);
        assert(is_name_byte(k[i]));
        if i + 1 < k.len() {
            assert(s[p + (i + 1)] == k[i + 1]);
        }
        assert(!special_at(s, q));
        if has_at(s, q, word_endobj()) {
            lemma_has_at_bytes(s, q, word_endobj());
            if i + 6 <= k.len() {
                assert(k.subrange(i, i + 6) =~= word_endobj()) by {
                    assert forall|j: int| 0 <= j < 6 implies k.subrange(i, i + 6)[j]
                        == word_endobj()[j] by {
                        assert(s[q + j] == word_endobj()[j]);
                        assert(s[p + (i + j)] == k[i + j]);
                    }
                }
                assert(has_at(k, i, word_endobj()));
            } else {
                let j = k.len() - i;
                assert(s[q + j] == word_endobj()[j]);
            }
        }
    }
    assert(!name_byte_at(s, p + k.len()));
    lemma_name_run_to(s, p, p + k.len());
}

/// A name, with a space behind it, is read as a name.
pub proof fn lemma_key_in_context(s: Seq<u8>, p: int, k: Seq<u8>)
    requires
        has_at(s, p, seq![0x2fu8] + k),
        is_name_text(k),
        p + 1 + k.len() < s.len(),
        s[p + 1 + k.len()] == 0x20,
    ensures
        key_at(s, p) == Some(p + 1 + k.len()),
        s[p] == 0x2f,
{
    lemma_has_at_split(s, p, seq![0x2fu8], k);
    lemma_has_at_bytes(s, p, seq![0x2fu8]);
    assert(s[p + 0] == 0x2f);
    lemma_name_in_context(s, p + 1, k);
}

/// Neither whitespace nor `R` stands at `e`.
pub open spec fn plain_at(s: Seq<u8>, e: int) -> bool {
    0 <= e <= s.len() && (e < s.len() ==> !is_blank(s[e]) && s[e] != 0x65 && s[e] != 0x52)
}

/// No integer with `R` behind it stands at `e`.
pub open spec fn no_pair_at(s: Seq<u8>, e: int) -> bool {
    match int_at(s, e) {
        None => true,
        Some(second_end) => !(0 <= skip_ws(s, second_end) < s.len() && s[skip_ws(s, second_end)] == 0x52),
    }
}

/// What stands at `e` cannot be taken for the rest of a reference.
pub open spec fn clear_at(s: Seq<u8>, e: int) -> bool {
    plain_at(s, e) && no_pair_at(s, e)
}

/// The production that reads a value without parts.
pub open spec fn leaf_rule(node: DictNode) -> Rule {
    match node {
        DictNode::Int(_) => Rule::Integer,
        DictNode::Float(_) => Rule::Float,
        DictNode::Bool(_) => Rule::Boolean,
        DictNode::Str(t) => if is_string_literal(encode_utf8(t@)) {
            Rule::Str
        } else {
            Rule::Key
        },
        _ => Rule::Reference,
    }
}

/// Whether a value has no parts and is no reference.
pub open spec fn is_scalar(node: DictNode) -> bool {
    node is Int || node is Float || node is Bool || node is Str
}

/// No integer stands where the first byte is neither `-` nor a digit.
pub proof fn lemma_no_int(s: Seq<u8>, p: int)
    requires
        0 <= p <= s.len(),
        p < s.len() ==> s[p] != 0x2d && !is_digit(s[p]),
    ensures
        int_at(s, p) is None,
        float_at(s, p) is None,
        reference_at(s, p) is NoMatch,
{
}

/// The text of a value has at least two bytes and ends with a space.
pub proof fn lemma_rendered_shape(node: DictNode)
    requires
        renderable(node),
    ensures
        rendered(node).len() >= 2,
        rendered(node)[rendered(node).len() - 1] == 0x20,
{
    match node {
        DictNode::Int(i) => {
            lemma_int_text(i as int);
        },
        DictNode::ObjectReference(n, g) => {
            lemma_int_text(n as int);
            lemma_int_text(g as int);
        },
        DictNode::Float(t) => {
            let b = encode_utf8(t@);
            let d = after_sign(b, 0);
            lemma_digit_run_bounds(b, d);
            lemma_digit_run_bounds(b, digit_run_end(b, d) + 1);
        },
        _ => {},
    }
}

/// What the text of a value starts with cannot be taken for whitespace, for
/// `R`, for a closing delimiter, or for the rest of a reference.
pub proof fn lemma_rendered_start(node: DictNode, s: Seq<u8>, p: int)
    requires
        renderable(node),
        has_at(s, p, rendered(node)),
        plain_at(s, p + rendered(node).len()),
    ensures
        clear_at(s, p),
        p < s.len(),
        s[p] != 0x5d,
        s[p] != 0x3e,
        !(node is Dict) ==> s[p] != 0x3c || !(p + 1 < s.len() && s[p + 1] == 0x3c),
{
    let r = rendered(node);
    lemma_rendered_shape(node);
    lemma_has_at_bytes(s, p, r);
    assert(s[p + 0] == r[0]);
    assert(s[p + 1] == r[1]);
    match node {
        DictNode::Dict(d) => {
            lemma_no_int(s, p);
        },
        DictNode::Array(items) => {
            lemma_no_int(s, p);
        },
        DictNode::ObjectReference(n, g) => {
            let a = int_text(n as int);
            let b = int_text(g as int);
            lemma_int_text(n as int);
            lemma_int_text(g as int);
            assert(r =~= a + (space() + b + seq![0x20u8, 0x52u8, 0x20u8]));
            lemma_has_at_split(s, p, a, space() + b + seq![0x20u8, 0x52u8, 0x20u8]);
            assert(s[p + a.len()] == r[a.len() as int]);
            lemma_int_in_context(s, p, n as int);
            assert(s[p + (a.len() + 1)] == r[(a.len() + 1) as int]);
            assert(r[(a.len() + 1) as int] == b[0]);
            lemma_digits_of(0);
            assert(b[0] == 0x2d || is_digit(b[0])) by {
                if g < 0 {
                } else {
                    lemma_digits_of(g as nat);
                    assert(is_digit(digits_of(g as nat)[0]));
                }
            }
            lemma_no_whitespace(s, p + a.len() + 1);
            lemma_skip_space(s, p + a.len());
        },
        DictNode::Bool(b) => {
            lemma_no_int(s, p);
        },
        DictNode::Int(i) => {
            let t = int_text(i as int);
            lemma_int_text(i as int);
            lemma_has_at_split(s, p, t, space());
            assert(s[p + t.len()] == r[t.len() as int]);
            lemma_int_in_context(s, p, i as int);
            let e = p + r.len();
            assert(ws_len(s, e) == 0) by {
                lemma_no_whitespace(s, e);
            }
            lemma_skip_space(s, p + t.len());
        },
        DictNode::Float(t) => {
            let b = encode_utf8(t@);
            lemma_has_at_split(s, p, b, space());
            assert(s[p + b.len()] == r[b.len() as int]);
            lemma_float_in_context(s, p, b);
        },
        DictNode::Str(t) => {
            let b = encode_utf8(t@);
            lemma_has_at_split(s, p, b, space());
            lemma_has_at_bytes(s, p, b);
            assert(s[p + 0] == b[0]);
            lemma_no_int(s, p);
            if is_string_literal(b) {
                assert(b[1] != 0x3c) by {
                    if b.len() > 2 {
                        assert(is_string_byte(b[1]));
                    }
                }
                assert(s[p + 1] == r[1]);
            }
        },
    }
}

/// A value without parts is read from its text by the production for it.
pub proof fn lemma_scalar_read(node: DictNode, s: Seq<u8>, p: int, depth: nat)
    requires
        is_scalar(node),
        renderable(node),
        has_at(s, p, rendered(node)),
        clear_at(s, p + rendered(node).len()),
    ensures
        node_at(s, p, depth) == (Outcome::Match {
            tokens: seq![tok(leaf_rule(node), p, p + rendered(node).len() - 1)],
            end: p + rendered(node).len() - 1,
        }),
{
    let r = rendered(node);
    lemma_rendered_shape(node);
    lemma_has_at_bytes(s, p, r);
    assert(s[p + 0] == r[0]);
    let e = p + r.len();
    match node {
        DictNode::Bool(b) => {
            lemma_no_int(s, p);
            if b {
                lemma_has_at_split(s, p, word_true(), space());
            } else {
                lemma_has_at_split(s, p, word_false(), space());
                if has_at(s, p, word_true()) {
                    lemma_has_at_bytes(s, p, word_true());
                    assert(s[p + 0] == word_true()[0]);
                }
            }
            assert(string_at(s, p) is None);
            assert(key_at(s, p) is None);
            assert(array_at(s, p, depth) is NoMatch);
        },
        DictNode::Int(i) => {
            let t = int_text(i as int);
            lemma_int_text(i as int);
            lemma_has_at_split(s, p, t, space());
            assert(s[p + t.len()] == r[t.len() as int]);
            lemma_int_in_context(s, p, i as int);
            assert(ws_len(s, e) == 0) by {
                lemma_no_whitespace(s, e);
            }
            lemma_skip_space(s, p + t.len());
            assert(reference_at(s, p) is NoMatch);
            assert(string_at(s, p) is None);
            assert(key_at(s, p) is None);
            assert(array_at(s, p, depth) is NoMatch);
        },
        DictNode::Float(t) => {
            let b = encode_utf8(t@);
            lemma_has_at_split(s, p, b, space());
            assert(s[p + b.len()] == r[b.len() as int]);
            lemma_float_in_context(s, p, b);
            assert(reference_at(s, p) is NoMatch);
            assert(string_at(s, p) is None);
            assert(key_at(s, p) is None);
            assert(array_at(s, p, depth) is NoMatch);
        },
        DictNode::Str(t) => {
            let b = encode_utf8(t@);
            lemma_has_at_split(s, p, b, space());
            lemma_has_at_bytes(s, p, b);
            assert(s[p + 0] == b[0]);
            lemma_no_int(s, p);
            assert(array_at(s, p, depth) is NoMatch);
            if is_string_literal(b) {
                lemma_string_in_context(s, p, b);
            } else {
                let k = b.subrange(1, b.len() as int);
                assert(b =~= seq![0x2fu8] + k);
                assert(s[p + b.len()] == r[b.len() as int]);
                lemma_key_in_context(s, p, k);
                assert(string_at(s, p) is None);
            }
        },
        _ => {},
    }
}

/// A reference is read from its text by the production for references.
#[verifier::rlimit(60)]
#[verifier::spinoff_prover]
pub proof fn lemma_reference_read(number: i64, generation: i64, s: Seq<u8>, p: int, depth: nat)
    requires
        has_at(s, p, rendered(DictNode::ObjectReference(number, generation))),
    ensures
        ({
            let a = int_text(number as int).len();
            let b = int_text(generation as int).len();
            node_at(s, p, depth) == (Outcome::Match {
                tokens: seq![
                    tok(Rule::Reference, p, p + a + b + 3),
                    tok(Rule::Integer, p, p + a),
                    tok(Rule::Integer, p + a + 1, p + a + 1 + b),
                ],
                end: p + a + b + 3,
            })
        }),
{
    let r = rendered(DictNode::ObjectReference(number, generation));
    let a = int_text(number as int);
    let b = int_text(generation as int);
    lemma_int_text(number as int);
    lemma_int_text(generation as int);
    lemma_has_at_bytes(s, p, r);
    assert(r =~= a + (space() + b + seq![0x20u8, 0x52u8, 0x20u8]));
    lemma_has_at_split(s, p, a, space() + b + seq![0x20u8, 0x52u8, 0x20u8]);
    assert(s[p + a.len()] == r[a.len() as int]);
    lemma_int_in_context(s, p, number as int);
    let second = p + a.len() + 1;
    assert(r =~= (a + space()) + (b + seq![0x20u8, 0x52u8, 0x20u8]));
    lemma_has_at_split(s, p, a + space(), b + seq![0x20u8, 0x52u8, 0x20u8]);
    lemma_has_at_split(s, second, b, seq![0x20u8, 0x52u8, 0x20u8]);
    assert(s[p + (a.len() + 1 + b.len())] == r[(a.len() + 1 + b.len()) as int]);
    lemma_int_in_context(s, second, generation as int);
    lemma_no_whitespace(s, second);
    lemma_skip_space(s, p + a.len());
    let third = second + b.len() + 1;
    assert(s[p + (a.len() + 1 + b.len() + 1)] == r[(a.len() + 1 + b.len() + 1) as int]);
    lemma_no_whitespace(s, third);
    lemma_skip_space(s, second + b.len());
    assert(array_at(s, p, depth) is NoMatch);
}

/// The first byte of the text of a value is no whitespace, no `R` and no
/// closing delimiter.
pub proof fn lemma_first_byte(node: DictNode, s: Seq<u8>, p: int)
    requires
        renderable(node),
        has_at(s, p, rendered(node)),
    ensures
        plain_at(s, p),
        p < s.len(),
        s[p] != 0x5d,
        s[p] != 0x3e,
        s[p] != 0x2f || node is Str,
{
    let r = rendered(node);
    lemma_rendered_shape(node);
    lemma_has_at_bytes(s, p, r);
    assert(s[p + 0] == r[0]);
    match node {
        DictNode::ObjectReference(n, g) => {
            lemma_int_text(n as int);
            let a = int_text(n as int);
            assert(r[0] == a[0]);
            if n >= 0 {
                lemma_digits_of(n as nat);
                assert(is_digit(digits_of(n as nat)[0]));
            }
        },
        DictNode::Int(i) => {
            lemma_int_text(i as int);
            let a = int_text(i as int);
            assert(r[0] == a[0]);
            if i >= 0 {
                lemma_digits_of(i as nat);
                assert(is_digit(digits_of(i as nat)[0]));
            }
        },
        DictNode::Float(t) => {
            let b = encode_utf8(t@);
            let d = after_sign(b, 0);
            lemma_digit_run_bounds(b, d);
            assert(is_digit(b[d]));
            assert(r[0] == b[0]);
        },
        DictNode::Str(t) => {
            let b = encode_utf8(t@);
            assert(r[0] == b[0]);
        },
        _ => {},
    }
}

/// No node stands at a closing delimiter.
pub proof fn lemma_no_node_at_close(s: Seq<u8>, p: int, depth: nat)
    requires
        0 <= p < s.len(),
        s[p] == 0x5d || s[p] == 0x3e,
    ensures
        node_at(s, p, depth) is NoMatch,
        keypair_at(s, p, depth) is NoMatch,
        clear_at(s, p),
{
    lemma_no_int(s, p);
    assert(array_at(s, p, depth) is NoMatch);
    assert(dictionary_at(s, p, depth) is NoMatch);
    assert(string_at(s, p) is None);
    assert(key_at(s, p) is None);
    if has_at(s, p, word_true()) {
        lemma_has_at_bytes(s, p, word_true());
        assert(s[p + 0] == word_true()[0]);
    }
    if has_at(s, p, word_false()) {
        lemma_has_at_bytes(s, p, word_false());
        assert(s[p + 0] == word_false()[0]);
    }
}

/// What the texts of items with `]` behind them start with cannot be taken
/// for the rest of a reference.
pub proof fn lemma_items_start(items: Seq<DictNode>, s: Seq<u8>, p: int)
    requires
        renderable_items(items),
        has_at(s, p, rendered_items(items)),
        p + rendered_items(items).len() < s.len(),
        s[p + rendered_items(items).len()] == 0x5d,
    ensures
        clear_at(s, p),
{
    if items.len() == 0 {
        lemma_no_node_at_close(s, p, 0);
    } else {
        let r0 = rendered(items[0]);
        let rest = items.drop_first();
        lemma_has_at_split(s, p, r0, rendered_items(rest));
        let e = p + r0.len();
        if rest.len() == 0 {
            lemma_no_node_at_close(s, e, 0);
        } else {
            assert(renderable_items(rest));
            assert(renderable(rest[0]));
            lemma_has_at_split(s, e, rendered(rest[0]), rendered_items(rest.drop_first()));
            lemma_first_byte(rest[0], s, e);
        }
        lemma_rendered_start(items[0], s, p);
    }
}

/// `/` or `>` stands where the texts of entries with `>>` behind them start.
pub proof fn lemma_entries_start(entries: Seq<Entry>, s: Seq<u8>, p: int)
    requires
        has_at(s, p, rendered_entries(entries)),
        p + rendered_entries(entries).len() < s.len(),
        s[p + rendered_entries(entries).len()] == 0x3e,
    ensures
        clear_at(s, p),
        s[p] == 0x2f || s[p] == 0x3e,
{
    if entries.len() == 0 {
        lemma_no_node_at_close(s, p, 0);
    } else {
        let y = rendered_entries(entries);
        let first = rendered_entry(entries[0]);
        assert(y == first + rendered_entries(entries.drop_first()));
        assert(first[0] == 0x2f);
        lemma_has_at_bytes(s, p, y);
        assert(s[p + 0] == y[0]);
        lemma_no_int(s, p);
    }
}

/// The grammar reads the text of a value as one node that ends before the
/// space at the end of the text.
pub proof fn lemma_node_read(node: DictNode, s: Seq<u8>, p: int, depth: nat)
    requires
        renderable(node),
        nesting(node) <= depth,
        has_at(s, p, rendered(node)),
        clear_at(s, p + rendered(node).len()),
    ensures
        node_at(s, p, depth) is Match,
        node_at(s, p, depth)->end == p + rendered(node).len() - 1,
    decreases node,
{
    let r = rendered(node);
    match node {
        DictNode::Array(items) => {
            let x = rendered_items(items@);
            let open = seq![0x5bu8, 0x20u8];
            let close = seq![0x5du8, 0x20u8];
            assert(r =~= open + (x + close));
            lemma_has_at_split(s, p, open, x + close);
            lemma_has_at_split(s, p + 2, x, close);
            lemma_has_at_bytes(s, p, open);
            lemma_has_at_bytes(s, p + 2 + x.len(), close);
            assert(s[p + 0] == open[0]);
            assert(s[p + 1] == open[1]);
            assert(s[p + 2 + x.len() + 0] == close[0]);
            lemma_items_start(items@, s, p + 2);
            lemma_no_whitespace(s, p + 2);
            lemma_skip_space(s, p + 1);
            lemma_items_read(items@, s, p + 2, (depth - 1) as nat);
        },
        DictNode::Dict(d) => {
            let y = rendered_entries(d.entries@);
            let open = seq![0x3cu8, 0x3cu8, 0x20u8];
            let close = seq![0x3eu8, 0x3eu8, 0x20u8];
            assert(r =~= open + (y + close));
            lemma_has_at_split(s, p, open, y + close);
            lemma_has_at_split(s, p + 3, y, close);
            lemma_has_at_bytes(s, p, open);
            lemma_has_at_bytes(s, p + 3 + y.len(), close);
            assert(s[p + 0] == open[0]);
            assert(s[p + 1] == open[1]);
            assert(s[p + 2] == open[2]);
            assert(s[p + 3 + y.len() + 0] == close[0]);
            assert(s[p + 3 + y.len() + 1] == close[1]);
            lemma_entries_start(d.entries@, s, p + 3);
            lemma_no_whitespace(s, p + 3);
            lemma_skip_space(s, p + 2);
            lemma_pairs_read(d.entries@, s, p + 3, (depth - 1) as nat);
            lemma_no_int(s, p);
            assert(array_at(s, p, depth) is NoMatch);
            assert(string_at(s, p) is None);
            assert(key_at(s, p) is None);
            if has_at(s, p, word_true()) {
                lemma_has_at_bytes(s, p, word_true());
                assert(s[p + 0] == word_true()[0]);
            }
            if has_at(s, p, word_false()) {
                lemma_has_at_bytes(s, p, word_false());
                assert(s[p + 0] == word_false()[0]);
            }
            assert(boolean_at(s, p) is None);
        },
        DictNode::ObjectReference(number, generation) => {
            lemma_reference_read(number, generation, s, p, depth);
        },
        _ => {
            lemma_scalar_read(node, s, p, depth);
        },
    }
}

/// The grammar reads the texts of the items of an array, with `]` behind
/// them, as nodes up to that `]`.
pub proof fn lemma_items_read(items: Seq<DictNode>, s: Seq<u8>, p: int, depth: nat)
    requires
        renderable_items(items),
        nesting_items(items) <= depth,
        has_at(s, p, rendered_items(items)),
        p + rendered_items(items).len() < s.len(),
        s[p + rendered_items(items).len()] == 0x5d,
    ensures
        !items_from(s, p, depth).too_deep,
        items_from(s, p, depth).end == p + rendered_items(items).len(),
    decreases items,
{
    if items.len() == 0 {
        lemma_no_node_at_close(s, p, depth);
    } else {
        let first = items[0];
        let rest = items.drop_first();
        let r0 = rendered(first);
        let e = p + r0.len();
        lemma_has_at_split(s, p, r0, rendered_items(rest));
        lemma_items_start(rest, s, e);
        lemma_node_read(first, s, p, depth);
        lemma_rendered_shape(first);
        lemma_has_at_bytes(s, p, r0);
        assert(s[p + (r0.len() - 1)] == r0[r0.len() - 1]);
        lemma_no_whitespace(s, e);
        lemma_skip_space(s, e - 1);
        lemma_items_read(rest, s, e, depth);
    }
}

/// The grammar reads the texts of the entries of a dictionary, with `>>`
/// behind them, as key pairs up to that `>>`.
pub proof fn lemma_pairs_read(entries: Seq<Entry>, s: Seq<u8>, p: int, depth: nat)
    requires
        renderable_entries(entries),
        nesting_entries(entries) <= depth,
        has_at(s, p, rendered_entries(entries)),
        p + rendered_entries(entries).len() < s.len(),
        s[p + rendered_entries(entries).len()] == 0x3e,
    ensures
        !pairs_from(s, p, depth).too_deep,
        pairs_from(s, p, depth).end == p + rendered_entries(entries).len(),
    decreases entries,
{
    if entries.len() == 0 {
        lemma_no_node_at_close(s, p, depth);
    } else {
        let first = entries[0];
        let rest = entries.drop_first();
        let k = encode_utf8(first.key@);
        let rv = rendered(first.value);
        let r0 = rendered_entry(first);
        let pv = p + 2 + k.len();
        let e = p + r0.len();
        lemma_has_at_split(s, p, r0, rendered_entries(rest));
        assert(r0 =~= (seq![0x2fu8] + k) + (space() + rv));
        lemma_has_at_split(s, p, seq![0x2fu8] + k, space() + rv);
        lemma_has_at_split(s, p + 1 + k.len(), space(), rv);
        lemma_has_at_bytes(s, p + 1 + k.len(), space());
        assert(s[p + 1 + k.len() + 0] == space()[0]);
        lemma_rendered_shape(first.value);
        lemma_key_in_context(s, p, k);
        lemma_first_byte(first.value, s, pv);
        lemma_no_whitespace(s, pv);
        lemma_skip_space(s, pv - 1);
        lemma_entries_start(rest, s, e);
        lemma_node_read(first.value, s, pv, depth);
        lemma_has_at_bytes(s, pv, rv);
        assert(s[pv + (rv.len() - 1)] == rv[rv.len() - 1]);
        lemma_no_whitespace(s, e);
        lemma_skip_space(s, e - 1);
        lemma_pairs_read(rest, s, e, depth);
        assert(key_at(s, p) == Some(p + 1 + k.len()));
        assert(skip_ws(s, p + 1 + k.len()) == pv);
        assert(keypair_at(s, p, depth) is Match);
        assert(keypair_at(s, p, depth)->end == e - 1);
        assert(skip_ws(s, e - 1) == e);
    }
}

/// Whether the tokens `t` stand in `q` from index `i` on.
pub open spec fn holds<T>(q: Seq<T>, i: int, t: Seq<T>) -> bool {
    0 <= i && i + t.len() <= q.len() && q.subrange(i, i + t.len()) == t
}

/// The tokens that stand in a sequence are tokens of the sequence.
pub proof fn lemma_holds_tokens<T>(q: Seq<T>, i: int, t: Seq<T>)
    requires
        holds(q, i, t),
    ensures
        forall|k: int| 0 <= k < t.len() ==> #[trigger] q[i + k] == t[k],
{
    assert forall|k: int| 0 <= k < t.len() implies #[trigger] q[i + k] == t[k] by {
        assert(q.subrange(i, i + t.len())[k] == t[k]);
    }
}

/// Where two runs of tokens stand one behind the other, each of them stands.
pub proof fn lemma_holds_split<T>(q: Seq<T>, i: int, a: Seq<T>, b: Seq<T>)
    requires
        holds(q, i, a + b),
    ensures
        holds(q, i, a),
        holds(q, i + a.len(), b),
{
    lemma_holds_tokens(q, i, a + b);
    assert(q.subrange(i, i + a.len()) =~= a) by {
        assert forall|k: int| 0 <= k < a.len() implies q.subrange(i, i + a.len())[k] == a[k] by {
            assert(q[i + k] == (a + b)[k]);
        }
    }
    assert(q.subrange(i + a.len(), i + a.len() + b.len()) =~= b) by {
        assert forall|k: int| 0 <= k < b.len() implies q.subrange(
            i + a.len(),
            i + a.len() + b.len(),
        )[k] == b[k] by {
            assert(q[i + (a.len() + k)] == (a + b)[a.len() + k]);
        }
    }
}

/// The tokens of a node start with the token of a production for values.
pub proof fn lemma_first_token(s: Seq<u8>, p: int, depth: nat)
    requires
        node_at(s, p, depth) is Match,
    ensures
        node_at(s, p, depth)->tokens.len() >= 1,
        node_at(s, p, depth)->tokens[0].rule != Rule::EndArray,
        node_at(s, p, depth)->tokens[0].rule != Rule::EndDict,
{
    let a = array_at(s, p, depth);
    if a is Match {
    } else if reference_at(s, p) is Match {
    } else if string_at(s, p) is Some {
    } else if key_at(s, p) is Some {
    } else if int_at(s, p) is Some {
    } else if float_at(s, p) is Some {
    } else if boolean_at(s, p) is Some {
    } else {
        assert(dictionary_at(s, p, depth) is Match);
    }
}

/// The value that is built from the token of a value without parts is the value.
pub proof fn lemma_scalar_built(node: DictNode, s: Seq<u8>, p: int, t: Token)
    requires
        is_scalar(node),
        renderable(node),
        has_at(s, p, rendered(node)),
        s.len() <= usize::MAX,
        t == tok(leaf_rule(node), p, p + rendered(node).len() - 1),
    ensures
        spans(s, t),
        built_leaf(s, t) == Ok::<Cos, PdfError>(node@),
{
    let r = rendered(node);
    lemma_rendered_shape(node);
    let e = p + r.len() - 1;
    let body = r.subrange(0, r.len() - 1);
    assert(r =~= body + space());
    lemma_has_at_split(s, p, body, space());
    assert(lexeme(s, t) == body);
    match node {
        DictNode::Int(i) => {
            lemma_int_text(i as int);
            assert(body =~= int_text(i as int));
        },
        DictNode::Bool(b) => {
            if b {
                assert(body =~= word_true());
            } else {
                assert(body =~= word_false());
                assert(word_false().len() != word_true().len());
            }
        },
        DictNode::Float(x) => {
            assert(body =~= encode_utf8(x@));
            vstd::utf8::encode_utf8_valid_utf8(x@);
            vstd::utf8::encode_utf8_decode_utf8(x@);
        },
        DictNode::Str(x) => {
            assert(body =~= encode_utf8(x@));
            vstd::utf8::encode_utf8_valid_utf8(x@);
            vstd::utf8::encode_utf8_decode_utf8(x@);
        },
        _ => {},
    }
}

/// Values from the front: the values of a sequence of nodes are the value of
/// the first and the values of the others.
pub proof fn lemma_nodes_view_front(items: Seq<DictNode>)
    requires
        items.len() > 0,
    ensures
        nodes_view(items) == seq![items[0]@] + nodes_view(items.drop_first()),
{
    lemma_nodes_view(items);
    lemma_nodes_view(items.drop_first());
    assert(nodes_view(items) =~= seq![items[0]@] + nodes_view(items.drop_first()));
}

/// The mapping of entries that are laid over `base` one after the other.
pub open spec fn laid_over(base: Map<Seq<char>, Cos>, entries: Seq<Entry>) -> Map<Seq<char>, Cos>
    decreases entries.len(),
{
    if entries.len() == 0 {
        base
    } else {
        laid_over(base.insert(entries[0].key@, entries[0].value@), entries.drop_first())
    }
}

/// Laying entries over a mapping from the front gives what laying the last
/// over the others gives.
pub proof fn lemma_laid_over_last(base: Map<Seq<char>, Cos>, entries: Seq<Entry>)
    requires
        entries.len() > 0,
    ensures
        laid_over(base, entries) == laid_over(base, entries.drop_last()).insert(
            entries.last().key@,
            entries.last().value@,
        ),
    decreases entries.len(),
{
    if entries.len() == 1 {
        assert(entries.drop_first() =~= Seq::<Entry>::empty());
        assert(entries.drop_last() =~= Seq::<Entry>::empty());
        assert(laid_over(base.insert(entries[0].key@, entries[0].value@), entries.drop_first())
            == base.insert(entries[0].key@, entries[0].value@));
    } else {
        let next = base.insert(entries[0].key@, entries[0].value@);
        lemma_laid_over_last(next, entries.drop_first());
        assert(entries.drop_first().drop_last() =~= entries.drop_last().drop_first());
        assert(entries.drop_first().last() == entries.last());
        assert(entries.drop_last()[0] == entries[0]);
        assert(laid_over(base, entries.drop_last()) == laid_over(
            next,
            entries.drop_last().drop_first(),
        ));
    }
}

/// Entries laid over the empty mapping give the mapping of the entries.
pub proof fn lemma_laid_over_empty(entries: Seq<Entry>)
    ensures
        laid_over(Map::empty(), entries) == entries_map(entries),
    decreases entries.len(),
{
    if entries.len() > 0 {
        lemma_laid_over_last(Map::empty(), entries);
        lemma_laid_over_empty(entries.drop_last());
    }
}

/// The value that is built from the tokens of the text of a value is the value.
pub proof fn lemma_node_built(
    node: DictNode,
    s: Seq<u8>,
    p: int,
    depth: nat,
    q: Seq<Token>,
    i: int,
)
    requires
        renderable(node),
        nesting(node) <= depth,
        has_at(s, p, rendered(node)),
        clear_at(s, p + rendered(node).len()),
        s.len() <= usize::MAX,
        node_at(s, p, depth) is Match,
        holds(q, i, node_at(s, p, depth)->tokens),
    ensures
        built_node(s, q, i, depth) == (Built::Done {
            value: node@,
            next: i + node_at(s, p, depth)->tokens.len(),
        }),
    decreases node, 1int,
{
    match node {
        DictNode::Array(_) => {
            lemma_array_built(node, s, p, depth, q, i);
        },
        DictNode::Dict(_) => {
            lemma_dict_built(node, s, p, depth, q, i);
        },
        DictNode::ObjectReference(_, _) => {
            lemma_reference_built(node, s, p, depth, q, i);
        },
        _ => {
            let t = node_at(s, p, depth)->tokens;
            lemma_holds_tokens(q, i, t);
            lemma_scalar_read(node, s, p, depth);
            assert(q[i + 0] == t[0]);
            lemma_scalar_built(node, s, p, t[0]);
        },
    }
}

/// The value that is built from the tokens of the text of an array is the array.
#[verifier::rlimit(60)]
#[verifier::spinoff_prover]
pub proof fn lemma_array_built(
    node: DictNode,
    s: Seq<u8>,
    p: int,
    depth: nat,
    q: Seq<Token>,
    i: int,
)
    requires
        renderable(node),
        nesting(node) <= depth,
        has_at(s, p, rendered(node)),
        clear_at(s, p + rendered(node).len()),
        s.len() <= usize::MAX,
        node_at(s, p, depth) is Match,
        holds(q, i, node_at(s, p, depth)->tokens),
        node is Array,
    ensures
        built_node(s, q, i, depth) == (Built::Done {
            value: node@,
            next: i + node_at(s, p, depth)->tokens.len(),
        }),
    decreases node, 0int,
{
    let r = rendered(node);
    let t = node_at(s, p, depth)->tokens;
    lemma_holds_tokens(q, i, t);
    let items = node->Array_0;
    let x = rendered_items(items@);
    let open = seq![0x5bu8, 0x20u8];
    let close = seq![0x5du8, 0x20u8];
    assert(r =~= open + (x + close));
    lemma_has_at_split(s, p, open, x + close);
    lemma_has_at_split(s, p + 2, x, close);
    lemma_has_at_bytes(s, p, open);
    lemma_has_at_bytes(s, p + 2 + x.len(), close);
    assert(s[p + 0] == open[0]);
    assert(s[p + 1] == open[1]);
    assert(s[p + 2 + x.len() + 0] == close[0]);
    lemma_items_start(items@, s, p + 2);
    lemma_no_whitespace(s, p + 2);
    lemma_skip_space(s, p + 1);
    lemma_items_read(items@, s, p + 2, (depth - 1) as nat);
    let run = items_from(s, p + 2, (depth - 1) as nat);
    let head = seq![tok(Rule::Array, p, run.end + 1), tok(Rule::BeginArray, p, p + 1)];
    let tail = seq![tok(Rule::EndArray, run.end, run.end + 1)];
    assert(t == head + run.tokens + tail);
    lemma_holds_split(q, i, head + run.tokens, tail);
    lemma_holds_split(q, i, head, run.tokens);
    lemma_holds_tokens(q, i, head);
    lemma_holds_tokens(q, i + 2 + run.tokens.len(), tail);
    assert(q[i + 0] == head[0]);
    assert(q[i + 1] == head[1]);
    assert(q[i + 2 + run.tokens.len() + 0] == tail[0]);
    lemma_items_built(items@, s, p + 2, (depth - 1) as nat, q, i + 2, seq![]);
    assert(Seq::<Cos>::empty() + nodes_view(items@) =~= nodes_view(items@));
}

/// The value that is built from the tokens of the text of a dictionary is
/// the dictionary.
#[verifier::rlimit(60)]
#[verifier::spinoff_prover]
pub proof fn lemma_dict_built(
    node: DictNode,
    s: Seq<u8>,
    p: int,
    depth: nat,
    q: Seq<Token>,
    i: int,
)
    requires
        renderable(node),
        nesting(node) <= depth,
        has_at(s, p, rendered(node)),
        clear_at(s, p + rendered(node).len()),
        s.len() <= usize::MAX,
        node_at(s, p, depth) is Match,
        holds(q, i, node_at(s, p, depth)->tokens),
        node is Dict,
    ensures
        built_node(s, q, i, depth) == (Built::Done {
            value: node@,
            next: i + node_at(s, p, depth)->tokens.len(),
        }),
    decreases node, 0int,
{
    let r = rendered(node);
    let t = node_at(s, p, depth)->tokens;
    lemma_holds_tokens(q, i, t);
    let d = node->Dict_0;
    let y = rendered_entries(d.entries@);
    let open = seq![0x3cu8, 0x3cu8, 0x20u8];
    let close = seq![0x3eu8, 0x3eu8, 0x20u8];
    assert(r =~= open + (y + close));
    lemma_has_at_split(s, p, open, y + close);
    lemma_has_at_split(s, p + 3, y, close);
    lemma_has_at_bytes(s, p, open);
    lemma_has_at_bytes(s, p + 3 + y.len(), close);
    assert(s[p + 0] == open[0]);
    assert(s[p + 1] == open[1]);
    assert(s[p + 2] == open[2]);
    assert(s[p + 3 + y.len() + 0] == close[0]);
    assert(s[p + 3 + y.len() + 1] == close[1]);
    lemma_entries_start(d.entries@, s, p + 3);
    lemma_no_whitespace(s, p + 3);
    lemma_skip_space(s, p + 2);
    lemma_pairs_read(d.entries@, s, p + 3, (depth - 1) as nat);
    lemma_no_int(s, p);
    assert(array_at(s, p, depth) is NoMatch);
    assert(string_at(s, p) is None);
    assert(key_at(s, p) is None);
    if has_at(s, p, word_true()) {
        lemma_has_at_bytes(s, p, word_true());
        assert(s[p + 0] == word_true()[0]);
    }
    if has_at(s, p, word_false()) {
        lemma_has_at_bytes(s, p, word_false());
        assert(s[p + 0] == word_false()[0]);
    }
    assert(boolean_at(s, p) is None);
    let run = pairs_from(s, p + 3, (depth - 1) as nat);
    let head = seq![tok(Rule::Dictionary, p, run.end + 2), tok(Rule::BeginDict, p, p + 2)];
    let tail = seq![tok(Rule::EndDict, run.end, run.end + 2)];
    assert(t == head + run.tokens + tail);
    lemma_holds_split(q, i, head + run.tokens, tail);
    lemma_holds_split(q, i, head, run.tokens);
    lemma_holds_tokens(q, i, head);
    lemma_holds_tokens(q, i + 2 + run.tokens.len(), tail);
    assert(q[i + 0] == head[0]);
    assert(q[i + 1] == head[1]);
    assert(q[i + 2 + run.tokens.len() + 0] == tail[0]);
    lemma_pairs_built(d.entries@, s, p + 3, (depth - 1) as nat, q, i + 2, Map::empty());
    lemma_laid_over_empty(d.entries@);
}

/// The value that is built from the tokens of the text of a reference is
/// the reference.
#[verifier::rlimit(60)]
#[verifier::spinoff_prover]
pub proof fn lemma_reference_built(
    node: DictNode,
    s: Seq<u8>,
    p: int,
    depth: nat,
    q: Seq<Token>,
    i: int,
)
    requires
        renderable(node),
        nesting(node) <= depth,
        has_at(s, p, rendered(node)),
        clear_at(s, p + rendered(node).len()),
        s.len() <= usize::MAX,
        node_at(s, p, depth) is Match,
        holds(q, i, node_at(s, p, depth)->tokens),
        node is ObjectReference,
    ensures
        built_node(s, q, i, depth) == (Built::Done {
            value: node@,
            next: i + node_at(s, p, depth)->tokens.len(),
        }),
{
    let r = rendered(node);
    let t = node_at(s, p, depth)->tokens;
    lemma_holds_tokens(q, i, t);
    let number = node->ObjectReference_0;
    let generation = node->ObjectReference_1;
    lemma_reference_read(number, generation, s, p, depth);
    let a = int_text(number as int);
    let b = int_text(generation as int);
    lemma_int_text(number as int);
    lemma_int_text(generation as int);
    assert(r =~= (a + space()) + (b + seq![0x20u8, 0x52u8, 0x20u8]));
    lemma_has_at_split(s, p, a + space(), b + seq![0x20u8, 0x52u8, 0x20u8]);
    lemma_has_at_split(s, p, a, space());
    lemma_has_at_split(s, p + a.len() + 1, b, seq![0x20u8, 0x52u8, 0x20u8]);
    assert(q[i + 0] == t[0]);
    assert(q[i + 1] == t[1]);
    assert(q[i + 2] == t[2]);
    assert(lexeme(s, q[i + 1]) == a);
    assert(lexeme(s, q[i + 2]) == b);
    assert(built_leaf(s, q[i + 1]) == Ok::<Cos, PdfError>(Cos::Int(number as int)));
    assert(built_leaf(s, q[i + 2]) == Ok::<Cos, PdfError>(Cos::Int(generation as int)));
    assert(built_node(s, q, i + 1, depth) == (Built::Done {
        value: Cos::Int(number as int),
        next: i + 2,
    }));
    assert(built_node(s, q, i + 2, depth) == (Built::Done {
        value: Cos::Int(generation as int),
        next: i + 3,
    }));
}

/// The values that are built from the tokens of the texts of items are the
/// values of the items.
pub proof fn lemma_items_built(
    items: Seq<DictNode>,
    s: Seq<u8>,
    p: int,
    depth: nat,
    q: Seq<Token>,
    j: int,
    acc: Seq<Cos>,
)
    requires
        renderable_items(items),
        nesting_items(items) <= depth,
        has_at(s, p, rendered_items(items)),
        p + rendered_items(items).len() < s.len(),
        s[p + rendered_items(items).len()] == 0x5d,
        s.len() <= usize::MAX,
        holds(q, j, items_from(s, p, depth).tokens),
        j + items_from(s, p, depth).tokens.len() < q.len(),
        q[j + items_from(s, p, depth).tokens.len()].rule == Rule::EndArray,
    ensures
        built_items(s, q, j, depth, acc) == (Built::Done {
            value: acc + nodes_view(items),
            next: j + items_from(s, p, depth).tokens.len() + 1,
        }),
    decreases items, 0int,
{
    if items.len() == 0 {
        lemma_no_node_at_close(s, p, depth);
        assert(acc + nodes_view(items) =~= acc);
    } else {
        let first = items[0];
        let rest = items.drop_first();
        let r0 = rendered(first);
        let e = p + r0.len();
        lemma_has_at_split(s, p, r0, rendered_items(rest));
        lemma_items_start(rest, s, e);
        lemma_node_read(first, s, p, depth);
        lemma_rendered_shape(first);
        lemma_has_at_bytes(s, p, r0);
        assert(s[p + (r0.len() - 1)] == r0[r0.len() - 1]);
        lemma_no_whitespace(s, e);
        lemma_skip_space(s, e - 1);
        lemma_items_read(rest, s, e, depth);
        let t0 = node_at(s, p, depth)->tokens;
        let tr = items_from(s, e, depth).tokens;
        assert(items_from(s, p, depth).tokens == t0 + tr);
        lemma_holds_split(q, j, t0, tr);
        lemma_first_token(s, p, depth);
        lemma_holds_tokens(q, j, t0);
        assert(q[j + 0] == t0[0]);
        lemma_node_built(first, s, p, depth, q, j);
        lemma_items_built(rest, s, e, depth, q, j + t0.len(), acc.push(first@));
        lemma_nodes_view_front(items);
        assert(acc.push(first@) + nodes_view(rest) =~= acc + nodes_view(items));
    }
}

/// The mapping that is built from the tokens of the texts of entries is the
/// mapping of the entries, laid over what was there.
pub proof fn lemma_pairs_built(
    entries: Seq<Entry>,
    s: Seq<u8>,
    p: int,
    depth: nat,
    q: Seq<Token>,
    j: int,
    acc: Map<Seq<char>, Cos>,
)
    requires
        renderable_entries(entries),
        nesting_entries(entries) <= depth,
        has_at(s, p, rendered_entries(entries)),
        p + rendered_entries(entries).len() < s.len(),
        s[p + rendered_entries(entries).len()] == 0x3e,
        s.len() <= usize::MAX,
        holds(q, j, pairs_from(s, p, depth).tokens),
        j + pairs_from(s, p, depth).tokens.len() < q.len(),
        q[j + pairs_from(s, p, depth).tokens.len()].rule == Rule::EndDict,
    ensures
        built_pairs(s, q, j, depth, acc) == (Built::Done {
            value: laid_over(acc, entries),
            next: j + pairs_from(s, p, depth).tokens.len() + 1,
        }),
    decreases entries, 0int,
{
    if entries.len() == 0 {
        lemma_no_node_at_close(s, p, depth);
    } else {
        let first = entries[0];
        let rest = entries.drop_first();
        let k = encode_utf8(first.key@);
        let rv = rendered(first.value);
        let r0 = rendered_entry(first);
        let pv = p + 2 + k.len();
        let e = p + r0.len();
        lemma_has_at_split(s, p, r0, rendered_entries(rest));
        assert(r0 =~= (seq![0x2fu8] + k) + (space() + rv));
        lemma_has_at_split(s, p, seq![0x2fu8] + k, space() + rv);
        lemma_has_at_split(s, p, seq![0x2fu8], k);
        lemma_has_at_split(s, p + 1 + k.len(), space(), rv);
        lemma_has_at_bytes(s, p + 1 + k.len(), space());
        assert(s[p + 1 + k.len() + 0] == space()[0]);
        lemma_rendered_shape(first.value);
        lemma_key_in_context(s, p, k);
        lemma_first_byte(first.value, s, pv);
        lemma_no_whitespace(s, pv);
        lemma_skip_space(s, pv - 1);
        lemma_entries_start(rest, s, e);
        lemma_node_read(first.value, s, pv, depth);
        lemma_has_at_bytes(s, pv, rv);
        assert(s[pv + (rv.len() - 1)] == rv[rv.len() - 1]);
        lemma_no_whitespace(s, e);
        lemma_skip_space(s, e - 1);
        lemma_pairs_read(rest, s, e, depth);
        assert(key_at(s, p) == Some(p + 1 + k.len()));
        assert(skip_ws(s, p + 1 + k.len()) == pv);
        assert(keypair_at(s, p, depth) is Match);
        assert(keypair_at(s, p, depth)->end == e - 1);
        assert(skip_ws(s, e - 1) == e);
        let tv = node_at(s, pv, depth)->tokens;
        let head = seq![tok(Rule::Keypair, p, e - 1), tok(Rule::Key, p, p + 1 + k.len())];
        let tk = keypair_at(s, p, depth)->tokens;
        assert(tk == head + tv);
        let tr = pairs_from(s, e, depth).tokens;
        assert(pairs_from(s, p, depth).tokens == tk + tr);
        lemma_holds_split(q, j, tk, tr);
        lemma_holds_split(q, j, head, tv);
        lemma_holds_tokens(q, j, head);
        assert(q[j + 0] == head[0]);
        assert(q[j + 1] == head[1]);
        assert(s.subrange(p + 1, p + 1 + k.len()) == k);
        vstd::utf8::encode_utf8_valid_utf8(first.key@);
        vstd::utf8::encode_utf8_decode_utf8(first.key@);
        assert(key_text(s, q[j + 1]) == Some(first.key@));
        lemma_node_built(first.value, s, pv, depth, q, j + 2);
        lemma_first_token(s, pv, depth);
        lemma_pairs_built(
            rest,
            s,
            e,
            depth,
            q,
            j + tk.len(),
            acc.insert(first.key@, first.value@),
        );
    }
}

/// The text of a value, read back, is the value: for every value whose
/// strings, reals and keys are literals of the grammar and whose nesting is
/// within the parser's ceiling, parsing its text gives a value equal to it,
/// whatever the order of the entries of its dictionaries.
pub proof fn lemma_round_trip(node: DictNode)
    requires
        renderable(node),
        nesting(node) <= MAX_DEPTH,
        rendered(node).len() <= usize::MAX,
    ensures
        parsed_object(rendered(node)) == Ok::<Cos, PdfError>(node@),
{
    let s = rendered(node);
    let depth = MAX_DEPTH as nat;
    lemma_rendered_shape(node);
    assert(s.subrange(0, s.len() as int) =~= s);
    lemma_no_int(s, s.len() as int);
    lemma_first_byte(node, s, 0);
    lemma_no_whitespace(s, 0);
    lemma_node_read(node, s, 0, depth);
    lemma_no_whitespace(s, s.len() as int);
    lemma_skip_space(s, s.len() - 1);
    let t = node_at(s, 0, depth)->tokens;
    assert(t.subrange(0, t.len() as int) =~= t);
    lemma_node_built(node, s, 0, depth, t, 0);
}

} // verus!
